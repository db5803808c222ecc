//! Model routing: parsing "provider/model[/variant]" identifiers.

use crate::error::LlmaoError;
use vstd::prelude::*;
use vstd::string::StrSliceExecFns;
use vstd::string::StringExecFns;

verus! {

/// A parsed model identifier: which provider to call, which model to ask
/// for, and an optional variant/deployment qualifier.
#[derive(Debug, Clone)]
pub struct ModelRoute {
    /// Provider name (e.g. "openai").
    pub provider: String,

    /// Model name (e.g. "gpt-4").
    pub model: String,

    /// Optional variant/deployment qualifier.
    pub variant: Option<String>,
}

/// The positions of the separator '/' among the first `n` characters of
/// `s`, in increasing order.
pub open spec fn seps_upto(s: Seq<char>, n: int) -> Seq<int>
    decreases n,
{
    if n <= 0 {
        Seq::empty()
    } else if s[n - 1] == '/' {
        seps_upto(s, n - 1).push(n - 1)
    } else {
        seps_upto(s, n - 1)
    }
}

/// The positions of the separator '/' in `s`, in increasing order.
pub open spec fn sep_positions(s: Seq<char>) -> Seq<int> {
    seps_upto(s, s.len() as int)
}

/// Whether `s` has the two-segment shape "provider/model", both segments
/// non-empty.
pub open spec fn is_two_segments(s: Seq<char>) -> bool {
    &&& sep_positions(s).len() == 1
    &&& 0 < sep_positions(s)[0]
    &&& sep_positions(s)[0] + 1 < s.len()
}

/// Whether `s` has the three-segment shape "provider/model/variant", all
/// segments non-empty.
pub open spec fn is_three_segments(s: Seq<char>) -> bool {
    &&& sep_positions(s).len() == 2
    &&& 0 < sep_positions(s)[0]
    &&& sep_positions(s)[0] + 1 < sep_positions(s)[1]
    &&& sep_positions(s)[1] + 1 < s.len()
}

impl ModelRoute {
    /// Parse a model string of the form "provider/model" or
    /// "provider/model/variant"; any other shape is a configuration
    /// error naming the offending string.
    pub fn parse(model_string: &str) -> (r: Result<ModelRoute, LlmaoError>)
        ensures
            r is Ok <==> is_two_segments(model_string@) || is_three_segments(model_string@),
            r matches Ok(route) ==> {
                let s = model_string@;
                let seps = sep_positions(s);
                &&& route.provider@ == s.subrange(0, seps[0])
                &&& if is_two_segments(s) {
                    &&& route.model@ == s.subrange(seps[0] + 1, s.len() as int)
                    &&& route.variant is None
                } else {
                    &&& route.model@ == s.subrange(seps[0] + 1, seps[1])
                    &&& route.variant matches Some(v) && v@ == s.subrange(
                        seps[1] + 1,
                        s.len() as int,
                    )
                }
            },
            r matches Err(e) ==> e matches LlmaoError::Config(m) && m@ == "Invalid model format '"@
                + model_string@ + "'. Expected 'provider/model' or 'provider/model/variant'"@,
    {
        let n = model_string.unicode_len();
        let mut pos: Vec<usize> = Vec::new();
        let mut i: usize = 0;
        while i < n
            invariant
                i <= n,
                n == model_string@.len(),
                pos@.map_values(|x: usize| x as int) =~= seps_upto(model_string@, i as int),
                forall|k: int| 0 <= k < pos@.len() ==> pos@[k] < i,
            decreases n - i,
        {
            let c = model_string.get_char(i);
            if c == '/' {
                pos.push(i);
                proof {
                    assert(pos@.map_values(|x: usize| x as int) =~= seps_upto(
                        model_string@,
                        i + 1,
                    ));
                }
            } else {
                proof {
                    assert(pos@.map_values(|x: usize| x as int) =~= seps_upto(
                        model_string@,
                        i + 1,
                    ));
                }
            }
            i += 1;
        }
        let ghost seps = sep_positions(model_string@);
        proof {
            assert(pos@.map_values(|x: usize| x as int) =~= seps);
        }
        if pos.len() == 1 {
            let a = pos[0];
            if 0 < a && a + 1 < n {
                let provider = model_string.substring_char(0, a).to_owned();
                let model = model_string.substring_char(a + 1, n).to_owned();
                return Ok(ModelRoute { provider, model, variant: None });
            }
        } else if pos.len() == 2 {
            let a = pos[0];
            let b = pos[1];
            proof {
                assert(seps[0] < seps[1]) by {
                    lemma_seps_sorted(model_string@, n as int);
                }
            }
            if 0 < a && a + 1 < b && b + 1 < n {
                let provider = model_string.substring_char(0, a).to_owned();
                let model = model_string.substring_char(a + 1, b).to_owned();
                let variant = model_string.substring_char(b + 1, n).to_owned();
                return Ok(ModelRoute { provider, model, variant: Some(variant) });
            }
        }
        let mut m = String::from_str("Invalid model format '");
        m.append(model_string);
        m.append("'. Expected 'provider/model' or 'provider/model/variant'");
        Err(LlmaoError::Config(m))
    }

    /// The identifier sent to the provider: "model" alone, or
    /// "model/variant" when a variant is present.
    pub fn model_id(&self) -> (r: String)
        ensures
            self.variant is Some ==> r@ == self.model@ + "/"@ + self.variant->0@,
            self.variant is None ==> r@ == self.model@,
    {
        match &self.variant {
            Some(v) => {
                let mut s = self.model.clone();
                s.append("/");
                s.append(v.as_str());
                s
            }
            None => self.model.clone(),
        }
    }

    /// The full route rendered back as "provider/model" or
    /// "provider/model/variant".
    pub fn route_string(&self) -> (r: String)
        ensures
            self.variant is Some ==> r@ == self.provider@ + "/"@ + self.model@ + "/"@
                + self.variant->0@,
            self.variant is None ==> r@ == self.provider@ + "/"@ + self.model@,
    {
        let mut s = self.provider.clone();
        s.append("/");
        s.append(self.model.as_str());
        match &self.variant {
            Some(v) => {
                s.append("/");
                s.append(v.as_str());
            }
            None => {}
        }
        s
    }
}

proof fn lemma_seps_sorted(s: Seq<char>, n: int)
    requires
        n <= s.len(),
    ensures
        forall|k1: int, k2: int|
            0 <= k1 < k2 < seps_upto(s, n).len() ==> seps_upto(s, n)[k1] < seps_upto(s, n)[k2],
        forall|k: int| 0 <= k < seps_upto(s, n).len() ==> seps_upto(s, n)[k] < n,
    decreases n,
{
    if n > 0 {
        lemma_seps_sorted(s, n - 1);
        let prev = seps_upto(s, n - 1);
        let cur = seps_upto(s, n);
        if s[n - 1] == '/' {
            assert(cur == prev.push(n - 1));
            assert forall|k: int| 0 <= k < cur.len() implies cur[k] < n by {
                if k < prev.len() {
                    assert(cur[k] == prev[k]);
                } else {
                    assert(cur[k] == n - 1);
                }
            }
            assert forall|k1: int, k2: int| 0 <= k1 < k2 < cur.len() implies cur[k1] < cur[k2] by {
                if k2 < prev.len() {
                    assert(cur[k1] == prev[k1]);
                    assert(cur[k2] == prev[k2]);
                } else {
                    assert(cur[k1] == prev[k1]);
                    assert(cur[k2] == n - 1);
                }
            }
        } else {
            assert(cur == prev);
        }
    }
}

} // verus!
