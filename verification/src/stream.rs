//! Streamed responses: server-sent-event line framing, and the
//! accumulator that folds incremental chunks into one final message.

use crate::api::{FunctionCall, Message, MessageContent, ToolCall, Usage};
use crate::duration::contains_char;
use crate::error::LlmaoError;
use crate::text::{range_has_prefix, str_eq, trim_bounds, trim_seq};
use vstd::pervasive::VecAdditionalExecFns;
use vstd::prelude::*;
use vstd::string::StrSliceExecFns;
use vstd::string::StringExecFns;

verus! {

/// A streaming chunk from the provider.
#[derive(Debug)]
pub struct StreamChunk {
    /// Chunk id.
    pub id: String,

    /// Object type.
    pub object: String,

    /// Creation timestamp.
    pub created: u64,

    /// Model name.
    pub model: String,

    /// Choices with deltas.
    pub choices: Vec<StreamChoice>,

    /// Usage totals (only on the final chunk for some providers).
    pub usage: Option<Usage>,
}

/// A choice inside a streaming chunk.
#[derive(Debug)]
pub struct StreamChoice {
    /// Choice index.
    pub index: u32,

    /// The partial message added by this chunk.
    pub delta: StreamDelta,

    /// Finish reason, set on the closing chunk.
    pub finish_reason: Option<String>,
}

/// The partial content carried by one chunk.
#[derive(Debug)]
pub struct StreamDelta {
    /// Role, usually only on the first chunk.
    pub role: Option<String>,

    /// Content fragment.
    pub content: Option<String>,

    /// Tool-call fragments.
    pub tool_calls: Option<Vec<ToolCallDelta>>,
}

/// A fragment of one tool call.
#[derive(Debug)]
pub struct ToolCallDelta {
    /// Position of the tool call the fragment belongs to.
    pub index: u32,

    /// Tool call id, on the first fragment for this position.
    pub id: Option<String>,

    /// Kind of tool call, on the first fragment.
    pub call_type: Option<String>,

    /// Function fragment.
    pub function: Option<FunctionDelta>,
}

/// A fragment of a function invocation.
#[derive(Debug)]
pub struct FunctionDelta {
    /// Function name, on the first fragment.
    pub name: Option<String>,

    /// Argument text to append.
    pub arguments: Option<String>,
}

/// The mathematical state of one accumulated tool call.
pub struct ToolAccModel {
    /// Tool call id.
    pub id: Seq<char>,

    /// Kind of tool call.
    pub call_type: Seq<char>,

    /// Function name.
    pub name: Seq<char>,

    /// Accumulated argument text.
    pub arguments: Seq<char>,
}

/// The mathematical state of the whole accumulator.
pub struct AccModel {
    /// Accumulated content.
    pub content: Seq<char>,

    /// Accumulated tool calls by position.
    pub tool_calls: Seq<ToolAccModel>,

    /// Role from the first chunk that carried one.
    pub role: Option<Seq<char>>,

    /// Finish reason from the most recent chunk that carried one.
    pub finish_reason: Option<Seq<char>>,

    /// Response id, from the first chunk.
    pub id: Option<Seq<char>>,

    /// Model name, from the first chunk.
    pub model: Option<Seq<char>>,

    /// Creation timestamp, from the first chunk.
    pub created: Option<u64>,

    /// Usage totals; the last chunk carrying them wins.
    pub usage: Option<Usage>,
}

/// Accumulator for one streamed response.
#[derive(Debug)]
pub struct StreamAccumulator {
    /// Accumulated content.
    pub content: String,

    /// Accumulated tool calls by position.
    pub tool_calls: Vec<ToolCallAccumulator>,

    /// Role from the first chunk that carried one.
    pub role: Option<String>,

    /// Finish reason from the most recent chunk that carried one.
    pub finish_reason: Option<String>,

    /// Response id, from the first chunk.
    pub id: Option<String>,

    /// Model name, from the first chunk.
    pub model: Option<String>,

    /// Creation timestamp, from the first chunk.
    pub created: Option<u64>,

    /// Usage totals from the final chunk that carried them.
    pub usage: Option<Usage>,
}

/// One tool call being accumulated.
#[derive(Debug)]
pub struct ToolCallAccumulator {
    /// Tool call id; empty until a fragment supplies it.
    pub id: String,

    /// Kind of tool call; empty until a fragment supplies it.
    pub call_type: String,

    /// Function name; empty until a fragment supplies it.
    pub name: String,

    /// Accumulated argument text.
    pub arguments: String,
}

impl View for ToolCallAccumulator {
    type V = ToolAccModel;

    open spec fn view(&self) -> ToolAccModel {
        ToolAccModel {
            id: self.id@,
            call_type: self.call_type@,
            name: self.name@,
            arguments: self.arguments@,
        }
    }
}

impl View for StreamAccumulator {
    type V = AccModel;

    open spec fn view(&self) -> AccModel {
        AccModel {
            content: self.content@,
            tool_calls: Seq::new(self.tool_calls@.len(), |i: int| self.tool_calls@[i]@),
            role: match self.role {
                Some(r) => Some(r@),
                None => None,
            },
            finish_reason: match self.finish_reason {
                Some(f) => Some(f@),
                None => None,
            },
            id: match self.id {
                Some(s) => Some(s@),
                None => None,
            },
            model: match self.model {
                Some(s) => Some(s@),
                None => None,
            },
            created: self.created,
            usage: self.usage,
        }
    }
}

/// A tool call about which nothing has arrived yet.
pub open spec fn empty_tool() -> ToolAccModel {
    ToolAccModel {
        id: Seq::empty(),
        call_type: Seq::empty(),
        name: Seq::empty(),
        arguments: Seq::empty(),
    }
}

/// `tcs` grown with empty slots until it has at least `n` entries,
/// existing entries untouched.
pub open spec fn grow_tools(tcs: Seq<ToolAccModel>, n: int) -> Seq<ToolAccModel> {
    if tcs.len() >= n {
        tcs
    } else {
        tcs + Seq::new((n - tcs.len()) as nat, |i: int| empty_tool())
    }
}

/// One fragment merged into one accumulated tool call: identity fields
/// (id, kind, function name) are taken only while still unset; argument
/// text is appended.
pub open spec fn merge_tool(t: ToolAccModel, d: ToolCallDelta) -> ToolAccModel {
    let id2 = if t.id.len() == 0 {
        match d.id {
            Some(s) => s@,
            None => t.id,
        }
    } else {
        t.id
    };
    let ct2 = if t.call_type.len() == 0 {
        match d.call_type {
            Some(s) => s@,
            None => t.call_type,
        }
    } else {
        t.call_type
    };
    let name2 = match d.function {
        Some(f) => if t.name.len() == 0 {
            match f.name {
                Some(s) => s@,
                None => t.name,
            }
        } else {
            t.name
        },
        None => t.name,
    };
    let args2 = match d.function {
        Some(f) => match f.arguments {
            Some(s) => t.arguments + s@,
            None => t.arguments,
        },
        None => t.arguments,
    };
    ToolAccModel { id: id2, call_type: ct2, name: name2, arguments: args2 }
}

/// One tool-call fragment applied to the accumulated list: the list
/// grows on demand to reach the fragment's position, then the fragment
/// merges into the entry there.
pub open spec fn apply_tc_delta(tcs: Seq<ToolAccModel>, d: ToolCallDelta) -> Seq<ToolAccModel> {
    let idx = d.index as int;
    let grown = grow_tools(tcs, idx + 1);
    grown.update(idx, merge_tool(grown[idx], d))
}

/// The first `n` fragments of `ds` applied in order.
pub open spec fn apply_tc_list(tcs: Seq<ToolAccModel>, ds: Seq<ToolCallDelta>, n: int) -> Seq<
    ToolAccModel,
>
    decreases n,
{
    if n <= 0 {
        tcs
    } else {
        apply_tc_delta(apply_tc_list(tcs, ds, n - 1), ds[n - 1])
    }
}

/// One choice applied to the accumulator: the role is captured once,
/// content is appended, tool-call fragments are merged in order, and a
/// finish reason overwrites the previous one.
pub open spec fn apply_choice(acc: AccModel, c: StreamChoice) -> AccModel {
    let acc1 = match c.delta.role {
        Some(r) => if acc.role is None {
            AccModel { role: Some(r@), ..acc }
        } else {
            acc
        },
        None => acc,
    };
    let acc2 = match c.delta.content {
        Some(s) => AccModel { content: acc1.content + s@, ..acc1 },
        None => acc1,
    };
    let acc3 = match c.delta.tool_calls {
        Some(ds) => AccModel {
            tool_calls: apply_tc_list(acc2.tool_calls, ds@, ds@.len() as int),
            ..acc2
        },
        None => acc2,
    };
    match c.finish_reason {
        Some(f) => AccModel { finish_reason: Some(f@), ..acc3 },
        None => acc3,
    }
}

/// The first `n` choices of `cs` applied in order.
pub open spec fn apply_choices(acc: AccModel, cs: Seq<StreamChoice>, n: int) -> AccModel
    decreases n,
{
    if n <= 0 {
        acc
    } else {
        apply_choice(apply_choices(acc, cs, n - 1), cs[n - 1])
    }
}

/// One chunk applied to the accumulator: identity metadata is captured
/// from the first chunk only, usage from the last chunk that carries
/// it, and every choice is folded in order.
pub open spec fn apply_chunk(acc: AccModel, chunk: StreamChunk) -> AccModel {
    let acc0 = if acc.id is None {
        AccModel { id: Some(chunk.id@), model: Some(chunk.model@), created: Some(chunk.created), ..acc }
    } else {
        acc
    };
    let acc1 = if chunk.usage is Some {
        AccModel { usage: chunk.usage, ..acc0 }
    } else {
        acc0
    };
    apply_choices(acc1, chunk.choices@, chunk.choices@.len() as int)
}

impl StreamAccumulator {
    /// A fresh accumulator with nothing accumulated.
    pub fn new() -> (r: StreamAccumulator)
        ensures
            r@ == (AccModel {
                content: Seq::<char>::empty(),
                tool_calls: Seq::<ToolAccModel>::empty(),
                role: None,
                finish_reason: None,
                id: None,
                model: None,
                created: None,
                usage: None,
            }),
    {
        let r = StreamAccumulator {
            content: String::new(),
            tool_calls: Vec::new(),
            role: None,
            finish_reason: None,
            id: None,
            model: None,
            created: None,
            usage: None,
        };
        proof {
            assert(r@.tool_calls =~= Seq::<ToolAccModel>::empty());
            assert(r@ =~= (AccModel {
                content: Seq::<char>::empty(),
                tool_calls: Seq::<ToolAccModel>::empty(),
                role: None,
                finish_reason: None,
                id: None,
                model: None,
                created: None,
                usage: None,
            }));
        }
        r
    }

    /// Fold one chunk into the accumulator; this always succeeds, and
    /// the new state is exactly `apply_chunk` of the old one.
    pub fn process_chunk(&mut self, chunk: &StreamChunk) -> (r: Result<(), LlmaoError>)
        ensures
            r is Ok,
            final(self)@ == apply_chunk(old(self)@, *chunk),
    {
        if self.id.is_none() {
            self.id = Some(chunk.id.clone());
            self.model = Some(chunk.model.clone());
            self.created = Some(chunk.created);
        }
        if chunk.usage.is_some() {
            self.usage = chunk.usage;
        }
        let ghost acc1 = {
            let acc0 = if old(self)@.id is None {
                AccModel {
                    id: Some(chunk.id@),
                    model: Some(chunk.model@),
                    created: Some(chunk.created),
                    ..old(self)@
                }
            } else {
                old(self)@
            };
            if chunk.usage is Some {
                AccModel { usage: chunk.usage, ..acc0 }
            } else {
                acc0
            }
        };
        proof {
            assert(self@ =~= acc1);
        }
        let ghost cs = chunk.choices@;
        let n = chunk.choices.len();
        let mut i: usize = 0;
        while i < n
            invariant
                n == cs.len(),
                cs == chunk.choices@,
                i <= n,
                self@ == apply_choices(acc1, cs, i as int),
            decreases n - i,
        {
            let ghost before = self@;
            let choice = &chunk.choices[i];
            // capture the role once
            match &choice.delta.role {
                Some(role) => {
                    if self.role.is_none() {
                        self.role = Some(role.clone());
                    }
                }
                None => {}
            }
            let ghost a1 = match &choice.delta.role {
                Some(r) => if before.role is None {
                    AccModel { role: Some(r@), ..before }
                } else {
                    before
                },
                None => before,
            };
            proof {
                assert(self@ =~= a1);
            }
            // append the content fragment
            match &choice.delta.content {
                Some(content) => {
                    self.content.append(content.as_str());
                }
                None => {}
            }
            let ghost a2 = match &choice.delta.content {
                Some(s) => AccModel { content: a1.content + s@, ..a1 },
                None => a1,
            };
            proof {
                assert(self@ =~= a2);
            }
            // merge tool-call fragments by position
            match &choice.delta.tool_calls {
                Some(tool_calls) => {
                    let ghost ds = tool_calls@;
                    let m = tool_calls.len();
                    let mut k: usize = 0;
                    while k < m
                        invariant
                            m == ds.len(),
                            tool_calls@ == ds,
                            k <= m,
                            self@ == (AccModel {
                                tool_calls: apply_tc_list(a2.tool_calls, ds, k as int),
                                ..a2
                            }),
                        decreases m - k,
                    {
                        let ghost tcs_k = self@.tool_calls;
                        let ghost snap = self@;
                        let d = &tool_calls[k];
                        let idx = d.index as usize;
                        // grow the list to reach the fragment's position
                        while self.tool_calls.len() <= idx
                            invariant
                                self@.content == snap.content,
                                self@.role == snap.role,
                                self@.finish_reason == snap.finish_reason,
                                self@.id == snap.id,
                                self@.model == snap.model,
                                self@.created == snap.created,
                                self@.usage == snap.usage,
                                self@.tool_calls.len() >= tcs_k.len(),
                                tcs_k.len() <= idx ==> self@.tool_calls.len() <= idx + 1,
                                tcs_k.len() > idx ==> self@.tool_calls.len() == tcs_k.len(),
                                self@.tool_calls == grow_tools(
                                    tcs_k,
                                    self@.tool_calls.len() as int,
                                ),
                            decreases idx + 1 - self.tool_calls@.len(),
                        {
                            let ghost g_pre = self@.tool_calls;
                            self.tool_calls.push(ToolCallAccumulator {
                                id: String::new(),
                                call_type: String::new(),
                                name: String::new(),
                                arguments: String::new(),
                            });
                            proof {
                                assert(self@.tool_calls =~= g_pre.push(empty_tool()));
                                assert(self@.tool_calls =~= grow_tools(
                                    tcs_k,
                                    self@.tool_calls.len() as int,
                                ));
                            }
                        }
                        proof {
                            if tcs_k.len() > idx {
                                assert(grow_tools(tcs_k, self@.tool_calls.len() as int) =~= tcs_k);
                                assert(grow_tools(tcs_k, idx + 1) =~= tcs_k);
                            } else {
                                assert(self@.tool_calls.len() == idx + 1);
                            }
                            assert(self@.tool_calls =~= grow_tools(tcs_k, idx + 1));
                        }
                        // merge the fragment into the entry at its position
                        let t = &self.tool_calls[idx];
                        let new_id = if t.id.unicode_len() == 0 {
                            match &d.id {
                                Some(s) => s.clone(),
                                None => t.id.clone(),
                            }
                        } else {
                            t.id.clone()
                        };
                        let new_ct = if t.call_type.unicode_len() == 0 {
                            match &d.call_type {
                                Some(s) => s.clone(),
                                None => t.call_type.clone(),
                            }
                        } else {
                            t.call_type.clone()
                        };
                        let new_name = match &d.function {
                            Some(f) => if t.name.unicode_len() == 0 {
                                match &f.name {
                                    Some(s) => s.clone(),
                                    None => t.name.clone(),
                                }
                            } else {
                                t.name.clone()
                            },
                            None => t.name.clone(),
                        };
                        let new_args = match &d.function {
                            Some(f) => match &f.arguments {
                                Some(s) => {
                                    let mut a = t.arguments.clone();
                                    a.append(s.as_str());
                                    a
                                }
                                None => t.arguments.clone(),
                            },
                            None => t.arguments.clone(),
                        };
                        let merged = ToolCallAccumulator {
                            id: new_id,
                            call_type: new_ct,
                            name: new_name,
                            arguments: new_args,
                        };
                        proof {
                            assert(merged@ == merge_tool(
                                grow_tools(tcs_k, idx + 1)[idx as int],
                                ds[k as int],
                            ));
                        }
                        self.tool_calls.set(idx, merged);
                        proof {
                            assert(self@.tool_calls =~= apply_tc_delta(tcs_k, ds[k as int]));
                            assert(self@ =~= (AccModel {
                                tool_calls: apply_tc_list(a2.tool_calls, ds, k + 1),
                                ..a2
                            }));
                        }
                        k += 1;
                    }
                    proof {
                        assert(ds.len() as int == m as int);
                    }
                }
                None => {}
            }
            let ghost a3 = match &choice.delta.tool_calls {
                Some(ds2) => AccModel {
                    tool_calls: apply_tc_list(a2.tool_calls, ds2@, ds2@.len() as int),
                    ..a2
                },
                None => a2,
            };
            proof {
                assert(self@ =~= a3);
            }
            // the most recent finish reason wins
            match &choice.finish_reason {
                Some(reason) => {
                    self.finish_reason = Some(reason.clone());
                }
                None => {}
            }
            proof {
                assert(self@ =~= apply_choice(before, cs[i as int]));
            }
            i += 1;
        }
        proof {
            assert(apply_choices(acc1, cs, n as int) == self@);
        }
        Ok(())
    }

    /// Consume the accumulator into one normalized message: a missing
    /// role defaults to the assistant role, the content becomes plain
    /// text, and an empty tool-call set becomes no tool calls.
    pub fn into_message(self) -> (r: Message)
        ensures
            match self@.role {
                Some(ro) => r.role@ == ro,
                None => r.role@ == "assistant"@,
            },
            r.content matches MessageContent::Text(s) && s@ == self@.content,
            r.name is None,
            r.tool_call_id is None,
            self@.tool_calls.len() == 0 ==> r.tool_calls is None,
            self@.tool_calls.len() > 0 ==> (r.tool_calls matches Some(v) && v@.len()
                == self@.tool_calls.len() && forall|j: int|
                0 <= j < v@.len() ==> {
                    let t = self@.tool_calls[j];
                    &&& (#[trigger] v@[j]).id@ == t.id
                    &&& v@[j].call_type@ == t.call_type
                    &&& v@[j].function.name@ == t.name
                    &&& v@[j].function.arguments@ == t.arguments
                }),
    {
        let ghost model = self@;
        let StreamAccumulator { content, tool_calls, role, .. } = self;
        let tc_out: Option<Vec<ToolCall>> = if tool_calls.len() == 0 {
            None
        } else {
            let ghost orig = tool_calls@;
            let mut rem = tool_calls;
            let mut v: Vec<ToolCall> = Vec::new();
            while rem.len() > 0
                invariant
                    v@.len() + rem@.len() == orig.len(),
                    rem@ =~= orig.subrange(v@.len() as int, orig.len() as int),
                    forall|j: int|
                        0 <= j < v@.len() ==> {
                            let t = orig[j]@;
                            &&& (#[trigger] v@[j]).id@ == t.id
                            &&& v@[j].call_type@ == t.call_type
                            &&& v@[j].function.name@ == t.name
                            &&& v@[j].function.arguments@ == t.arguments
                        },
                decreases rem@.len(),
            {
                let ghost rem_pre = rem@;
                let t = rem.remove(0);
                proof {
                    assert(t == orig[v@.len() as int]);
                    assert(rem@ =~= orig.subrange(v@.len() as int + 1, orig.len() as int));
                }
                v.push(ToolCall {
                    id: t.id,
                    call_type: t.call_type,
                    function: FunctionCall { name: t.name, arguments: t.arguments },
                });
            }
            Some(v)
        };
        let role_out = match role {
            Some(r) => r,
            None => String::from_str("assistant"),
        };
        Message {
            role: role_out,
            content: MessageContent::Text(content),
            name: None,
            tool_calls: tc_out,
            tool_call_id: None,
        }
    }
}

/// The entry of `tcs` at `i`, read as a fresh empty tool call past the
/// end.
pub open spec fn tool_at(tcs: Seq<ToolAccModel>, i: int) -> ToolAccModel {
    if 0 <= i < tcs.len() {
        tcs[i]
    } else {
        empty_tool()
    }
}

proof fn lemma_grow_index(tcs: Seq<ToolAccModel>, n: int)
    ensures
        grow_tools(tcs, n).len() == if tcs.len() >= n {
            tcs.len() as int
        } else {
            n
        },
        forall|i: int|
            0 <= i < grow_tools(tcs, n).len() ==> #[trigger] grow_tools(tcs, n)[i] == tool_at(
                tcs,
                i,
            ),
{
    if tcs.len() < n {
        assert forall|i: int| 0 <= i < grow_tools(tcs, n).len() implies #[trigger] grow_tools(
            tcs,
            n,
        )[i] == tool_at(tcs, i) by {
            if i < tcs.len() {
                assert(grow_tools(tcs, n)[i] == tcs[i]);
            } else {
                assert(grow_tools(tcs, n)[i] == Seq::new(
                    (n - tcs.len()) as nat,
                    |k: int| empty_tool(),
                )[i - tcs.len()]);
            }
        }
    }
}

proof fn lemma_apply_tc_index(tcs: Seq<ToolAccModel>, d: ToolCallDelta)
    ensures
        apply_tc_delta(tcs, d).len() == if tcs.len() >= d.index + 1 {
            tcs.len() as int
        } else {
            d.index + 1
        },
        apply_tc_delta(tcs, d)[d.index as int] == merge_tool(tool_at(tcs, d.index as int), d),
        forall|j: int|
            0 <= j < apply_tc_delta(tcs, d).len() && j != d.index ==> #[trigger] apply_tc_delta(
                tcs,
                d,
            )[j] == tool_at(tcs, j),
{
    lemma_grow_index(tcs, d.index + 1);
}

/// Law: fragments for two different tool-call positions commute — the
/// final accumulated state does not depend on the order in which they
/// arrive. (Two argument fragments for the same position do not
/// commute: argument text is appended in arrival order.)
pub proof fn lemma_tool_fragments_commute(
    tcs: Seq<ToolAccModel>,
    d1: ToolCallDelta,
    d2: ToolCallDelta,
)
    requires
        d1.index != d2.index,
    ensures
        apply_tc_delta(apply_tc_delta(tcs, d1), d2) == apply_tc_delta(apply_tc_delta(tcs, d2), d1),
{
    let i1 = d1.index as int;
    let i2 = d2.index as int;
    let s1 = apply_tc_delta(tcs, d1);
    let s2 = apply_tc_delta(tcs, d2);
    let l = apply_tc_delta(s1, d2);
    let r = apply_tc_delta(s2, d1);
    lemma_apply_tc_index(tcs, d1);
    lemma_apply_tc_index(tcs, d2);
    lemma_apply_tc_index(s1, d2);
    lemma_apply_tc_index(s2, d1);
    assert(l.len() == r.len());
    assert forall|j: int| 0 <= j < l.len() implies l[j] == r[j] by {
        if j == i1 {
            assert(l[j] == tool_at(s1, j));
            assert(tool_at(s1, j) == merge_tool(tool_at(tcs, j), d1));
            assert(r[j] == merge_tool(tool_at(s2, j), d1));
            assert(tool_at(s2, j) == tool_at(tcs, j));
        } else if j == i2 {
            assert(l[j] == merge_tool(tool_at(s1, j), d2));
            assert(tool_at(s1, j) == tool_at(tcs, j));
            assert(r[j] == tool_at(s2, j));
            assert(tool_at(s2, j) == merge_tool(tool_at(tcs, j), d2));
        } else {
            assert(l[j] == tool_at(s1, j));
            assert(tool_at(s1, j) == tool_at(tcs, j));
            assert(r[j] == tool_at(s2, j));
            assert(tool_at(s2, j) == tool_at(tcs, j));
        }
    }
    assert(l =~= r);
}

/// The fragments among the first `n` of `ds` that target position
/// `idx`, in order.
pub open spec fn fragments_at(ds: Seq<ToolCallDelta>, idx: int, n: int) -> Seq<ToolCallDelta>
    decreases n,
{
    if n <= 0 {
        Seq::empty()
    } else {
        let prev = fragments_at(ds, idx, n - 1);
        if ds[n - 1].index == idx {
            prev.push(ds[n - 1])
        } else {
            prev
        }
    }
}

/// `t` with the fragments of `fs` merged in order.
pub open spec fn merge_fold(t: ToolAccModel, fs: Seq<ToolCallDelta>) -> ToolAccModel
    decreases fs.len(),
{
    if fs.len() == 0 {
        t
    } else {
        merge_tool(merge_fold(t, fs.drop_last()), fs.last())
    }
}

proof fn lemma_apply_len(tcs: Seq<ToolAccModel>, ds: Seq<ToolCallDelta>, n: int)
    requires
        0 <= n <= ds.len(),
    ensures
        apply_tc_list(tcs, ds, n).len() >= tcs.len(),
        forall|k: int| 0 <= k < n ==> apply_tc_list(tcs, ds, n).len() > (#[trigger] ds[k]).index,
    decreases n,
{
    if n > 0 {
        lemma_apply_len(tcs, ds, n - 1);
        lemma_apply_tc_index(apply_tc_list(tcs, ds, n - 1), ds[n - 1]);
    }
}

proof fn lemma_fragments_empty(ds: Seq<ToolCallDelta>, i: int, n: int)
    requires
        0 <= n <= ds.len(),
        forall|k: int| 0 <= k < n ==> (#[trigger] ds[k]).index != i,
    ensures
        fragments_at(ds, i, n) == Seq::<ToolCallDelta>::empty(),
    decreases n,
{
    if n > 0 {
        lemma_fragments_empty(ds, i, n - 1);
    }
}

/// Law: the accumulated state at one position is exactly the in-order
/// fold of the fragments addressed to that position — fragments for
/// other positions cannot affect it. So delivery order matters only
/// within one position: any interleaving of fragment sequences that
/// keeps each position's relative order accumulates to the same state
/// at every position.
pub proof fn lemma_fragments_project(
    tcs: Seq<ToolAccModel>,
    ds: Seq<ToolCallDelta>,
    n: int,
    i: int,
)
    requires
        0 <= n <= ds.len(),
        0 <= i < apply_tc_list(tcs, ds, n).len(),
    ensures
        apply_tc_list(tcs, ds, n)[i] == merge_fold(tool_at(tcs, i), fragments_at(ds, i, n)),
    decreases n,
{
    if n == 0 {
        assert(fragments_at(ds, i, 0) == Seq::<ToolCallDelta>::empty());
    } else {
        let prev = apply_tc_list(tcs, ds, n - 1);
        let d = ds[n - 1];
        let idx = d.index as int;
        let cur = apply_tc_list(tcs, ds, n);
        lemma_apply_tc_index(prev, d);
        lemma_apply_len(tcs, ds, n - 1);
        if i < prev.len() {
            lemma_fragments_project(tcs, ds, n - 1, i);
            if i == idx {
                assert(cur[i] == merge_tool(tool_at(prev, i), d));
                assert(tool_at(prev, i) == prev[i]);
                assert(fragments_at(ds, i, n) == fragments_at(ds, i, n - 1).push(d));
                assert(fragments_at(ds, i, n).drop_last() =~= fragments_at(ds, i, n - 1));
            } else {
                assert(cur[i] == tool_at(prev, i));
                assert(fragments_at(ds, i, n) == fragments_at(ds, i, n - 1));
            }
        } else {
            // the position was not reached before this fragment: no
            // earlier fragment targeted it, and it lies past the
            // initial state
            assert forall|k: int| 0 <= k < n - 1 implies (#[trigger] ds[k]).index != i by {
                assert(prev.len() > ds[k].index);
            }
            lemma_fragments_empty(ds, i, n - 1);
            assert(tool_at(tcs, i) == empty_tool());
            if i == idx {
                assert(cur[i] == merge_tool(tool_at(prev, i), d));
                assert(tool_at(prev, i) == empty_tool());
                assert(fragments_at(ds, i, n) =~= Seq::<ToolCallDelta>::empty().push(d));
                assert(merge_fold(tool_at(tcs, i), fragments_at(ds, i, n)) == merge_tool(
                    merge_fold(empty_tool(), Seq::<ToolCallDelta>::empty()),
                    d,
                )) by {
                    assert(fragments_at(ds, i, n).drop_last() =~= Seq::<
                        ToolCallDelta,
                    >::empty());
                    assert(fragments_at(ds, i, n).last() == d);
                }
            } else {
                assert(i < cur.len());
                assert(cur[i] == tool_at(prev, i));
                assert(tool_at(prev, i) == empty_tool());
                assert(fragments_at(ds, i, n) == fragments_at(ds, i, n - 1));
            }
        }
    }
}

/// The furthest position any of the first `n` fragments targets; -1
/// when none do.
pub open spec fn max_target(ds: Seq<ToolCallDelta>, n: int) -> int
    decreases n,
{
    if n <= 0 {
        -1
    } else {
        let prev = max_target(ds, n - 1);
        if ds[n - 1].index > prev {
            ds[n - 1].index as int
        } else {
            prev
        }
    }
}

proof fn lemma_apply_len_exact(tcs: Seq<ToolAccModel>, ds: Seq<ToolCallDelta>, n: int)
    requires
        0 <= n <= ds.len(),
    ensures
        apply_tc_list(tcs, ds, n).len() == if max_target(ds, n) + 1 > tcs.len() {
            max_target(ds, n) + 1
        } else {
            tcs.len() as int
        },
    decreases n,
{
    if n > 0 {
        lemma_apply_len_exact(tcs, ds, n - 1);
        lemma_apply_tc_index(apply_tc_list(tcs, ds, n - 1), ds[n - 1]);
    }
}

proof fn lemma_max_target_hit(ds: Seq<ToolCallDelta>, n: int)
    requires
        0 <= n <= ds.len(),
        max_target(ds, n) >= 0,
    ensures
        fragments_at(ds, max_target(ds, n), n).len() > 0,
    decreases n,
{
    if n > 0 {
        let prev = max_target(ds, n - 1);
        if ds[n - 1].index > prev {
        } else {
            lemma_max_target_hit(ds, n - 1);
        }
    }
}

proof fn lemma_target_below_max(ds: Seq<ToolCallDelta>, n: int, i: int)
    requires
        0 <= n <= ds.len(),
        fragments_at(ds, i, n).len() > 0,
    ensures
        max_target(ds, n) >= i,
    decreases n,
{
    if n > 0 {
        if ds[n - 1].index == i {
        } else {
            lemma_target_below_max(ds, n - 1, i);
        }
    }
}

/// Law: two deliveries of the same fragments accumulate to the same
/// tool-call state, as long as each position's fragments keep their
/// relative order — block delivery of one position after another
/// equals interleaved delivery.
pub proof fn lemma_interleavings_agree(
    tcs: Seq<ToolAccModel>,
    ds1: Seq<ToolCallDelta>,
    ds2: Seq<ToolCallDelta>,
)
    requires
        forall|i: int|
            #[trigger] fragments_at(ds1, i, ds1.len() as int) == fragments_at(
                ds2,
                i,
                ds2.len() as int,
            ),
    ensures
        apply_tc_list(tcs, ds1, ds1.len() as int) == apply_tc_list(tcs, ds2, ds2.len() as int),
{
    let n1 = ds1.len() as int;
    let n2 = ds2.len() as int;
    let m1 = max_target(ds1, n1);
    let m2 = max_target(ds2, n2);
    if m1 >= 0 {
        lemma_max_target_hit(ds1, n1);
        lemma_target_below_max(ds2, n2, m1);
    }
    if m2 >= 0 {
        lemma_max_target_hit(ds2, n2);
        lemma_target_below_max(ds1, n1, m2);
    }
    assert(m1 == m2);
    lemma_apply_len_exact(tcs, ds1, n1);
    lemma_apply_len_exact(tcs, ds2, n2);
    let a = apply_tc_list(tcs, ds1, n1);
    let b = apply_tc_list(tcs, ds2, n2);
    assert(a.len() == b.len());
    assert forall|i: int| 0 <= i < a.len() implies a[i] == b[i] by {
        lemma_fragments_project(tcs, ds1, n1, i);
        lemma_fragments_project(tcs, ds2, n2, i);
    }
    assert(a =~= b);
}

/// Law: merging a fragment never rewrites what a tool call already
/// holds: identity fields (id, kind, function name) survive once set,
/// and the argument text only ever grows at its end.
pub proof fn lemma_merge_monotonic(t: ToolAccModel, d: ToolCallDelta)
    ensures
        t.id.len() > 0 ==> merge_tool(t, d).id == t.id,
        t.call_type.len() > 0 ==> merge_tool(t, d).call_type == t.call_type,
        t.name.len() > 0 ==> merge_tool(t, d).name == t.name,
        merge_tool(t, d).arguments.len() >= t.arguments.len(),
        merge_tool(t, d).arguments.subrange(0, t.arguments.len() as int) == t.arguments,
{
    let m = merge_tool(t, d);
    match d.function {
        Some(f) => match f.arguments {
            Some(s) => {
                assert(m.arguments == t.arguments + s@);
                assert(m.arguments.subrange(0, t.arguments.len() as int) =~= t.arguments);
            }
            None => {
                assert(m.arguments.subrange(0, t.arguments.len() as int) =~= t.arguments);
            }
        },
        None => {
            assert(m.arguments.subrange(0, t.arguments.len() as int) =~= t.arguments);
        }
    }
}

/// The classification of one server-sent-event line.
#[derive(Debug)]
pub enum SseLine {
    /// A blank line, a comment, or a non-data field: nothing to do.
    Ignored,

    /// The end-of-stream sentinel.
    Done,

    /// The payload of a data line, to be decoded as a chunk.
    Payload(String),
}

/// The mathematical classification of one server-sent-event line.
pub enum SseLineModel {
    /// A blank line, a comment, or a non-data field.
    Ignored,

    /// The end-of-stream sentinel.
    Done,

    /// The payload of a data line.
    Payload(Seq<char>),
}

impl View for SseLine {
    type V = SseLineModel;

    open spec fn view(&self) -> SseLineModel {
        match self {
            SseLine::Ignored => SseLineModel::Ignored,
            SseLine::Done => SseLineModel::Done,
            SseLine::Payload(s) => SseLineModel::Payload(s@),
        }
    }
}

/// The classification of one SSE line: blank lines and comments are
/// ignored; a data line is trimmed and is either the end-of-stream
/// sentinel or a payload; other field lines are ignored.
pub open spec fn spec_sse_line(line: Seq<char>) -> SseLineModel {
    let t = trim_seq(line);
    if t.len() == 0 || t[0] == ':' {
        SseLineModel::Ignored
    } else if t.len() >= "data: "@.len() && t.subrange(0, "data: "@.len() as int) == "data: "@ {
        let data = trim_seq(t.skip("data: "@.len() as int));
        if data == "[DONE]"@ {
            SseLineModel::Done
        } else {
            SseLineModel::Payload(data)
        }
    } else {
        SseLineModel::Ignored
    }
}

/// Classify one server-sent-event line: blank lines and comments are
/// ignored, a data line yields its trimmed payload or the end-of-stream
/// sentinel, and every other field type is ignored.
pub fn parse_sse_line(line: &str) -> (r: SseLine)
    ensures
        r@ == spec_sse_line(line@),
{
    let (from, to) = trim_bounds(line);
    let ghost t = trim_seq(line@);
    proof {
        assert(t == line@.subrange(from as int, to as int));
    }
    if to == from {
        return SseLine::Ignored;
    }
    let c0 = line.get_char(from);
    proof {
        assert(t[0] == line@[from as int]);
    }
    if c0 == ':' {
        return SseLine::Ignored;
    }
    proof {
        reveal_strlit("data: ");
    }
    if range_has_prefix(line, from, to, "data: ") {
        proof {
            assert(t.subrange(0, 6) =~= line@.subrange(from as int, from + 6));
            assert(t.skip(6) =~= line@.subrange(from + 6, to as int));
        }
        let data_all = line.substring_char(from + 6, to);
        let (df, dt) = trim_bounds(data_all);
        let data = data_all.substring_char(df, dt).to_owned();
        proof {
            assert(data@ == trim_seq(t.skip(6)));
        }
        if str_eq(data.as_str(), "[DONE]") {
            SseLine::Done
        } else {
            SseLine::Payload(data)
        }
    } else {
        proof {
            if t.len() >= 6 {
                assert(t.subrange(0, 6) =~= line@.subrange(from as int, from + 6));
            }
        }
        SseLine::Ignored
    }
}

/// The lines joined back together, each with its terminating newline.
pub open spec fn lines_join(ls: Seq<String>) -> Seq<char>
    decreases ls.len(),
{
    if ls.len() == 0 {
        Seq::empty()
    } else {
        lines_join(ls.drop_last()) + ls.last()@ + seq!['\n']
    }
}

/// A buffer that cuts a byte stream's text into complete lines at
/// newline boundaries, keeping the unterminated tail for the next
/// piece of text.
#[derive(Debug)]
pub struct SseLineBuffer {
    /// Text received but not yet terminated by a newline.
    pub buf: String,
}

impl SseLineBuffer {
    /// An empty buffer.
    pub fn new() -> (r: SseLineBuffer)
        ensures
            r.buf@ == Seq::<char>::empty(),
    {
        SseLineBuffer { buf: String::new() }
    }

    /// Feed more text: the complete lines it closes come out in order,
    /// each without its newline; the unterminated tail stays buffered.
    /// Joining the lines (with newlines) and the tail reproduces the
    /// buffered text followed by `chunk`, and neither the lines nor the
    /// tail contain a newline.
    pub fn push_text(&mut self, chunk: &str) -> (lines: Vec<String>)
        ensures
            lines_join(lines@) + final(self).buf@ == old(self).buf@ + chunk@,
            forall|j: int| 0 <= j < lines@.len() ==> !contains_char(#[trigger] lines@[j]@, '\n'),
            !contains_char(final(self).buf@, '\n'),
    {
        let ghost total = old(self).buf@ + chunk@;
        self.buf.append(chunk);
        let mut out: Vec<String> = Vec::new();
        proof {
            assert(lines_join(out@) + self.buf@ =~= total);
        }
        loop
            invariant
                lines_join(out@) + self.buf@ == total,
                forall|j: int| 0 <= j < out@.len() ==> !contains_char(#[trigger] out@[j]@, '\n'),
            ensures
                lines_join(out@) + self.buf@ == total,
                forall|j: int| 0 <= j < out@.len() ==> !contains_char(#[trigger] out@[j]@, '\n'),
                !contains_char(self.buf@, '\n'),
            decreases self.buf@.len(),
        {
            let n = self.buf.as_str().unicode_len();
            let mut k: usize = 0;
            let mut found = false;
            while k < n && !found
                invariant
                    n == self.buf@.len(),
                    k <= n,
                    found ==> k < n && self.buf@[k as int] == '\n',
                    forall|l: int| 0 <= l < k ==> self.buf@[l] != '\n',
                decreases n - k + (if found {
                    0int
                } else {
                    1int
                }),
            {
                if self.buf.as_str().get_char(k) == '\n' {
                    found = true;
                } else {
                    k += 1;
                }
            }
            if !found {
                proof {
                    assert(!contains_char(self.buf@, '\n'));
                }
                break ;
            }
            let ghost pre = self.buf@;
            let ghost out_pre = out@;
            let line = self.buf.as_str().substring_char(0, k).to_owned();
            let rest = self.buf.as_str().substring_char(k + 1, n).to_owned();
            self.buf = rest;
            out.push(line);
            proof {
                assert(out@.drop_last() =~= out_pre);
                assert(out@.last() == line);
                assert(lines_join(out@) =~= lines_join(out_pre) + line@ + seq!['\n']);
                assert(line@ + seq!['\n'] + self.buf@ =~= pre);
                assert(lines_join(out@) + self.buf@ =~= lines_join(out_pre) + pre);
                assert(lines_join(out_pre) + pre =~= total);
                assert forall|j: int| 0 <= j < out@.len() implies !contains_char(
                    #[trigger] out@[j]@,
                    '\n',
                ) by {
                    if j < out_pre.len() {
                        assert(out@[j] == out_pre[j]);
                    } else {
                        assert(out@[j] == line);
                        assert forall|l: int| 0 <= l < line@.len() implies line@[l] != '\n' by {
                            assert(line@[l] == pre[l]);
                        }
                    }
                }
            }
        }
        out
    }

    /// Take the unterminated tail out of the buffer, leaving it empty.
    pub fn take_rest(&mut self) -> (r: String)
        ensures
            r@ == old(self).buf@,
            final(self).buf@ == Seq::<char>::empty(),
    {
        let r = self.buf.clone();
        self.buf = String::new();
        r
    }
}

} // verus!
