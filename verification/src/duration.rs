//! Parsing of duration strings such as "30s", "5m", "1h", "1m30s" or
//! "500ms" into milliseconds.

use crate::text::{
    all_digits, digits_val, is_digit, is_digit_exec, parse_u64_range, parse_u64_seq, trim_bounds,
    trim_seq,
};
use vstd::prelude::*;
use vstd::string::StrSliceExecFns;

verus! {

/// Whether `c` occurs in `s`.
pub open spec fn contains_char(s: Seq<char>, c: char) -> bool {
    exists|k: int| 0 <= k < s.len() && s[k] == c
}

/// The number of seconds one unit letter stands for; letters other than
/// 'h', 'm' and 's' contribute nothing.
pub open spec fn unit_secs(c: char) -> int {
    if c == 'h' {
        3600
    } else if c == 'm' {
        60
    } else if c == 's' {
        1
    } else {
        0
    }
}

/// The scanning state after the first `i` characters of a compound
/// duration string: the seconds accumulated so far, and the digit run
/// currently being read.
pub open spec fn comp_state(s: Seq<char>, i: int) -> (int, Seq<char>)
    decreases i,
{
    if i <= 0 {
        (0, Seq::empty())
    } else {
        let prev = comp_state(s, i - 1);
        let c = s[i - 1];
        if is_digit(c) {
            (prev.0, prev.1.push(c))
        } else if prev.1.len() > 0 {
            let term = if digits_val(prev.1) <= u64::MAX {
                digits_val(prev.1) * unit_secs(c)
            } else {
                0
            };
            (prev.0 + term, Seq::empty())
        } else {
            (prev.0, Seq::empty())
        }
    }
}

/// The seconds denoted by a compound duration string such as "1m30s":
/// each digit run followed by a unit letter contributes; a trailing run
/// without a unit is discarded.
pub open spec fn compound_secs(s: Seq<char>) -> int {
    comp_state(s, s.len() as int).0
}

/// `x` clamped to the `u64` range.
pub open spec fn clamp_u64(x: int) -> u64 {
    if x > u64::MAX {
        u64::MAX
    } else {
        x as u64
    }
}

/// The milliseconds denoted by a duration string, after trimming
/// whitespace: a number with an "ms" suffix; or a compound string of
/// digit runs and 'h'/'m'/'s' unit letters; or a plain number suffixed
/// by a single unit letter. Anything else denotes nothing.
pub open spec fn spec_parse_duration_ms(s: Seq<char>) -> Option<u64> {
    let t = trim_seq(s);
    if t.len() >= 2 && t[t.len() - 2] == 'm' && t[t.len() - 1] == 's' {
        parse_u64_seq(t.subrange(0, t.len() - 2))
    } else if (contains_char(t, 'h') || (contains_char(t, 'm') && contains_char(t, 's')))
        && compound_secs(t) > 0 {
        Some(clamp_u64(compound_secs(t) * 1000))
    } else if t.len() >= 1 && t[t.len() - 1] == 's' {
        match parse_u64_seq(t.drop_last()) {
            Some(v) => Some(clamp_u64(v * 1000)),
            None => None,
        }
    } else if t.len() >= 1 && t[t.len() - 1] == 'm' {
        match parse_u64_seq(t.drop_last()) {
            Some(v) => Some(clamp_u64(v * 60000)),
            None => None,
        }
    } else if t.len() >= 1 && t[t.len() - 1] == 'h' {
        match parse_u64_seq(t.drop_last()) {
            Some(v) => Some(clamp_u64(v * 3600000)),
            None => None,
        }
    } else {
        None
    }
}

/// Whether `c` occurs in the character range `from..to` of `s`.
fn range_contains_char(s: &str, from: usize, to: usize, c: char) -> (r: bool)
    requires
        from <= to <= s@.len(),
    ensures
        r == contains_char(s@.subrange(from as int, to as int), c),
{
    let ghost t = s@.subrange(from as int, to as int);
    let mut i = from;
    while i < to
        invariant
            from <= i <= to <= s@.len(),
            t == s@.subrange(from as int, to as int),
            forall|k: int| 0 <= k < i - from ==> t[k] != c,
        decreases to - i,
    {
        if s.get_char(i) == c {
            assert(t[i - from] == c);
            return true;
        }
        i += 1;
    }
    false
}

proof fn lemma_comp_nonneg(s: Seq<char>, i: int)
    ensures
        comp_state(s, i).0 >= 0,
        all_digits(comp_state(s, i).1),
    decreases i,
{
    if i > 0 {
        lemma_comp_nonneg(s, i - 1);
        let prev = comp_state(s, i - 1);
        let c = s[i - 1];
        if is_digit(c) {
            assert forall|k: int| 0 <= k < prev.1.push(c).len() implies is_digit(
                prev.1.push(c)[k],
            ) by {
                if k < prev.1.len() {
                    assert(prev.1.push(c)[k] == prev.1[k]);
                }
            }
        } else if prev.1.len() > 0 {
            crate::text::lemma_digits_val_nonneg(prev.1);
        }
    }
}

/// Parse a duration string like "1m30s", "2h", "45s" or "500ms" into
/// milliseconds.
pub fn parse_duration_string(s: &str) -> (r: Option<u64>)
    ensures
        r == spec_parse_duration_ms(s@),
{
    let (from, to) = trim_bounds(s);
    let ghost t = trim_seq(s@);
    proof {
        assert(t == s@.subrange(from as int, to as int));
    }
    // "ms" suffix: a number of milliseconds
    if to - from >= 2 && s.get_char(to - 2) == 'm' && s.get_char(to - 1) == 's' {
        proof {
            assert(t[t.len() - 2] == s@[to - 2]);
            assert(t[t.len() - 1] == s@[to - 1]);
            assert(t.subrange(0, t.len() - 2) =~= s@.subrange(from as int, to - 2));
        }
        return parse_u64_range(s, from, to - 2);
    }
    proof {
        if t.len() >= 2 {
            assert(t[t.len() - 2] == s@[to - 2]);
            assert(t[t.len() - 1] == s@[to - 1]);
        }
    }
    // compound format such as "1m30s" or "2h30m"
    let has_h = range_contains_char(s, from, to, 'h');
    let has_m = range_contains_char(s, from, to, 'm');
    let has_s = range_contains_char(s, from, to, 's');
    if has_h || (has_m && has_s) {
        let mut total: u64 = 0;
        let mut has_run = false;
        let mut run_start: usize = from;
        let mut i = from;
        while i < to
            invariant
                from <= i <= to <= s@.len(),
                t == s@.subrange(from as int, to as int),
                has_run ==> from <= run_start < i,
                has_run ==> comp_state(t, i - from).1 == s@.subrange(run_start as int, i as int),
                !has_run ==> comp_state(t, i - from).1 == Seq::<char>::empty(),
                total == clamp_u64(comp_state(t, i - from).0),
            decreases to - i,
        {
            let ghost prev = comp_state(t, i - from);
            proof {
                lemma_comp_nonneg(t, i - from);
                lemma_comp_nonneg(t, i - from + 1);
                assert(t[i - from] == s@[i as int]);
            }
            let c = s.get_char(i);
            if is_digit_exec(c) {
                if !has_run {
                    has_run = true;
                    run_start = i;
                }
                proof {
                    assert(comp_state(t, i - from + 1).1 == prev.1.push(c));
                    assert(prev.1.push(c) =~= s@.subrange(run_start as int, i + 1));
                    assert(comp_state(t, i - from + 1).0 == prev.0);
                }
            } else {
                if has_run {
                    let parsed = parse_u64_range(s, run_start, i);
                    proof {
                        assert(s@.subrange(run_start as int, i as int) == prev.1);
                    }
                    let unit: u64 = if c == 'h' {
                        3600
                    } else if c == 'm' {
                        60
                    } else if c == 's' {
                        1
                    } else {
                        0
                    };
                    assert(unit == unit_secs(c));
                    let term: u64 = match parsed {
                        Some(v) => v.checked_mul(unit).unwrap_or(u64::MAX),
                        None => 0,
                    };
                    let ghost term_math: int = if digits_val(prev.1) <= u64::MAX {
                        digits_val(prev.1) * unit_secs(c)
                    } else {
                        0
                    };
                    proof {
                        crate::text::lemma_digits_val_nonneg(prev.1);
                        assert(term == clamp_u64(term_math));
                        assert(comp_state(t, i - from + 1).0 == prev.0 + term_math);
                    }
                    let old_total = total;
                    total = total.saturating_add(term);
                    proof {
                        assert(total == clamp_u64(prev.0 + term_math)) by (nonlinear_arith)
                            requires
                                old_total == clamp_u64(prev.0),
                                term == clamp_u64(term_math),
                                total == if old_total + term > u64::MAX {
                                    u64::MAX
                                } else {
                                    (old_total + term) as u64
                                },
                                prev.0 >= 0,
                                term_math >= 0,
                        ;
                    }
                    has_run = false;
                } else {
                    proof {
                        assert(comp_state(t, i - from + 1).0 == prev.0);
                        assert(comp_state(t, i - from + 1).1 == Seq::<char>::empty());
                    }
                }
            }
            i += 1;
        }
        proof {
            assert(comp_state(t, t.len() as int) == comp_state(t, i - from));
        }
        if total > 0 {
            proof {
                lemma_comp_nonneg(t, t.len() as int);
                assert(compound_secs(t) > 0);
            }
            let ms = scale_clamped(total, 1000);
            proof {
                assert(ms == clamp_u64(compound_secs(t) * 1000)) by (nonlinear_arith)
                    requires
                        total == clamp_u64(compound_secs(t)),
                        compound_secs(t) > 0,
                        ms == if total * 1000 > u64::MAX {
                            u64::MAX
                        } else {
                            (total * 1000) as u64
                        },
                ;
            }
            return Some(ms);
        }
        proof {
            assert(compound_secs(t) <= 0 || clamp_u64(compound_secs(t)) > 0);
        }
    }
    // a plain number with a single trailing unit letter
    if to - from >= 1 {
        let last = s.get_char(to - 1);
        proof {
            assert(t[t.len() - 1] == s@[to - 1]);
            assert(t.drop_last() =~= s@.subrange(from as int, to - 1));
        }
        if last == 's' {
            let parsed = parse_u64_range(s, from, to - 1);
            return match parsed {
                Some(v) => Some(scale_clamped(v, 1000)),
                None => None,
            };
        }
        if last == 'm' {
            let parsed = parse_u64_range(s, from, to - 1);
            return match parsed {
                Some(v) => Some(scale_clamped(v, 60000)),
                None => None,
            };
        }
        if last == 'h' {
            let parsed = parse_u64_range(s, from, to - 1);
            return match parsed {
                Some(v) => Some(scale_clamped(v, 3600000)),
                None => None,
            };
        }
    }
    None
}

/// `v * k` clamped to the `u64` range.
fn scale_clamped(v: u64, k: u64) -> (r: u64)
    ensures
        r == clamp_u64(v * k),
{
    let r = v.checked_mul(k).unwrap_or(u64::MAX);
    proof {
        assert(r == clamp_u64(v * k));
    }
    r
}

} // verus!
