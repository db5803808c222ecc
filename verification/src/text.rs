//! Character-level text helpers shared by the parsers: ASCII
//! case-insensitive search, whitespace trimming, prefix and suffix tests,
//! and decimal number parsing.

use vstd::arithmetic::div_mod::lemma_fundamental_div_mod;
use vstd::prelude::*;
use vstd::string::StrSliceExecFns;

verus! {

/// The ASCII-lower-cased code point of a character: 'A'..'Z' shift to
/// 'a'..'z'; every other character keeps its code point.
pub open spec fn lower_code(c: char) -> u32 {
    if 65 <= c as u32 && c as u32 <= 90 {
        (c as u32 + 32) as u32
    } else {
        c as u32
    }
}

/// Whether `needle` occurs in `hay` at position `i`, compared ASCII
/// case-insensitively.
pub open spec fn matches_ci_at(hay: Seq<char>, needle: Seq<char>, i: int) -> bool {
    &&& 0 <= i
    &&& i + needle.len() <= hay.len()
    &&& forall|j: int| 0 <= j < needle.len() ==> lower_code(hay[i + j]) == lower_code(needle[j])
}

/// Whether `needle` occurs anywhere in `hay`, compared ASCII
/// case-insensitively.
pub open spec fn contains_ci(hay: Seq<char>, needle: Seq<char>) -> bool {
    exists|i: int| matches_ci_at(hay, needle, i)
}

/// ASCII case-insensitive equality of two characters.
fn chars_eq_ci(a: char, b: char) -> (r: bool)
    ensures
        r == (lower_code(a) == lower_code(b)),
{
    let au = a as u32;
    let bu = b as u32;
    let al: u32 = if 65 <= au && au <= 90 { au + 32 } else { au };
    let bl: u32 = if 65 <= bu && bu <= 90 { bu + 32 } else { bu };
    al == bl
}

/// ASCII case-insensitive substring search.
pub fn contains_ascii_ci(hay: &str, needle: &str) -> (r: bool)
    ensures
        r == contains_ci(hay@, needle@),
{
    let h = hay.unicode_len();
    let n = needle.unicode_len();
    if n > h {
        assert(forall|i: int| !matches_ci_at(hay@, needle@, i));
        return false;
    }
    let mut i: usize = 0;
    while i <= h - n
        invariant
            h == hay@.len(),
            n == needle@.len(),
            n <= h,
            i <= h - n + 1,
            forall|k: int| 0 <= k < i ==> !matches_ci_at(hay@, needle@, k),
        decreases h - n - i + 1,
    {
        let mut j: usize = 0;
        let mut hit = true;
        while j < n
            invariant
                h == hay@.len(),
                n == needle@.len(),
                n <= h,
                i <= h - n,
                j <= n,
                hit ==> forall|l: int|
                    0 <= l < j ==> lower_code(hay@[i + l]) == lower_code(needle@[l]),
                !hit ==> !matches_ci_at(hay@, needle@, i as int),
            decreases n - j,
        {
            if hit {
                let hc = hay.get_char(i + j);
                let nc = needle.get_char(j);
                if !chars_eq_ci(hc, nc) {
                    hit = false;
                }
            }
            j += 1;
        }
        if hit {
            assert(matches_ci_at(hay@, needle@, i as int));
            return true;
        }
        i += 1;
    }
    assert forall|k: int| !matches_ci_at(hay@, needle@, k) by {
        if 0 <= k && k + needle@.len() <= hay@.len() {
            assert(k < i);
        }
    }
    false
}

/// The whitespace characters recognised by the trimming helpers.
pub open spec fn is_space(c: char) -> bool {
    c == ' ' || c == '\t' || c == '\r' || c == '\n'
}

/// `s` with leading whitespace removed.
pub open spec fn trim_start_seq(s: Seq<char>) -> Seq<char>
    decreases s.len(),
{
    if s.len() > 0 && is_space(s[0]) {
        trim_start_seq(s.drop_first())
    } else {
        s
    }
}

/// `s` with trailing whitespace removed.
pub open spec fn trim_end_seq(s: Seq<char>) -> Seq<char>
    decreases s.len(),
{
    if s.len() > 0 && is_space(s[s.len() - 1]) {
        trim_end_seq(s.drop_last())
    } else {
        s
    }
}

/// `s` with whitespace removed from both ends.
pub open spec fn trim_seq(s: Seq<char>) -> Seq<char> {
    trim_end_seq(trim_start_seq(s))
}

proof fn lemma_trim_start_skip(s: Seq<char>, i: int)
    requires
        0 <= i <= s.len(),
        forall|k: int| 0 <= k < i ==> is_space(s[k]),
    ensures
        trim_start_seq(s) == trim_start_seq(s.subrange(i, s.len() as int)),
    decreases i,
{
    if i > 0 {
        assert(is_space(s[0]));
        assert(s.drop_first() =~= s.subrange(1, s.len() as int));
        lemma_trim_start_skip(s.drop_first(), i - 1);
        assert(s.drop_first().subrange(i - 1, s.drop_first().len() as int) =~= s.subrange(
            i,
            s.len() as int,
        ));
    } else {
        assert(s.subrange(0, s.len() as int) =~= s);
    }
}

proof fn lemma_trim_end_skip(s: Seq<char>, i: int)
    requires
        0 <= i <= s.len(),
        forall|k: int| i <= k < s.len() ==> is_space(s[k]),
    ensures
        trim_end_seq(s) == trim_end_seq(s.subrange(0, i)),
    decreases s.len() - i,
{
    if i < s.len() {
        assert(is_space(s[s.len() - 1]));
        lemma_trim_end_skip(s.drop_last(), i);
        assert(s.drop_last().subrange(0, i) =~= s.subrange(0, i));
    } else {
        assert(s.subrange(0, s.len() as int) =~= s);
    }
}

/// The bounds of `s` with surrounding whitespace stripped: the characters
/// at positions `from..to` are exactly `trim_seq(s@)`.
pub fn trim_bounds(s: &str) -> (r: (usize, usize))
    ensures
        r.0 <= r.1 <= s@.len(),
        s@.subrange(r.0 as int, r.1 as int) == trim_seq(s@),
{
    let n = s.unicode_len();
    let mut from: usize = 0;
    while from < n && is_space_exec(s.get_char(from))
        invariant
            n == s@.len(),
            from <= n,
            forall|k: int| 0 <= k < from ==> is_space(s@[k]),
        decreases n - from,
    {
        from += 1;
    }
    proof {
        lemma_trim_start_skip(s@, from as int);
        if from < n {
            assert(!is_space(s@.subrange(from as int, n as int)[0]));
        }
        assert(trim_start_seq(s@) == s@.subrange(from as int, n as int));
    }
    let mut to: usize = n;
    while to > from && is_space_exec(s.get_char(to - 1))
        invariant
            n == s@.len(),
            from <= to <= n,
            forall|k: int| to <= k < n ==> is_space(s@[k]),
        decreases to,
    {
        to -= 1;
    }
    proof {
        let t = s@.subrange(from as int, n as int);
        lemma_trim_end_skip(t, to - from);
        assert(t.subrange(0, to - from) =~= s@.subrange(from as int, to as int));
        if to > from {
            assert(!is_space(t[to - from - 1]));
        }
        assert(trim_end_seq(t) == s@.subrange(from as int, to as int));
    }
    (from, to)
}

/// Executable form of `is_space`.
pub fn is_space_exec(c: char) -> (r: bool)
    ensures
        r == is_space(c),
{
    c == ' ' || c == '\t' || c == '\r' || c == '\n'
}

/// Prefix test on a character range of `s`.
pub fn range_has_prefix(s: &str, from: usize, to: usize, p: &str) -> (r: bool)
    requires
        from <= to <= s@.len(),
    ensures
        r == (to - from >= p@.len() && s@.subrange(from as int, from + p@.len() as int) == p@),
{
    let n = p.unicode_len();
    if to - from < n {
        return false;
    }
    let mut j: usize = 0;
    while j < n
        invariant
            n == p@.len(),
            from <= to <= s@.len(),
            n <= to - from,
            j <= n,
            forall|l: int| 0 <= l < j ==> s@[from + l] == p@[l],
        decreases n - j,
    {
        if s.get_char(from + j) != p.get_char(j) {
            assert(s@[from + j] != p@[j as int]);
            assert(s@.subrange(from as int, from + p@.len() as int)[j as int] != p@[j as int]);
            return false;
        }
        j += 1;
    }
    assert(s@.subrange(from as int, from + p@.len() as int) =~= p@);
    true
}

/// Equality of a character range of `s` with the whole of `p`.
pub fn range_eq_str(s: &str, from: usize, to: usize, p: &str) -> (r: bool)
    requires
        from <= to <= s@.len(),
    ensures
        r == (s@.subrange(from as int, to as int) == p@),
{
    let n = p.unicode_len();
    if to - from != n {
        assert(s@.subrange(from as int, to as int).len() != p@.len());
        return false;
    }
    let eq = range_has_prefix(s, from, to, p);
    proof {
        if eq {
            assert(s@.subrange(from as int, to as int) =~= s@.subrange(
                from as int,
                from + p@.len() as int,
            ));
        } else {
            assert(s@.subrange(from as int, from + p@.len() as int) =~= s@.subrange(
                from as int,
                to as int,
            ));
        }
    }
    eq
}

/// ASCII case-insensitive equality of two character sequences.
pub open spec fn seq_eq_ci(a: Seq<char>, b: Seq<char>) -> bool {
    a.len() == b.len() && forall|j: int| 0 <= j < a.len() ==> lower_code(a[j]) == lower_code(b[j])
}

/// ASCII case-insensitive equality of two string slices.
pub fn str_eq_ci(a: &str, b: &str) -> (r: bool)
    ensures
        r == seq_eq_ci(a@, b@),
{
    let n = a.unicode_len();
    if n != b.unicode_len() {
        return false;
    }
    let mut j: usize = 0;
    while j < n
        invariant
            n == a@.len(),
            n == b@.len(),
            j <= n,
            forall|l: int| 0 <= l < j ==> lower_code(a@[l]) == lower_code(b@[l]),
        decreases n - j,
    {
        if !chars_eq_ci(a.get_char(j), b.get_char(j)) {
            return false;
        }
        j += 1;
    }
    true
}

/// Parse a whole string slice as a decimal `u64`.
pub fn parse_u64_str(s: &str) -> (r: Option<u64>)
    ensures
        r == parse_u64_seq(s@),
{
    let n = s.unicode_len();
    let r = parse_u64_range(s, 0, n);
    proof {
        assert(s@.subrange(0, n as int) =~= s@);
    }
    r
}

/// Equality of two string slices, character by character.
pub fn str_eq(a: &str, b: &str) -> (r: bool)
    ensures
        r == (a@ == b@),
{
    let n = a.unicode_len();
    let r = range_eq_str(a, 0, n, b);
    proof {
        assert(a@.subrange(0, n as int) =~= a@);
    }
    r
}

/// Whether `c` is an ASCII decimal digit.
pub open spec fn is_digit(c: char) -> bool {
    48 <= c as u32 <= 57
}

/// The numeric value of an ASCII digit.
pub open spec fn digit_val(c: char) -> int {
    c as u32 - 48
}

/// Whether every character of `s` is an ASCII digit.
pub open spec fn all_digits(s: Seq<char>) -> bool {
    forall|k: int| 0 <= k < s.len() ==> is_digit(s[k])
}

/// The value of a sequence of ASCII digits read as a decimal number.
pub open spec fn digits_val(s: Seq<char>) -> int
    decreases s.len(),
{
    if s.len() == 0 {
        0
    } else {
        digits_val(s.drop_last()) * 10 + digit_val(s.last())
    }
}

/// The number denoted by `s` in decimal: present exactly when `s` is
/// non-empty, all digits, and the value fits in a `u64`.
pub open spec fn parse_u64_seq(s: Seq<char>) -> Option<u64> {
    if s.len() > 0 && all_digits(s) && digits_val(s) <= u64::MAX {
        Some(digits_val(s) as u64)
    } else {
        None
    }
}

/// Executable form of `is_digit`.
pub fn is_digit_exec(c: char) -> (r: bool)
    ensures
        r == is_digit(c),
{
    let u = c as u32;
    48 <= u && u <= 57
}

pub proof fn lemma_digits_val_nonneg(s: Seq<char>)
    requires
        all_digits(s),
    ensures
        digits_val(s) >= 0,
    decreases s.len(),
{
    if s.len() > 0 {
        assert(all_digits(s.drop_last()));
        lemma_digits_val_nonneg(s.drop_last());
    }
}

/// Parse the character range `from..to` of `s` as a decimal `u64`.
pub fn parse_u64_range(s: &str, from: usize, to: usize) -> (r: Option<u64>)
    requires
        from <= to <= s@.len(),
    ensures
        r == parse_u64_seq(s@.subrange(from as int, to as int)),
{
    let ghost whole = s@.subrange(from as int, to as int);
    if from == to {
        assert(whole.len() == 0);
        return None;
    }
    let mut val: u64 = 0;
    let mut over = false;
    let mut i: usize = from;
    while i < to
        invariant
            from <= i <= to <= s@.len(),
            whole == s@.subrange(from as int, to as int),
            all_digits(s@.subrange(from as int, i as int)),
            !over ==> val == digits_val(s@.subrange(from as int, i as int)),
            over ==> digits_val(s@.subrange(from as int, i as int)) > u64::MAX,
        decreases to - i,
    {
        let ghost pre = s@.subrange(from as int, i as int);
        let c = s.get_char(i);
        if !is_digit_exec(c) {
            assert(whole[i - from] == s@[i as int]);
            return None;
        }
        let d: u64 = (c as u32 - 48) as u64;
        proof {
            let ext = s@.subrange(from as int, i + 1);
            assert(ext =~= pre.push(s@[i as int]));
            assert(ext.drop_last() =~= pre);
            assert(ext.last() == s@[i as int]);
            assert(digits_val(ext) == digits_val(pre) * 10 + digit_val(s@[i as int]));
            assert forall|k: int| 0 <= k < ext.len() implies is_digit(ext[k]) by {
                if k < pre.len() {
                    assert(ext[k] == pre[k]);
                } else {
                    assert(ext[k] == s@[i as int]);
                }
            }
        }
        if over {
            proof {
                lemma_digits_val_nonneg(pre);
            }
        } else {
            if val > u64::MAX / 10 {
                over = true;
                proof {
                    assert(digits_val(pre) * 10 > (u64::MAX / 10) * 10 + 9) by (nonlinear_arith)
                        requires
                            digits_val(pre) == val,
                            val > u64::MAX / 10,
                    ;
                }
            } else {
                let v10 = val * 10;
                if d > u64::MAX - v10 {
                    over = true;
                } else {
                    val = v10 + d;
                }
            }
        }
        i += 1;
    }
    assert(s@.subrange(from as int, i as int) =~= whole);
    if over {
        None
    } else {
        Some(val)
    }
}

/// Relies on String::push: appends exactly one character.
#[verifier::external_body]
pub(crate) fn push_char(s: &mut String, c: char)
    ensures
        final(s)@ == old(s)@ + seq![c],
{
    s.push(c);
}

/// Ten to the power `j`.
pub open spec fn pow10(j: nat) -> int
    decreases j,
{
    if j == 0 {
        1
    } else {
        10 * pow10((j - 1) as nat)
    }
}

/// Render `n` in decimal: the result is non-empty, consists of digits,
/// denotes exactly `n`, and has no leading zero.
pub fn u64_to_string(n: u64) -> (r: String)
    ensures
        r@.len() >= 1,
        all_digits(r@),
        digits_val(r@) == n,
        r@.len() > 1 ==> r@[0] != '0',
{
    let mut s = String::new();
    if n == 0 {
        proof {
            reveal_strlit("0");
        }
        push_char(&mut s, '0');
        assert(s@ =~= seq!['0']);
        assert(s@.drop_last() =~= Seq::<char>::empty());
        assert(s@.last() == '0');
        assert(digit_val('0') == 0);
        assert(digits_val(s@) == digits_val(s@.drop_last()) * 10 + digit_val(s@.last()));
        assert(digits_val(Seq::<char>::empty()) == 0);
        return s;
    }
    let mut p: u64 = 1;
    let ghost mut j: nat = 0nat;
    while p <= n / 10
        invariant
            1 <= p <= n,
            n >= 1,
            p == pow10(j),
        decreases n - p,
    {
        p = p * 10;
        proof {
            j = j + 1;
        }
    }
    let mut m = n;
    while p >= 10
        invariant
            p >= 1,
            p == pow10(j),
            m < p * 10,
            n == digits_val(s@) * (p * 10) + m,
            all_digits(s@),
            leading_digit_nonzero(s@),
            s@.len() == 0 ==> m == n && p <= m,
        decreases p,
    {
        let ghost p_old: int = p as int;
        let ghost m_old: int = m as int;
        let ghost dv_pre: int = digits_val(s@);
        let d = m / p;
        proof {
            lemma_fundamental_div_mod(m as int, p as int);
            assert(d < 10) by (nonlinear_arith)
                requires
                    d == m_old / p_old,
                    m_old < p_old * 10,
                    p_old >= 1,
                    m_old >= 0,
            ;
            if s@.len() == 0 {
                assert(d >= 1) by (nonlinear_arith)
                    requires
                        d == m_old / p_old,
                        p_old <= m_old,
                        p_old >= 1,
                ;
            }
        }
        let c = ((48 + d as u32) as u8) as char;
        let ghost pre = s@;
        push_char(&mut s, c);
        proof {
            assert(s@.drop_last() =~= pre);
            assert(digits_val(s@) == dv_pre * 10 + digit_val(c));
            assert(digit_val(c) == d);
            assert forall|k: int| 0 <= k < s@.len() implies is_digit(s@[k]) by {
                if k < pre.len() {
                    assert(s@[k] == pre[k]);
                }
            }
            if pre.len() == 0 {
                assert(s@[0] == c);
            } else {
                assert(s@[0] == pre[0]);
            }
            if j == 0 {
                assert(false);
            }
            j = (j - 1) as nat;
            lemma_pow10_pos(j);
        }
        m = m % p;
        p = p / 10;
        proof {
            assert(p_old == 10 * pow10(j));
            assert(p == pow10(j)) by (nonlinear_arith)
                requires
                    p == p_old / 10,
                    p_old == 10 * pow10(j),
                    pow10(j) >= 1,
            ;
            assert(m_old == d * p_old + m);
            assert(n == digits_val(s@) * (p * 10) + m) by (nonlinear_arith)
                requires
                    n == dv_pre * (p_old * 10) + m_old,
                    digits_val(s@) == dv_pre * 10 + d,
                    m_old == d * p_old + m,
                    p_old == p * 10,
            ;
        }
    }
    proof {
        if j != 0 {
            lemma_pow10_pos((j - 1) as nat);
            assert(pow10(j) == 10 * pow10((j - 1) as nat));
            assert(false);
        }
    }
    assert(p == 1);
    assert(m < 10);
    let c = ((48 + m as u32) as u8) as char;
    let ghost pre = s@;
    push_char(&mut s, c);
    proof {
        assert(s@.drop_last() =~= pre);
        assert(digit_val(c) == m);
        assert(digits_val(s@) == digits_val(pre) * 10 + digit_val(c));
        assert(digits_val(s@) == n);
        assert forall|k: int| 0 <= k < s@.len() implies is_digit(s@[k]) by {
            if k < pre.len() {
                assert(s@[k] == pre[k]);
            }
        }
        if pre.len() > 0 {
            assert(s@[0] == pre[0]);
        }
    }
    s
}

/// The ASCII-upper-cased counterpart of a character: 'a'..'z' shift to
/// 'A'..'Z'; every other character is unchanged.
pub open spec fn upper_char(c: char) -> char {
    if 97 <= c as u32 && c as u32 <= 122 {
        ((c as u32 - 32) as u8) as char
    } else {
        c
    }
}

/// `s` with every ASCII letter upper-cased.
pub open spec fn upper_seq(s: Seq<char>) -> Seq<char> {
    Seq::new(s.len(), |i: int| upper_char(s[i]))
}

/// Upper-case the ASCII letters of `s`.
pub fn to_ascii_upper(s: &str) -> (r: String)
    ensures
        r@ == upper_seq(s@),
{
    let n = s.unicode_len();
    let mut r = String::new();
    let mut i: usize = 0;
    while i < n
        invariant
            i <= n,
            n == s@.len(),
            r@ == upper_seq(s@).subrange(0, i as int),
        decreases n - i,
    {
        let c = s.get_char(i);
        let u = c as u32;
        let up: char = if 97 <= u && u <= 122 {
            ((u - 32) as u8) as char
        } else {
            c
        };
        assert(up == upper_char(s@[i as int]));
        push_char(&mut r, up);
        proof {
            assert(r@ =~= upper_seq(s@).subrange(0, i + 1));
        }
        i += 1;
    }
    proof {
        assert(upper_seq(s@).subrange(0, n as int) =~= upper_seq(s@));
    }
    r
}

/// Whether the first character of `s` is not the digit zero.
pub open spec fn leading_digit_nonzero(s: Seq<char>) -> bool {
    s.len() > 0 ==> s[0] != '0'
}

proof fn lemma_pow10_pos(j: nat)
    ensures
        pow10(j) >= 1,
    decreases j,
{
    if j > 0 {
        lemma_pow10_pos((j - 1) as nat);
    }
}

} // verus!
