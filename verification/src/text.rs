//! Small text utilities shared by the string-parameter parsers: ASCII
//! trimming, ASCII case folding, and exact or case-insensitive comparison
//! of a string with a known name.

use vstd::prelude::*;

verus! {

/// ASCII whitespace, for trimming.
pub open spec fn is_ws_char(c: char) -> bool {
    c == ' ' || c == '\t' || c == '\n' || c == '\r'
}

/// First index holding a non-whitespace character, or the length.
pub open spec fn spec_trim_start(s: Seq<char>, i: int) -> int
    decreases s.len() - i,
    when 0 <= i <= s.len()
{
    if i >= s.len() {
        i
    } else if is_ws_char(s[i]) {
        spec_trim_start(s, i + 1)
    } else {
        i
    }
}

/// One past the last index holding a non-whitespace character, or 0.
pub open spec fn spec_trim_end(s: Seq<char>, i: int) -> int
    decreases i,
    when 0 <= i <= s.len()
{
    if i <= 0 {
        0
    } else if is_ws_char(s[i - 1]) {
        spec_trim_end(s, i - 1)
    } else {
        i
    }
}

/// The characters of `s` with ASCII whitespace removed from both ends.
pub open spec fn spec_trim(s: Seq<char>) -> Seq<char> {
    let a = spec_trim_start(s, 0);
    let b = spec_trim_end(s, s.len() as int);
    if a <= b {
        s.subrange(a, b)
    } else {
        Seq::empty()
    }
}

/// ASCII lower-casing of one character.
pub open spec fn char_lower(c: char) -> char {
    if 'A' <= c && c <= 'Z' {
        (((c as u8) + 32) as char)
    } else {
        c
    }
}

/// Case-insensitive equality of character sequences, ASCII-folded.
pub open spec fn seq_eq_ignore_case(a: Seq<char>, b: Seq<char>) -> bool {
    a.len() == b.len() && forall|i: int|
        0 <= i < a.len() ==> char_lower(a[i]) == char_lower(b[i])
}

/// `spec_trim_start` stays within bounds, skips only whitespace, and stops
/// on the first non-whitespace character.
pub proof fn lemma_trim_start_bounds(s: Seq<char>, i: int)
    requires
        0 <= i <= s.len(),
    ensures
        i <= spec_trim_start(s, i) <= s.len(),
        spec_trim_start(s, i) < s.len() ==> !is_ws_char(s[spec_trim_start(s, i)]),
        forall|k: int| i <= k < spec_trim_start(s, i) ==> is_ws_char(s[k]),
    decreases s.len() - i,
{
    if i < s.len() && is_ws_char(s[i]) {
        lemma_trim_start_bounds(s, i + 1);
    }
}

/// `spec_trim_end` stays within bounds, skips only whitespace, and stops
/// after the last non-whitespace character.
pub proof fn lemma_trim_end_bounds(s: Seq<char>, i: int)
    requires
        0 <= i <= s.len(),
    ensures
        0 <= spec_trim_end(s, i) <= i,
        spec_trim_end(s, i) > 0 ==> !is_ws_char(s[spec_trim_end(s, i) - 1]),
        forall|k: int| spec_trim_end(s, i) <= k < i ==> is_ws_char(s[k]),
    decreases i,
{
    if i > 0 && is_ws_char(s[i - 1]) {
        lemma_trim_end_bounds(s, i - 1);
    }
}

/// Compares `s`, trimmed of ASCII whitespace, with `lit`, ignoring ASCII
/// case.
pub fn trimmed_eq_ignore_case(s: &str, lit: &str) -> (r: bool)
    ensures
        r == seq_eq_ignore_case(spec_trim(s@), lit@),
{
    let n = s.unicode_len();
    let m = lit.unicode_len();
    let mut a: usize = 0;
    while a < n && is_ws_exec(s.get_char(a))
        invariant
            a <= n,
            n == s@.len(),
            spec_trim_start(s@, 0) == spec_trim_start(s@, a as int),
        decreases n - a,
    {
        a += 1;
    }
    proof {
        assert(spec_trim_start(s@, 0) == a as int);
        lemma_trim_start_bounds(s@, 0);
    }
    let mut b: usize = n;
    while b > a && is_ws_exec(s.get_char(b - 1))
        invariant
            a <= b <= n,
            n == s@.len(),
            a as int == spec_trim_start(s@, 0),
            a < n ==> !is_ws_char(s@[a as int]),
            a < n ==> b > a,
            spec_trim_end(s@, n as int) == spec_trim_end(s@, b as int),
        decreases b,
    {
        b -= 1;
    }
    let ghost t = spec_trim(s@);
    proof {
        lemma_trim_end_bounds(s@, n as int);
        if a < n {
            // the back scan stopped on a non-whitespace character
            assert(b > a);
            assert(!is_ws_char(s@[b - 1]));
            assert(spec_trim_end(s@, b as int) == b as int);
            assert(t =~= s@.subrange(a as int, b as int));
        } else {
            // the whole string is whitespace
            assert(b == a && a == n);
            assert(forall|k: int| 0 <= k < n ==> is_ws_char(s@[k]));
            let e = spec_trim_end(s@, n as int);
            assert(e == 0) by {
                if e > 0 {
                    assert(!is_ws_char(s@[e - 1]));
                }
            }
            if n == 0 {
                assert(t =~= Seq::<char>::empty());
            } else {
                assert(t =~= Seq::<char>::empty());
            }
        }
        assert(t.len() == b - a);
        assert(forall|k: int| 0 <= k < t.len() ==> t[k] == s@[a + k]);
    }
    let len = b - a;
    if len != m {
        return false;
    }
    let mut i: usize = 0;
    while i < len
        invariant
            i <= len,
            len == m,
            m == lit@.len(),
            n == s@.len(),
            a + len <= n,
            t == spec_trim(s@),
            t.len() == len,
            forall|k: int| 0 <= k < t.len() ==> t[k] == s@[a + k],
            forall|k: int| 0 <= k < i ==> char_lower(t[k]) == char_lower(lit@[k]),
        decreases len - i,
    {
        let cs = lower_exec(s.get_char(a + i));
        let cl = lower_exec(lit.get_char(i));
        if cs != cl {
            proof {
                assert(char_lower(t[i as int]) != char_lower(lit@[i as int]));
            }
            return false;
        }
        i += 1;
    }
    true
}

/// ASCII whitespace test on a character.
pub fn is_ws_exec(c: char) -> (r: bool)
    ensures
        r == is_ws_char(c),
{
    c == ' ' || c == '\t' || c == '\n' || c == '\r'
}

/// ASCII lower-casing of a character.
pub fn lower_exec(c: char) -> (r: char)
    ensures
        r == char_lower(c),
{
    if c >= 'A' && c <= 'Z' {
        (((c as u8) + 32) as char)
    } else {
        c
    }
}


/// Exact equality of a string with a known name.
pub fn str_eq(a: &str, b: &str) -> (r: bool)
    ensures
        r == (a@ == b@),
{
    let n = a.unicode_len();
    let m = b.unicode_len();
    if n != m {
        return false;
    }
    let mut i: usize = 0;
    while i < n
        invariant
            i <= n,
            n == a@.len(),
            n == b@.len(),
            forall|k: int| 0 <= k < i ==> a@[k] == b@[k],
        decreases n - i,
    {
        if a.get_char(i) != b.get_char(i) {
            return false;
        }
        i += 1;
    }
    proof {
        assert(a@ =~= b@);
    }
    true
}

/// Exact equality of the characters `s[from..to)` with a known name.
pub fn substr_eq(s: &str, from: usize, to: usize, lit: &str) -> (r: bool)
    requires
        from <= to <= s@.len(),
    ensures
        r == (s@.subrange(from as int, to as int) == lit@),
{
    let m = lit.unicode_len();
    if to - from != m {
        proof {
            assert(s@.subrange(from as int, to as int).len() != lit@.len());
        }
        return false;
    }
    let mut i: usize = 0;
    while i < m
        invariant
            i <= m,
            m == lit@.len(),
            from + m <= s@.len(),
            to == from + m,
            forall|k: int| 0 <= k < i ==> s@[from + k] == lit@[k],
        decreases m - i,
    {
        if s.get_char(from + i) != lit.get_char(i) {
            proof {
                assert(s@.subrange(from as int, to as int)[i as int] != lit@[i as int]);
            }
            return false;
        }
        i += 1;
    }
    proof {
        assert(s@.subrange(from as int, to as int) =~= lit@);
    }
    true
}

} // verus!
