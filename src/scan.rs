//! Byte-level helpers shared by the expression grammar and the literal decoder.
use vstd::prelude::*;

verus! {

/// The byte at `i` exists and is `c`.
pub open spec fn byte_at(s: Seq<u8>, i: int, c: u8) -> bool {
    0 <= i < s.len() && s[i] == c
}

pub open spec fn is_ws(b: u8) -> bool {
    b == 0x20 || b == 0x09 || b == 0x0d || b == 0x0a
}

pub open spec fn is_digit(b: u8) -> bool {
    0x30 <= b <= 0x39
}

/// First position at or after `p` that is not whitespace.
pub open spec fn skip_ws(s: Seq<u8>, p: int) -> int
    decreases s.len() - p,
{
    if 0 <= p < s.len() && is_ws(s[p]) {
        skip_ws(s, p + 1)
    } else {
        p
    }
}

/// End of the run of decimal digits that starts at `p`.
pub open spec fn digits_end(s: Seq<u8>, p: int) -> int
    decreases s.len() - p,
{
    if 0 <= p < s.len() && is_digit(s[p]) {
        digits_end(s, p + 1)
    } else {
        p
    }
}

pub proof fn lemma_skip_ws(s: Seq<u8>, p: int)
    ensures
        p <= skip_ws(s, p),
        0 <= p <= s.len() ==> skip_ws(s, p) <= s.len(),
    decreases s.len() - p,
{
    if 0 <= p < s.len() && is_ws(s[p]) {
        lemma_skip_ws(s, p + 1);
    }
}

pub proof fn lemma_digits_end(s: Seq<u8>, p: int)
    requires
        0 <= p <= s.len(),
    ensures
        p <= digits_end(s, p) <= s.len(),
    decreases s.len() - p,
{
    if p < s.len() && is_digit(s[p]) {
        lemma_digits_end(s, p + 1);
    }
}

/// A copy of the bytes from `a` to `b`.
pub fn copy_range(s: &[u8], a: usize, b: usize) -> (r: Vec<u8>)
    requires
        a <= b <= s@.len(),
    ensures
        r@ == s@.subrange(a as int, b as int),
{
    let mut r: Vec<u8> = Vec::new();
    let mut i: usize = a;
    while i < b
        invariant
            a <= i <= b <= s@.len(),
            r@ == s@.subrange(a as int, i as int),
        decreases b - i,
    {
        r.push(s[i]);
        i = i + 1;
        assert(r@ =~= s@.subrange(a as int, i as int));
    }
    r
}

pub fn byte_is(s: &[u8], i: usize, c: u8) -> (r: bool)
    ensures
        r == byte_at(s@, i as int, c),
{
    i < s.len() && s[i] == c
}

/// Whether the byte `k` places after `p` exists and is `c`.
pub fn byte_is_at(s: &[u8], p: usize, k: usize, c: u8) -> (r: bool)
    requires
        p <= s@.len(),
    ensures
        r == byte_at(s@, p + k, c),
{
    k < s.len() - p && s[p + k] == c
}

pub fn skip_whitespace(s: &[u8], p: usize) -> (r: usize)
    requires
        p <= s@.len(),
    ensures
        r == skip_ws(s@, p as int),
        p <= r <= s@.len(),
{
    let mut i: usize = p;
    while i < s.len() && (s[i] == 0x20 || s[i] == 0x09 || s[i] == 0x0d || s[i] == 0x0a)
        invariant
            p <= i <= s@.len(),
            skip_ws(s@, i as int) == skip_ws(s@, p as int),
        decreases s@.len() - i,
    {
        i = i + 1;
    }
    i
}

pub fn skip_digits(s: &[u8], p: usize) -> (r: usize)
    requires
        p <= s@.len(),
    ensures
        r == digits_end(s@, p as int),
        p <= r <= s@.len(),
{
    let mut i: usize = p;
    while i < s.len() && 0x30 <= s[i] && s[i] <= 0x39
        invariant
            p <= i <= s@.len(),
            digits_end(s@, i as int) == digits_end(s@, p as int),
        decreases s@.len() - i,
    {
        i = i + 1;
    }
    i
}

} // verus!
