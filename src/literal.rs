//! Quoted string literals: three quoting styles, Go-style escapes, decoded
//! to an exact byte sequence.
use vstd::prelude::*;
use crate::error::{error_at, ErrorKind, ParseError};
use crate::scan::byte_at;

verus! {

/// Value of a hexadecimal digit (which covers the octal and decimal ones);
/// 16 for any other byte.
pub open spec fn digit_value(b: u8) -> int {
    if 0x30 <= b <= 0x39 {
        b - 0x30
    } else if 0x61 <= b <= 0x66 {
        b - 0x61 + 10
    } else if 0x41 <= b <= 0x46 {
        b - 0x41 + 10
    } else {
        16
    }
}

/// The `n` bytes at `p` exist and are all digits of `radix`.
pub open spec fn radix_digits(s: Seq<u8>, p: int, n: nat, radix: int) -> bool {
    0 <= p && p + n <= s.len() && forall|i: int| p <= i < p + n ==> digit_value(#[trigger] s[i]) < radix
}

/// The number that the `n` digits at `p` spell in `radix`.
pub open spec fn radix_value(s: Seq<u8>, p: int, n: nat, radix: int) -> int
    decreases n,
{
    if n == 0 {
        0
    } else {
        radix_value(s, p, (n - 1) as nat, radix) * radix + digit_value(s[p + n - 1])
    }
}

pub open spec fn power(r: int, n: nat) -> int
    decreases n,
{
    if n == 0 {
        1
    } else {
        power(r, (n - 1) as nat) * r
    }
}

/// A Unicode scalar value: at most 0x10FFFF and not a surrogate.
pub open spec fn is_scalar(v: int) -> bool {
    0 <= v < 0xD800 || 0xE000 <= v <= 0x10FFFF
}

/// The UTF-8 encoding of the scalar value `v`.
pub open spec fn utf8_encode(v: int) -> Seq<u8> {
    if v < 0x80 {
        seq![v as u8]
    } else if v < 0x800 {
        seq![(0xC0 + v / 64) as u8, (0x80 + v % 64) as u8]
    } else if v < 0x10000 {
        seq![(0xE0 + v / 4096) as u8, (0x80 + (v / 64) % 64) as u8, (0x80 + v % 64) as u8]
    } else {
        seq![
            (0xF0 + v / 262144) as u8,
            (0x80 + (v / 4096) % 64) as u8,
            (0x80 + (v / 64) % 64) as u8,
            (0x80 + v % 64) as u8,
        ]
    }
}

/// The byte that a one-letter escape `\b` stands for, if `b` names one.
pub open spec fn simple_escape(b: u8) -> Option<u8> {
    if b == 0x61 {
        Some(0x07u8)
    } else if b == 0x62 {
        Some(0x08u8)
    } else if b == 0x66 {
        Some(0x0cu8)
    } else if b == 0x6e {
        Some(0x0au8)
    } else if b == 0x72 {
        Some(0x0du8)
    } else if b == 0x74 {
        Some(0x09u8)
    } else if b == 0x76 {
        Some(0x0bu8)
    } else if b == 0x5c || b == 0x27 || b == 0x22 {
        Some(b)
    } else {
        None
    }
}

/// A `\u` (4 digits) or `\U` (8 digits) escape whose letter stands at `c`.
pub open spec fn scalar_escape(s: Seq<u8>, c: int, n: nat) -> Result<(Seq<u8>, int), ParseError> {
    let v = radix_value(s, c + 1, n, 16);
    if is_scalar(v) {
        Ok((utf8_encode(v), c + 1 + n))
    } else {
        Err(error_at(c, ErrorKind::InvalidScalar))
    }
}

/// One escape sequence at `p`: the bytes it decodes to and the position after it.
pub open spec fn rune_spec(s: Seq<u8>, p: int) -> Result<(Seq<u8>, int), ParseError> {
    let c = p + 1;
    if !byte_at(s, p, 0x5c) {
        Err(error_at(p, ErrorKind::ExpectedBackslash))
    } else if c >= s.len() {
        Err(error_at(c, ErrorKind::UnknownEscape))
    } else if simple_escape(s[c]) is Some {
        Ok((seq![simple_escape(s[c])->0], c + 1))
    } else if radix_digits(s, c, 3, 8) && radix_value(s, c, 3, 8) < 256 {
        Ok((seq![radix_value(s, c, 3, 8) as u8], c + 3))
    } else if s[c] == 0x78 && radix_digits(s, c + 1, 2, 16) {
        Ok((seq![radix_value(s, c + 1, 2, 16) as u8], c + 3))
    } else if s[c] == 0x75 && radix_digits(s, c + 1, 4, 16) {
        scalar_escape(s, c, 4)
    } else if s[c] == 0x55 && radix_digits(s, c + 1, 8, 16) {
        scalar_escape(s, c, 8)
    } else {
        Err(error_at(c, ErrorKind::UnknownEscape))
    }
}

proof fn lemma_radix_bound(s: Seq<u8>, p: int, n: nat, radix: int)
    requires
        radix_digits(s, p, n, radix),
        2 <= radix <= 16,
    ensures
        0 <= radix_value(s, p, n, radix) < power(radix, n),
    decreases n,
{
    if n > 0 {
        let m = (n - 1) as nat;
        assert(radix_digits(s, p, m, radix));
        lemma_radix_bound(s, p, m, radix);
        let v = radix_value(s, p, m, radix);
        let d = digit_value(s[p + n - 1]);
        let q = power(radix, m);
        assert(0 <= d < radix);
        assert(v * radix + d < q * radix) by (nonlinear_arith)
            requires
                0 <= v < q,
                0 <= d < radix,
        ;
        assert(0 <= v * radix) by (nonlinear_arith)
            requires
                0 <= v,
                0 <= radix,
        ;
    }
}

proof fn lemma_power_bound(radix: int, n: nat)
    requires
        2 <= radix <= 16,
        n <= 8,
    ensures
        0 < power(radix, n) <= power(16, n),
        power(16, n) <= 0x1_0000_0000,
    decreases n,
{
    if n > 0 {
        let m = (n - 1) as nat;
        lemma_power_bound(radix, m);
        let a = power(radix, m);
        let b = power(16, m);
        assert(0 < a * radix <= b * 16) by (nonlinear_arith)
            requires
                0 < a <= b,
                2 <= radix <= 16,
        ;
    }
    reveal_with_fuel(power, 9);
    if n == 0 {
    } else if n == 1 {
    } else if n == 2 {
    } else if n == 3 {
    } else if n == 4 {
    } else if n == 5 {
    } else if n == 6 {
    } else if n == 7 {
    } else {
    }
}

/// Reads exactly `n` digits of `radix` at `p`.
fn fixed_radix(s: &[u8], p: usize, n: usize, radix: u32) -> (r: Option<u32>)
    requires
        n <= 8,
        radix == 8 || radix == 16,
    ensures
        r == (if radix_digits(s@, p as int, n as nat, radix as int) {
            Some(radix_value(s@, p as int, n as nat, radix as int) as u32)
        } else {
            None::<u32>
        }),
        r matches Some(v) ==> v == radix_value(s@, p as int, n as nat, radix as int),
{
    if n > s.len() || p > s.len() - n {
        return None;
    }
    let end: usize = p + n;
    let mut v: u64 = 0;
    let mut i: usize = 0;
    while i < n
        invariant
            end == p + n,
            n <= 8,
            radix == 8 || radix == 16,
            p + n <= s@.len(),
            i <= n,
            forall|k: int| p <= k < p + i ==> digit_value(#[trigger] s@[k]) < radix,
            v == radix_value(s@, p as int, i as nat, radix as int),
            v < power(radix as int, i as nat),
            power(radix as int, i as nat) <= 0x1_0000_0000,
        decreases n - i,
    {
        let b = s[p + i];
        let d: u64 = if 0x30 <= b && b <= 0x39 {
            (b - 0x30) as u64
        } else if 0x61 <= b && b <= 0x66 {
            (b - 0x61 + 10) as u64
        } else if 0x41 <= b && b <= 0x46 {
            (b - 0x41 + 10) as u64
        } else {
            16
        };
        if d >= radix as u64 {
            assert(!radix_digits(s@, p as int, n as nat, radix as int)) by {
                assert(digit_value(s@[p + i]) >= radix);
            }
            return None;
        }
        proof {
            lemma_power_bound(radix as int, (i + 1) as nat);
            let q = power(radix as int, i as nat);
            assert(v * radix + d < q * radix) by (nonlinear_arith)
                requires
                    v < q,
                    d < radix,
            ;
        }
        v = v * (radix as u64) + d;
        i = i + 1;
    }
    Some(v as u32)
}

/// The UTF-8 encoding of `n`, or `None` where `n` is no Unicode scalar value
/// (a surrogate, or above 0x10FFFF).
pub fn validate_unicode_scalar(n: u32) -> (r: Option<Vec<u8>>)
    ensures
        r is Some <==> is_scalar(n as int),
        r matches Some(b) ==> b@ == utf8_encode(n as int),
{
    if !(n < 0xD800 || (0xE000 <= n && n <= 0x10FFFF)) {
        return None;
    }
    let b = if n < 0x80 {
        vec![n as u8]
    } else if n < 0x800 {
        vec![(0xC0 + n / 64) as u8, (0x80 + n % 64) as u8]
    } else if n < 0x10000 {
        vec![(0xE0 + n / 4096) as u8, (0x80 + (n / 64) % 64) as u8, (0x80 + n % 64) as u8]
    } else {
        vec![
            (0xF0 + n / 262144) as u8,
            (0x80 + (n / 4096) % 64) as u8,
            (0x80 + (n / 64) % 64) as u8,
            (0x80 + n % 64) as u8,
        ]
    };
    assert(b@ =~= utf8_encode(n as int));
    Some(b)
}

/// Decodes the escape sequence at `p`, which must start with a backslash.
/// Returns the position after it and the bytes it stands for.
pub fn rune(s: &[u8], p: usize) -> (r: Result<(usize, Vec<u8>), ParseError>)
    requires
        p <= s@.len(),
    ensures
        match r {
            Ok((q, b)) => rune_spec(s@, p as int) == Ok::<(Seq<u8>, int), ParseError>((b@, q as int)),
            Err(e) => rune_spec(s@, p as int) == Err::<(Seq<u8>, int), ParseError>(e),
        },
        r matches Ok((q, _)) ==> p < q <= s@.len(),
{
    if !(p < s.len() && s[p] == 0x5c) {
        return Err(ParseError { position: p, kind: ErrorKind::ExpectedBackslash });
    }
    let c = p + 1;
    if c >= s.len() {
        return Err(ParseError { position: c, kind: ErrorKind::UnknownEscape });
    }
    let b = s[c];
    let simple: Option<u8> = if b == 0x61 {
        Some(0x07)
    } else if b == 0x62 {
        Some(0x08)
    } else if b == 0x66 {
        Some(0x0c)
    } else if b == 0x6e {
        Some(0x0a)
    } else if b == 0x72 {
        Some(0x0d)
    } else if b == 0x74 {
        Some(0x09)
    } else if b == 0x76 {
        Some(0x0b)
    } else if b == 0x5c || b == 0x27 || b == 0x22 {
        Some(b)
    } else {
        None
    };
    if let Some(x) = simple {
        let out = vec![x];
        assert(out@ =~= seq![simple_escape(s@[c as int])->0]);
        return Ok((c + 1, out));
    }
    if let Some(v) = fixed_radix(s, c, 3, 8) {
        if v < 256 {
            let out = vec![v as u8];
            assert(out@ =~= seq![radix_value(s@, c as int, 3, 8) as u8]);
            return Ok((c + 3, out));
        }
    }
    if b == 0x78 {
        if let Some(v) = fixed_radix(s, c + 1, 2, 16) {
            proof { lemma_radix_bound(s@, c + 1, 2, 16); lemma_power_bound(16, 2); reveal_with_fuel(power, 3); }
            let out = vec![v as u8];
            assert(out@ =~= seq![radix_value(s@, c + 1, 2, 16) as u8]);
            return Ok((c + 3, out));
        }
    }
    let width: usize = if b == 0x75 { 4 } else if b == 0x55 { 8 } else { 0 };
    if width > 0 {
        if let Some(v) = fixed_radix(s, c + 1, width, 16) {
            return match validate_unicode_scalar(v) {
                Some(bytes) => Ok((c + 1 + width, bytes)),
                None => Err(ParseError { position: c, kind: ErrorKind::InvalidScalar }),
            };
        }
    }
    Err(ParseError { position: c, kind: ErrorKind::UnknownEscape })
}

/// A byte that a literal delimited by `d` takes as it is: not the delimiter,
/// and, outside raw (backtick) literals, neither a backslash nor a newline.
pub open spec fn plain_byte(b: u8, d: u8) -> bool {
    b != d && (d == 0x60 || (b != 0x5c && b != 0x0a))
}

/// End of the run of plain bytes that starts at `p`.
pub open spec fn run_end(s: Seq<u8>, p: int, d: u8) -> int
    decreases s.len() - p,
{
    if 0 <= p < s.len() && plain_byte(s[p], d) {
        run_end(s, p + 1, d)
    } else {
        p
    }
}

/// The decoded content of a quoted literal from `p` on, and where it stops:
/// escapes and runs of plain bytes, in order, until neither can advance.
pub open spec fn content_spec(s: Seq<u8>, p: int, d: u8) -> (Seq<u8>, int)
    decreases s.len() - p,
{
    if 0 <= p < s.len() && s[p] == 0x5c {
        match rune_spec(s, p) {
            Ok((b, q)) => {
                let rest = content_spec(s, q, d);
                (b + rest.0, rest.1)
            },
            Err(_) => (Seq::empty(), p),
        }
    } else {
        let e = run_end(s, p, d);
        if 0 <= p < e <= s.len() {
            let rest = content_spec(s, e, d);
            (s.subrange(p, e) + rest.0, rest.1)
        } else {
            (Seq::empty(), p)
        }
    }
}

/// A whole string literal at the start of `s`: the position just past its
/// closing delimiter and its decoded bytes.
pub open spec fn string_spec(s: Seq<u8>) -> Result<(int, Seq<u8>), ParseError> {
    if s.len() == 0 {
        Err(error_at(0, ErrorKind::ExpectedQuote))
    } else if s[0] == 0x22 || s[0] == 0x27 {
        let d = s[0];
        let (c, e) = content_spec(s, 1, d);
        if byte_at(s, e, d) {
            Ok((e + 1, c))
        } else if byte_at(s, e, 0x5c) && rune_spec(s, e) is Err {
            Err(rune_spec(s, e)->Err_0)
        } else {
            Err(error_at(e, ErrorKind::ExpectedDelimiter(d)))
        }
    } else if s[0] == 0x60 {
        let e = run_end(s, 1, 0x60);
        if byte_at(s, e, 0x60) {
            Ok((e + 1, s.subrange(1, e)))
        } else {
            Err(error_at(e, ErrorKind::ExpectedDelimiter(0x60)))
        }
    } else {
        Err(error_at(0, ErrorKind::ExpectedQuote))
    }
}

proof fn lemma_run_end(s: Seq<u8>, p: int, d: u8)
    requires
        0 <= p <= s.len(),
    ensures
        p <= run_end(s, p, d) <= s.len(),
    decreases s.len() - p,
{
    if p < s.len() && plain_byte(s[p], d) {
        lemma_run_end(s, p + 1, d);
    }
}

/// Consumes the longest run of plain bytes at `p`, appending them to `out`
/// unchanged; returns where the run ends.
fn literal_run(s: &[u8], p: usize, d: u8, out: &mut Vec<u8>) -> (r: usize)
    requires
        p <= s@.len(),
    ensures
        r == run_end(s@, p as int, d),
        p <= r <= s@.len(),
        r < s@.len() ==> !plain_byte(s@[r as int], d),
        final(out)@ == old(out)@ + s@.subrange(p as int, r as int),
{
    let mut i: usize = p;
    while i < s.len() && s[i] != d && (d == 0x60 || (s[i] != 0x5c && s[i] != 0x0a))
        invariant
            p <= i <= s@.len(),
            run_end(s@, i as int, d) == run_end(s@, p as int, d),
            out@ == old(out)@ + s@.subrange(p as int, i as int),
        decreases s@.len() - i,
    {
        out.push(s[i]);
        i = i + 1;
        assert(out@ =~= old(out)@ + s@.subrange(p as int, i as int));
    }
    i
}

/// Decodes escapes and plain runs from `p` until neither advances; returns the
/// decoded bytes and the position where decoding stopped.
fn decode_content(s: &[u8], p: usize, d: u8) -> (r: (Vec<u8>, usize))
    requires
        p <= s@.len(),
    ensures
        (r.0@, r.1 as int) == content_spec(s@, p as int, d),
        p <= r.1 <= s@.len(),
{
    let mut out: Vec<u8> = Vec::new();
    let mut i: usize = p;
    loop
        invariant
            p <= i <= s@.len(),
            out@ + content_spec(s@, i as int, d).0 == content_spec(s@, p as int, d).0,
            content_spec(s@, i as int, d).1 == content_spec(s@, p as int, d).1,
        decreases s@.len() - i,
    {
        if i < s.len() && s[i] == 0x5c {
            match rune(s, i) {
                Ok((q, bytes)) => {
                    let ghost before = out@;
                    let ghost decoded = bytes@;
                    let mut bytes = bytes;
                    out.append(&mut bytes);
                    proof {
                        let rest = content_spec(s@, q as int, d);
                        assert(before + (decoded + rest.0) =~= out@ + rest.0);
                    }
                    i = q;
                },
                Err(_) => {
                    assert(out@ =~= out@ + content_spec(s@, i as int, d).0);
                    return (out, i);
                },
            }
        } else {
            let ghost before = out@;
            let e = literal_run(s, i, d, &mut out);
            if e == i {
                assert(out@ =~= out@ + content_spec(s@, i as int, d).0);
                return (out, i);
            }
            proof {
                let rest = content_spec(s@, e as int, d);
                assert(before + (s@.subrange(i as int, e as int) + rest.0) =~= out@ + rest.0);
            }
            i = e;
        }
    }
}

/// Parses one string literal at the start of `input`: double-quoted and
/// single-quoted literals decode escapes and may not hold a raw newline;
/// backtick literals pass every byte but the backtick through unchanged.
/// Returns the position just past the closing delimiter and the bytes.
pub fn string(input: &[u8]) -> (r: Result<(usize, Vec<u8>), ParseError>)
    ensures
        string_outcome(input@, r),
        r matches Ok((n, _)) ==> n <= input@.len(),
{
    if input.len() == 0 {
        return Err(ParseError { position: 0, kind: ErrorKind::ExpectedQuote });
    }
    let d = input[0];
    if d == 0x22 || d == 0x27 {
        let (c, e) = decode_content(input, 1, d);
        if e < input.len() && input[e] == d {
            Ok((e + 1, c))
        } else if e < input.len() && input[e] == 0x5c {
            match rune(input, e) {
                Err(x) => Err(x),
                Ok(_) => Err(ParseError { position: e, kind: ErrorKind::ExpectedDelimiter(d) }),
            }
        } else {
            Err(ParseError { position: e, kind: ErrorKind::ExpectedDelimiter(d) })
        }
    } else if d == 0x60 {
        let mut c: Vec<u8> = Vec::new();
        let e = literal_run(input, 1, d, &mut c);
        assert(c@ =~= input@.subrange(1, e as int));
        if e < input.len() {
            Ok((e + 1, c))
        } else {
            Err(ParseError { position: e, kind: ErrorKind::ExpectedDelimiter(d) })
        }
    } else {
        Err(ParseError { position: 0, kind: ErrorKind::ExpectedQuote })
    }
}

/// What `string` promises of its result on `s`.
pub open spec fn string_outcome(s: Seq<u8>, r: Result<(usize, Vec<u8>), ParseError>) -> bool {
    match r {
        Ok((n, b)) => string_spec(s) == Ok::<(int, Seq<u8>), ParseError>((n as int, b@)),
        Err(e) => string_spec(s) == Err::<(int, Seq<u8>), ParseError>(e),
    }
}

/// Determinism: any two results that `string` may give on one input are the
/// same: equal positions and bytes, or equal errors.
pub proof fn lemma_string_deterministic(
    s: Seq<u8>,
    r1: Result<(usize, Vec<u8>), ParseError>,
    r2: Result<(usize, Vec<u8>), ParseError>,
)
    requires
        string_outcome(s, r1),
        string_outcome(s, r2),
    ensures
        r1 is Ok <==> r2 is Ok,
        r1 matches Ok((n1, b1)) ==> r2 matches Ok((n2, b2)) && n1 == n2 && b1@ == b2@,
        r1 matches Err(e1) ==> r2 matches Err(e2) && e1 == e2,
{
}

/// A `\u` escape with four hex digits, or a `\U` escape with eight, that
/// spell a Unicode scalar value decodes to that value's UTF-8 bytes, as the
/// character written out would.
pub proof fn lemma_scalar_escape(s: Seq<u8>, p: int, n: nat)
    requires
        0 <= p,
        byte_at(s, p, 0x5c),
        n == 4 && byte_at(s, p + 1, 0x75) || n == 8 && byte_at(s, p + 1, 0x55),
        radix_digits(s, p + 2, n, 16),
        is_scalar(radix_value(s, p + 2, n, 16)),
    ensures
        rune_spec(s, p) == Ok::<(Seq<u8>, int), ParseError>((utf8_encode(radix_value(s, p + 2, n, 16)), p + 2 + n)),
{
    assert(digit_value(s[p + 1]) >= 8);
}

proof fn lemma_plain_run(s: Seq<u8>, p: int, e: int, d: u8)
    requires
        0 <= p <= e < s.len(),
        s[e] == d,
        forall|i: int| p <= i < e ==> plain_byte(#[trigger] s[i], d),
    ensures
        run_end(s, p, d) == e,
    decreases e - p,
{
    if p < e {
        lemma_plain_run(s, p + 1, e, d);
    }
}

/// A quoted literal whose content holds only plain bytes (no backslash,
/// newline or delimiter; in a raw literal, no backtick) decodes to exactly
/// that content.
pub proof fn lemma_plain_content(s: Seq<u8>)
    requires
        s.len() >= 2,
        s[0] == 0x22 || s[0] == 0x27 || s[0] == 0x60,
        s[s.len() - 1] == s[0],
        forall|i: int| 1 <= i < s.len() - 1 ==> plain_byte(#[trigger] s[i], s[0]),
    ensures
        string_spec(s) == Ok::<(int, Seq<u8>), ParseError>((s.len() as int, s.subrange(1, s.len() - 1))),
{
    let d = s[0];
    let e = s.len() - 1;
    lemma_plain_run(s, 1, e, d);
    lemma_plain_run(s, e, e, d);
    if d != 0x60 {
        assert(content_spec(s, e, d) == (Seq::<u8>::empty(), e));
        if 1 < e {
            assert(s.subrange(1, e) + Seq::<u8>::empty() =~= s.subrange(1, e));
            assert(content_spec(s, 1, d) == (s.subrange(1, e), e));
        } else {
            assert(content_spec(s, 1, d) == (Seq::<u8>::empty(), e));
            assert(s.subrange(1, e) =~= Seq::<u8>::empty());
        }
    }
}

} // verus!
