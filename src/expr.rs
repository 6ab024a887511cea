//! The expression grammar: binary operators in precedence layers over atoms.
//!
//! Layers, from the loosest binding to the tightest:
//!   0 `or`; 1 `and`, `unless`; 2 `==`, `!=`, `<=`, `>=`, `<`, `>`;
//!   3 `+`, `-`; 4 `*`, `/`, `%`; 5 `^`; 6 atoms.
//! Layer 5 groups to the right, every other layer to the left.
use vstd::prelude::*;
use crate::ast::{Node, Op, Scalar, Tree, Vector};
use crate::error::{error_at, ErrorKind, ParseError};
use crate::scan::{
    byte_at, byte_is, byte_is_at, copy_range, digits_end, is_digit, lemma_digits_end, lemma_skip_ws, skip_digits,
    skip_whitespace, skip_ws,
};

verus! {

/// The layer that atoms stand in.
pub const ATOM_LAYER: u8 = 6;

/// Whether the operators of a layer group to the right.
pub open spec fn right_assoc(l: int) -> bool {
    l == 5
}

/// The operator of layer `l` that starts at `p`, and the position after it.
/// Longer tags are tried before their prefixes.
pub open spec fn op_at(s: Seq<u8>, p: int, l: int) -> Option<(Op, int)> {
    if l == 0 {
        if byte_at(s, p, 0x6f) && byte_at(s, p + 1, 0x72) {
            Some((Op::Or, p + 2))
        } else {
            None
        }
    } else if l == 1 {
        if byte_at(s, p, 0x61) && byte_at(s, p + 1, 0x6e) && byte_at(s, p + 2, 0x64) {
            Some((Op::And, p + 3))
        } else if byte_at(s, p, 0x75) && byte_at(s, p + 1, 0x6e) && byte_at(s, p + 2, 0x6c)
            && byte_at(s, p + 3, 0x65) && byte_at(s, p + 4, 0x73) && byte_at(s, p + 5, 0x73) {
            Some((Op::Unless, p + 6))
        } else {
            None
        }
    } else if l == 2 {
        if byte_at(s, p, 0x3d) && byte_at(s, p + 1, 0x3d) {
            Some((Op::Eq, p + 2))
        } else if byte_at(s, p, 0x21) && byte_at(s, p + 1, 0x3d) {
            Some((Op::Ne, p + 2))
        } else if byte_at(s, p, 0x3c) && byte_at(s, p + 1, 0x3d) {
            Some((Op::Le, p + 2))
        } else if byte_at(s, p, 0x3e) && byte_at(s, p + 1, 0x3d) {
            Some((Op::Ge, p + 2))
        } else if byte_at(s, p, 0x3c) {
            Some((Op::Lt, p + 1))
        } else if byte_at(s, p, 0x3e) {
            Some((Op::Gt, p + 1))
        } else {
            None
        }
    } else if l == 3 {
        if byte_at(s, p, 0x2b) {
            Some((Op::Plus, p + 1))
        } else if byte_at(s, p, 0x2d) {
            Some((Op::Minus, p + 1))
        } else {
            None
        }
    } else if l == 4 {
        if byte_at(s, p, 0x2a) {
            Some((Op::Mul, p + 1))
        } else if byte_at(s, p, 0x2f) {
            Some((Op::Div, p + 1))
        } else if byte_at(s, p, 0x25) {
            Some((Op::Mod, p + 1))
        } else {
            None
        }
    } else if l == 5 {
        if byte_at(s, p, 0x5e) {
            Some((Op::Pow, p + 1))
        } else {
            None
        }
    } else {
        None
    }
}

/// `NaN` in any letter casing at `q`.
pub open spec fn nan_at(s: Seq<u8>, q: int) -> bool {
    (byte_at(s, q, 0x6e) || byte_at(s, q, 0x4e)) && (byte_at(s, q + 1, 0x61) || byte_at(
        s,
        q + 1,
        0x41,
    )) && (byte_at(s, q + 2, 0x6e) || byte_at(s, q + 2, 0x4e))
}

pub open spec fn sign_end(s: Seq<u8>, q: int) -> int {
    if byte_at(s, q, 0x2b) || byte_at(s, q, 0x2d) {
        q + 1
    } else {
        q
    }
}

/// End of `digits ['.' [digits]]` or of `'.' digits` at `a`; `a` where neither starts.
pub open spec fn mantissa_end(s: Seq<u8>, a: int) -> int {
    let i = digits_end(s, a);
    if i > a {
        if byte_at(s, i, 0x2e) {
            digits_end(s, i + 1)
        } else {
            i
        }
    } else if byte_at(s, a, 0x2e) && digits_end(s, a + 1) > a + 1 {
        digits_end(s, a + 1)
    } else {
        a
    }
}

/// End of an exponent `('e' | 'E') [sign] digits` at `m`, or `m` where none is complete.
pub open spec fn exponent_end(s: Seq<u8>, m: int) -> int {
    if byte_at(s, m, 0x65) || byte_at(s, m, 0x45) {
        let b = sign_end(s, m + 1);
        if digits_end(s, b) > b {
            digits_end(s, b)
        } else {
            m
        }
    } else {
        m
    }
}

/// End of the decimal number literal at `q`: sign, mantissa, exponent; `q`
/// where none starts. A plain run of digits is such a literal too.
pub open spec fn number_end(s: Seq<u8>, q: int) -> int {
    let a = sign_end(s, q);
    let m = mantissa_end(s, a);
    if m > a {
        exponent_end(s, m)
    } else {
        q
    }
}

pub open spec fn is_name_start(b: u8) -> bool {
    (0x61 <= b <= 0x7a) || (0x41 <= b <= 0x5a) || b == 0x5f || b == 0x3a
}

pub open spec fn name_end(s: Seq<u8>, p: int) -> int
    decreases s.len() - p,
{
    if 0 <= p < s.len() && (is_name_start(s[p]) || is_digit(s[p])) {
        name_end(s, p + 1)
    } else {
        p
    }
}

/// First `}` at or after `p`, or the end of the input.
pub open spec fn brace_close(s: Seq<u8>, p: int) -> int
    decreases s.len() - p,
{
    if 0 <= p < s.len() && s[p] != 0x7d {
        brace_close(s, p + 1)
    } else {
        p
    }
}

/// End of the vector operand at `q`: a metric name, then an optional
/// label-matcher block in braces; `q` where none starts. Only the extent of
/// the operand is found here: its text is kept whole, uninterpreted.
pub open spec fn selector_end(s: Seq<u8>, q: int) -> int {
    let n = if 0 <= q < s.len() && is_name_start(s[q]) {
        name_end(s, q + 1)
    } else {
        q
    };
    if byte_at(s, n, 0x7b) && brace_close(s, n + 1) < s.len() {
        brace_close(s, n + 1) + 1
    } else {
        n
    }
}

/// An atom at `p`, after optional whitespace; its tree and the position
/// after it and the whitespace that follows.
pub open spec fn atom_spec(s: Seq<u8>, p: int) -> Result<(Tree, int), ParseError>
    decreases s.len() - p, 0int,
{
    let q = skip_ws(s, p);
    if nan_at(s, q) {
        Ok((Tree::NaN, skip_ws(s, q + 3)))
    } else if number_end(s, q) > q {
        Ok((Tree::Number(s.subrange(q, number_end(s, q))), skip_ws(s, number_end(s, q))))
    } else if selector_end(s, q) > q {
        Ok((Tree::InstantVector(s.subrange(q, selector_end(s, q))), skip_ws(s, selector_end(s, q))))
    } else if byte_at(s, q, 0x28) {
        proof {
            lemma_skip_ws(s, p);
        }
        match layer_spec(s, q + 1, 0) {
            Ok((x, r)) => if byte_at(s, r, 0x29) {
                Ok((x, skip_ws(s, r + 1)))
            } else {
                Err(error_at(r, ErrorKind::ExpectedCloseParen))
            },
            Err(e) => Err(e),
        }
    } else {
        Err(error_at(q, ErrorKind::ExpectedAtom))
    }
}

/// Decreases from each layer to the next tighter one.
pub open spec fn layer_rank(l: int) -> int {
    if l < 0 {
        8
    } else if l >= 6 {
        1
    } else {
        7 - l
    }
}

/// Layer `l` at `p`: a term of layer `l + 1`, then operators of layer `l`,
/// each with its own term. Left layers fold the pairs to the left; the right
/// layer takes its right operand from layer `l` itself.
pub open spec fn layer_spec(s: Seq<u8>, p: int, l: int) -> Result<(Tree, int), ParseError>
    decreases s.len() - p, layer_rank(l),
{
    if l >= 6 {
        atom_spec(s, p)
    } else if l < 0 {
        layer_spec(s, p, 0)
    } else {
        match layer_spec(s, p, l + 1) {
            Err(e) => Err(e),
            Ok((x, r)) => if right_assoc(l) {
                match op_at(s, r, l) {
                    Some((op, q)) => if p < q {
                        match layer_spec(s, q, l) {
                            Ok((y, t)) => Ok((Tree::Operator(Box::new(x), op, Box::new(y)), t)),
                            Err(_) => Ok((x, r)),
                        }
                    } else {
                        Ok((x, r))
                    },
                    None => Ok((x, r)),
                }
            } else if p <= r <= s.len() {
                Ok(fold_spec(s, l, x, r))
            } else {
                Ok((x, r))
            },
        }
    }
}

/// The left fold of layer `l` from `p` on, with `acc` as the tree so far:
/// an operator with a term after it extends the tree; the first place where
/// none follows ends it.
pub open spec fn fold_spec(s: Seq<u8>, l: int, acc: Tree, p: int) -> (Tree, int)
    decreases s.len() - p, 0int,
{
    match op_at(s, p, l) {
        Some((op, q)) => if 0 <= l < 6 && p < q {
            match layer_spec(s, q, l + 1) {
                Ok((y, t)) => if p < t <= s.len() {
                    fold_spec(s, l, Tree::Operator(Box::new(acc), op, Box::new(y)), t)
                } else {
                    (acc, p)
                },
                Err(_) => (acc, p),
            }
        } else {
            (acc, p)
        },
        None => (acc, p),
    }
}

/// A whole expression at the start of `s`.
pub open spec fn expression_spec(s: Seq<u8>) -> Result<(Tree, int), ParseError> {
    layer_spec(s, 0, 0)
}

fn match_op(s: &[u8], p: usize, l: u8) -> (r: Option<(Op, usize)>)
    requires
        p <= s@.len(),
    ensures
        match r {
            Some((op, q)) => op_at(s@, p as int, l as int) == Some((op, q as int)) && p < q <= s@.len(),
            None => op_at(s@, p as int, l as int) is None,
        },
{
    let len = s.len();
    if l == 0 {
        if byte_is(s, p, 0x6f) && byte_is_at(s, p, 1, 0x72) {
            return Some((Op::Or, p + 2));
        }
    } else if l == 1 {
        if byte_is(s, p, 0x61) && byte_is_at(s, p, 1, 0x6e) && byte_is_at(s, p, 2, 0x64) {
            return Some((Op::And, p + 3));
        } else if byte_is(s, p, 0x75) && byte_is_at(s, p, 1, 0x6e) && byte_is_at(s, p, 2, 0x6c)
            && byte_is_at(s, p, 3, 0x65) && byte_is_at(s, p, 4, 0x73) && byte_is_at(s, p, 5, 0x73) {
            return Some((Op::Unless, p + 6));
        }
    } else if l == 2 {
        if byte_is(s, p, 0x3d) && byte_is_at(s, p, 1, 0x3d) {
            return Some((Op::Eq, p + 2));
        } else if byte_is(s, p, 0x21) && byte_is_at(s, p, 1, 0x3d) {
            return Some((Op::Ne, p + 2));
        } else if byte_is(s, p, 0x3c) && byte_is_at(s, p, 1, 0x3d) {
            return Some((Op::Le, p + 2));
        } else if byte_is(s, p, 0x3e) && byte_is_at(s, p, 1, 0x3d) {
            return Some((Op::Ge, p + 2));
        } else if byte_is(s, p, 0x3c) {
            return Some((Op::Lt, p + 1));
        } else if byte_is(s, p, 0x3e) {
            return Some((Op::Gt, p + 1));
        }
    } else if l == 3 {
        if byte_is(s, p, 0x2b) {
            return Some((Op::Plus, p + 1));
        } else if byte_is(s, p, 0x2d) {
            return Some((Op::Minus, p + 1));
        }
    } else if l == 4 {
        if byte_is(s, p, 0x2a) {
            return Some((Op::Mul, p + 1));
        } else if byte_is(s, p, 0x2f) {
            return Some((Op::Div, p + 1));
        } else if byte_is(s, p, 0x25) {
            return Some((Op::Mod, p + 1));
        }
    } else if l == 5 {
        if byte_is(s, p, 0x5e) {
            return Some((Op::Pow, p + 1));
        }
    }
    None
}

fn skip_sign(s: &[u8], q: usize) -> (r: usize)
    requires
        q <= s@.len(),
    ensures
        r == sign_end(s@, q as int),
        q <= r <= s@.len(),
{
    let len = s.len();
    if byte_is(s, q, 0x2b) || byte_is(s, q, 0x2d) {
        q + 1
    } else {
        q
    }
}

/// End of the decimal number literal at `q`, or `q` where none starts.
fn number_literal_end(s: &[u8], q: usize) -> (r: usize)
    requires
        q <= s@.len(),
    ensures
        r == number_end(s@, q as int),
        q <= r <= s@.len(),
{
    let len = s.len();
    let a = skip_sign(s, q);
    let i = skip_digits(s, a);
    let m = if i > a {
        if byte_is(s, i, 0x2e) {
            skip_digits(s, i + 1)
        } else {
            i
        }
    } else if byte_is(s, a, 0x2e) && skip_digits(s, a + 1) > a + 1 {
        skip_digits(s, a + 1)
    } else {
        a
    };
    if m <= a {
        return q;
    }
    if byte_is(s, m, 0x65) || byte_is(s, m, 0x45) {
        let b = skip_sign(s, m + 1);
        let f = skip_digits(s, b);
        if f > b {
            f
        } else {
            m
        }
    } else {
        m
    }
}

/// End of the vector operand at `q`, or `q` where none starts.
fn selector_literal_end(s: &[u8], q: usize) -> (r: usize)
    requires
        q <= s@.len(),
    ensures
        r == selector_end(s@, q as int),
        q <= r <= s@.len(),
{
    let mut n: usize = q;
    if q < s.len() && is_name_start_byte(s[q]) {
        n = q + 1;
        while n < s.len() && (is_name_start_byte(s[n]) || (0x30 <= s[n] && s[n] <= 0x39))
            invariant
                q < n <= s@.len(),
                name_end(s@, n as int) == name_end(s@, q + 1),
            decreases s@.len() - n,
        {
            n = n + 1;
        }
    }
    if byte_is(s, n, 0x7b) {
        let mut c: usize = n + 1;
        while c < s.len() && s[c] != 0x7d
            invariant
                n < c <= s@.len(),
                brace_close(s@, c as int) == brace_close(s@, n + 1),
            decreases s@.len() - c,
        {
            c = c + 1;
        }
        if c < s.len() {
            return c + 1;
        }
    }
    n
}

fn is_name_start_byte(b: u8) -> (r: bool)
    ensures
        r == is_name_start(b),
{
    (0x61 <= b && b <= 0x7a) || (0x41 <= b && b <= 0x5a) || b == 0x5f || b == 0x3a
}

/// Parses one atom at `p`: `NaN` in any casing, a number, a vector operand,
/// or a parenthesised expression; whitespace around it is skipped.
fn atom(s: &[u8], p: usize) -> (r: Result<(usize, Node), ParseError>)
    requires
        p <= s@.len(),
    ensures
        match r {
            Ok((e, n)) => atom_spec(s@, p as int) == Ok::<(Tree, int), ParseError>((n.model(), e as int))
                && p < e <= s@.len(),
            Err(x) => atom_spec(s@, p as int) == Err::<(Tree, int), ParseError>(x),
        },
    decreases s@.len() - p, 0int,
{
    let len = s.len();
    let q = skip_whitespace(s, p);
    if (byte_is(s, q, 0x6e) || byte_is(s, q, 0x4e)) && (byte_is_at(s, q, 1, 0x61) || byte_is_at(s, q, 1, 0x41))
        && (byte_is_at(s, q, 2, 0x6e) || byte_is_at(s, q, 2, 0x4e)) {
        let e = skip_whitespace(s, q + 3);
        return Ok((e, Node::Scalar(Scalar::NaN)));
    }
    let e = number_literal_end(s, q);
    if e > q {
        let text = copy_range(s, q, e);
        return Ok((skip_whitespace(s, e), Node::Scalar(Scalar::Number(text))));
    }
    let e = selector_literal_end(s, q);
    if e > q {
        let selector = copy_range(s, q, e);
        return Ok((skip_whitespace(s, e), Node::InstantVector(Vector { selector })));
    }
    if byte_is(s, q, 0x28) {
        match layer(s, q + 1, 0) {
            Ok((r, x)) => {
                if byte_is(s, r, 0x29) {
                    Ok((skip_whitespace(s, r + 1), x))
                } else {
                    Err(ParseError { position: r, kind: ErrorKind::ExpectedCloseParen })
                }
            },
            Err(e) => Err(e),
        }
    } else {
        Err(ParseError { position: q, kind: ErrorKind::ExpectedAtom })
    }
}

/// Parses layer `l` at `p` (see the table at the top of this module).
fn layer(s: &[u8], p: usize, l: u8) -> (r: Result<(usize, Node), ParseError>)
    requires
        p <= s@.len(),
        l <= ATOM_LAYER,
    ensures
        match r {
            Ok((e, n)) => layer_spec(s@, p as int, l as int) == Ok::<(Tree, int), ParseError>((n.model(), e as int))
                && p < e <= s@.len(),
            Err(x) => layer_spec(s@, p as int, l as int) == Err::<(Tree, int), ParseError>(x),
        },
    decreases s@.len() - p, layer_rank(l as int),
{
    if l >= ATOM_LAYER {
        return atom(s, p);
    }
    let (r, x) = match layer(s, p, l + 1) {
        Ok(v) => v,
        Err(e) => return Err(e),
    };
    if l == 5 {
        match match_op(s, r, l) {
            Some((op, q)) => match layer(s, q, l) {
                Ok((t, y)) => Ok((t, Node::operator(x, op, y))),
                Err(_) => Ok((r, x)),
            },
            None => Ok((r, x)),
        }
    } else {
        let ghost first = x.model();
        let mut acc = x;
        let mut i: usize = r;
        loop
            invariant
                p < i <= s@.len(),
                l < 5,
                fold_spec(s@, l as int, acc.model(), i as int) == fold_spec(s@, l as int, first, r as int),
            ensures
                p < i <= s@.len(),
                fold_spec(s@, l as int, first, r as int) == (acc.model(), i as int),
            decreases s@.len() - i,
        {
            match match_op(s, i, l) {
                None => break,
                Some((op, q)) => match layer(s, q, l + 1) {
                    Err(_) => break,
                    Ok((t, y)) => {
                        acc = Node::operator(acc, op, y);
                        i = t;
                    },
                },
            }
        }
        Ok((i, acc))
    }
}

/// Parses an expression at the start of `input`, with `or` binding loosest
/// and `^` tightest. Returns where the parse stopped and the tree; input
/// after an operator that no term follows is left unconsumed.
pub fn expression(input: &[u8]) -> (r: Result<(usize, Node), ParseError>)
    ensures
        expression_outcome(input@, r),
        r matches Ok((e, _)) ==> 0 < e <= input@.len(),
{
    layer(input, 0, 0)
}

/// What `expression` promises of its result on `s`.
pub open spec fn expression_outcome(s: Seq<u8>, r: Result<(usize, Node), ParseError>) -> bool {
    match r {
        Ok((e, n)) => expression_spec(s) == Ok::<(Tree, int), ParseError>((n.model(), e as int)),
        Err(x) => expression_spec(s) == Err::<(Tree, int), ParseError>(x),
    }
}

proof fn lemma_name_end(s: Seq<u8>, p: int)
    requires
        0 <= p <= s.len(),
    ensures
        p <= name_end(s, p) <= s.len(),
    decreases s.len() - p,
{
    if p < s.len() && (is_name_start(s[p]) || is_digit(s[p])) {
        lemma_name_end(s, p + 1);
    }
}

proof fn lemma_brace_close(s: Seq<u8>, p: int)
    requires
        0 <= p <= s.len(),
    ensures
        p <= brace_close(s, p) <= s.len(),
    decreases s.len() - p,
{
    if p < s.len() && s[p] != 0x7d {
        lemma_brace_close(s, p + 1);
    }
}

proof fn lemma_literal_ends(s: Seq<u8>, q: int)
    requires
        0 <= q <= s.len(),
    ensures
        q <= number_end(s, q) <= s.len(),
        q <= selector_end(s, q) <= s.len(),
{
    let a = sign_end(s, q);
    lemma_digits_end(s, a);
    let i = digits_end(s, a);
    if i > a && byte_at(s, i, 0x2e) {
        lemma_digits_end(s, i + 1);
    }
    if byte_at(s, a, 0x2e) {
        lemma_digits_end(s, a + 1);
    }
    let m = mantissa_end(s, a);
    if (byte_at(s, m, 0x65) || byte_at(s, m, 0x45)) {
        lemma_digits_end(s, sign_end(s, m + 1));
    }
    if q < s.len() && is_name_start(s[q]) {
        lemma_name_end(s, q + 1);
    }
    let n = if q < s.len() && is_name_start(s[q]) {
        name_end(s, q + 1)
    } else {
        q
    };
    if byte_at(s, n, 0x7b) {
        lemma_brace_close(s, n + 1);
    }
}

proof fn lemma_atom_advances(s: Seq<u8>, p: int)
    requires
        0 <= p <= s.len(),
    ensures
        atom_spec(s, p) matches Ok((_, e)) ==> p < e <= s.len(),
    decreases s.len() - p, 0int,
{
    lemma_skip_ws(s, p);
    let q = skip_ws(s, p);
    lemma_literal_ends(s, q);
    if nan_at(s, q) {
        lemma_skip_ws(s, q + 3);
    } else if number_end(s, q) > q {
        lemma_skip_ws(s, number_end(s, q));
    } else if selector_end(s, q) > q {
        lemma_skip_ws(s, selector_end(s, q));
    } else if byte_at(s, q, 0x28) {
        lemma_layer_advances(s, q + 1, 0);
        if let Ok((_, r)) = layer_spec(s, q + 1, 0) {
            if byte_at(s, r, 0x29) {
                lemma_skip_ws(s, r + 1);
            }
        }
    }
}

proof fn lemma_layer_advances(s: Seq<u8>, p: int, l: int)
    requires
        0 <= p <= s.len(),
        0 <= l <= 6,
    ensures
        layer_spec(s, p, l) matches Ok((_, e)) ==> p < e <= s.len(),
    decreases s.len() - p, layer_rank(l),
{
    if l == 6 {
        lemma_atom_advances(s, p);
    } else {
        lemma_layer_advances(s, p, l + 1);
        if let Ok((x, r)) = layer_spec(s, p, l + 1) {
            if right_assoc(l) {
                if let Some((op, q)) = op_at(s, r, l) {
                    lemma_layer_advances(s, q, l);
                }
            } else {
                lemma_fold_advances(s, l, x, r);
            }
        }
    }
}

proof fn lemma_fold_advances(s: Seq<u8>, l: int, acc: Tree, p: int)
    requires
        0 <= p <= s.len(),
        0 <= l < 6,
    ensures
        p <= fold_spec(s, l, acc, p).1 <= s.len(),
    decreases s.len() - p, 0int,
{
    if let Some((op, q)) = op_at(s, p, l) {
        if p < q {
            lemma_layer_advances(s, q, l + 1);
            if let Ok((y, t)) = layer_spec(s, q, l + 1) {
                if p < t <= s.len() {
                    lemma_fold_advances(s, l, Tree::Operator(Box::new(acc), op, Box::new(y)), t);
                }
            }
        }
    }
}

/// Left associativity: in a left-grouping layer, `x op1 y op2 z` (each
/// operand a term of the next tighter layer, nothing of this layer after
/// `z`) parses as `(x op1 y) op2 z`.
pub proof fn lemma_left_associative(
    s: Seq<u8>,
    p: int,
    l: int,
    x: Tree,
    r: int,
    op1: Op,
    q1: int,
    y: Tree,
    t1: int,
    op2: Op,
    q2: int,
    z: Tree,
    t2: int,
)
    requires
        0 <= p <= s.len(),
        0 <= l < 5,
        layer_spec(s, p, l + 1) == Ok::<(Tree, int), ParseError>((x, r)),
        op_at(s, r, l) == Some((op1, q1)),
        layer_spec(s, q1, l + 1) == Ok::<(Tree, int), ParseError>((y, t1)),
        op_at(s, t1, l) == Some((op2, q2)),
        layer_spec(s, q2, l + 1) == Ok::<(Tree, int), ParseError>((z, t2)),
        op_at(s, t2, l) is None,
    ensures
        layer_spec(s, p, l) == Ok::<(Tree, int), ParseError>((
            Tree::Operator(
                Box::new(Tree::Operator(Box::new(x), op1, Box::new(y))),
                op2,
                Box::new(z),
            ),
            t2,
        )),
{
    lemma_layer_advances(s, p, l + 1);
    lemma_layer_advances(s, q1, l + 1);
    lemma_layer_advances(s, q2, l + 1);
    let xy = Tree::Operator(Box::new(x), op1, Box::new(y));
    let xyz = Tree::Operator(Box::new(xy), op2, Box::new(z));
    assert(fold_spec(s, l, xyz, t2) == (xyz, t2));
    assert(fold_spec(s, l, xy, t1) == (xyz, t2));
    assert(fold_spec(s, l, x, r) == (xyz, t2));
}

/// Right associativity: `x ^ y ^ z` (each operand an atom, no `^` after `z`)
/// parses as `x ^ (y ^ z)`.
pub proof fn lemma_right_associative(
    s: Seq<u8>,
    p: int,
    x: Tree,
    r: int,
    q1: int,
    y: Tree,
    t1: int,
    q2: int,
    z: Tree,
    t2: int,
)
    requires
        0 <= p <= s.len(),
        layer_spec(s, p, 6) == Ok::<(Tree, int), ParseError>((x, r)),
        op_at(s, r, 5) == Some((Op::Pow, q1)),
        layer_spec(s, q1, 6) == Ok::<(Tree, int), ParseError>((y, t1)),
        op_at(s, t1, 5) == Some((Op::Pow, q2)),
        layer_spec(s, q2, 6) == Ok::<(Tree, int), ParseError>((z, t2)),
        op_at(s, t2, 5) is None,
    ensures
        layer_spec(s, p, 5) == Ok::<(Tree, int), ParseError>((
            Tree::Operator(
                Box::new(x),
                Op::Pow,
                Box::new(Tree::Operator(Box::new(y), Op::Pow, Box::new(z))),
            ),
            t2,
        )),
{
    lemma_layer_advances(s, p, 6);
    lemma_layer_advances(s, q1, 6);
    lemma_layer_advances(s, q2, 6);
    let yz = Tree::Operator(Box::new(y), Op::Pow, Box::new(z));
    assert(layer_spec(s, q2, 5) == Ok::<(Tree, int), ParseError>((z, t2)));
    assert(layer_spec(s, q1, 5) == Ok::<(Tree, int), ParseError>((yz, t2)));
}

/// `NaN` in any letter casing, alone, parses to the not-a-number scalar.
pub proof fn lemma_nan_any_casing(s: Seq<u8>)
    requires
        s.len() == 3,
        s[0] == 0x6e || s[0] == 0x4e,
        s[1] == 0x61 || s[1] == 0x41,
        s[2] == 0x6e || s[2] == 0x4e,
    ensures
        expression_spec(s) == Ok::<(Tree, int), ParseError>((Tree::NaN, 3)),
{
    let nan = Ok::<(Tree, int), ParseError>((Tree::NaN, 3));
    assert(skip_ws(s, 0) == 0);
    assert(skip_ws(s, 3) == 3);
    assert(atom_spec(s, 0) == nan);
    assert(layer_spec(s, 0, 6) == nan);
    assert(layer_spec(s, 0, 5) == nan);
    assert(op_at(s, 3, 4) is None);
    assert(fold_spec(s, 4, Tree::NaN, 3) == (Tree::NaN, 3int));
    assert(layer_spec(s, 0, 4) == nan);
    assert(op_at(s, 3, 3) is None);
    assert(fold_spec(s, 3, Tree::NaN, 3) == (Tree::NaN, 3int));
    assert(layer_spec(s, 0, 3) == nan);
    assert(op_at(s, 3, 2) is None);
    assert(fold_spec(s, 2, Tree::NaN, 3) == (Tree::NaN, 3int));
    assert(layer_spec(s, 0, 2) == nan);
    assert(op_at(s, 3, 1) is None);
    assert(fold_spec(s, 1, Tree::NaN, 3) == (Tree::NaN, 3int));
    assert(layer_spec(s, 0, 1) == nan);
    assert(op_at(s, 3, 0) is None);
    assert(fold_spec(s, 0, Tree::NaN, 3) == (Tree::NaN, 3int));
    assert(layer_spec(s, 0, 0) == nan);
}

/// Determinism: any two results that `expression` may give on one input
/// are the same: equal positions and trees, or equal errors.
pub proof fn lemma_expression_deterministic(
    s: Seq<u8>,
    r1: Result<(usize, Node), ParseError>,
    r2: Result<(usize, Node), ParseError>,
)
    requires
        expression_outcome(s, r1),
        expression_outcome(s, r2),
    ensures
        r1 is Ok <==> r2 is Ok,
        r1 matches Ok((e1, n1)) ==> r2 matches Ok((e2, n2)) && e1 == e2 && n1.model() == n2.model(),
        r1 matches Err(x1) ==> r2 matches Err(x2) && x1 == x2,
{
}

} // verus!
