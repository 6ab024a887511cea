use promql_core::ast::{Node, Op, Scalar, Vector};
use promql_core::error::{ErrorKind, ParseError};
use promql_core::expr::expression;

fn vector(name: &str) -> Node {
    Node::InstantVector(Vector { selector: name.as_bytes().to_vec() })
}

fn number(text: &str) -> Node {
    Node::Scalar(Scalar::Number(text.as_bytes().to_vec()))
}

fn value_of(text: &str) -> f32 {
    text.parse::<f32>().unwrap()
}

fn operator(x: Node, op: Op, y: Node) -> Node {
    Node::operator(x, op, y)
}

fn parse_all(input: &str) -> Node {
    match expression(input.as_bytes()) {
        Ok((n, tree)) => {
            assert_eq!(n, input.len());
            tree
        }
        Err(e) => panic!("{:?}", e),
    }
}

#[test]
fn whatever() {
    assert_eq!(value_of("0"), 0.);
    assert_eq!(value_of("15.5"), 15.5);

    assert_eq!(
        expression(&b"foo > bar != 0 and 15.5 < xyzzy"[..]),
        Ok((
            31,
            operator(
                operator(operator(vector("foo"), Op::Gt, vector("bar")), Op::Ne, number("0")),
                Op::And,
                operator(number("15.5"), Op::Lt, vector("xyzzy")),
            )
        ))
    );

    assert_eq!(
        expression(&b"foo + bar - baz <= quux + xyzzy"[..]),
        Ok((
            31,
            operator(
                operator(operator(vector("foo"), Op::Plus, vector("bar")), Op::Minus, vector("baz")),
                Op::Le,
                operator(vector("quux"), Op::Plus, vector("xyzzy")),
            )
        ))
    );

    assert_eq!(
        expression(&b"foo + bar % baz"[..]),
        Ok((15, operator(vector("foo"), Op::Plus, operator(vector("bar"), Op::Mod, vector("baz")))))
    );

    assert_eq!(
        expression(&b"x^y^z"[..]),
        Ok((5, operator(vector("x"), Op::Pow, operator(vector("y"), Op::Pow, vector("z")))))
    );

    assert_eq!(
        expression(&b"(a+b)*c"[..]),
        Ok((7, operator(operator(vector("a"), Op::Plus, vector("b")), Op::Mul, vector("c"))))
    );
}

#[test]
fn left_associative_layers() {
    assert_eq!(
        parse_all("a + b - c"),
        operator(operator(vector("a"), Op::Plus, vector("b")), Op::Minus, vector("c"))
    );
    assert_eq!(
        parse_all("a * b / c % d"),
        operator(operator(operator(vector("a"), Op::Mul, vector("b")), Op::Div, vector("c")), Op::Mod, vector("d"))
    );
    assert_eq!(
        parse_all("a == b >= c"),
        operator(operator(vector("a"), Op::Eq, vector("b")), Op::Ge, vector("c"))
    );
    assert_eq!(
        parse_all("a and b unless c"),
        operator(operator(vector("a"), Op::And, vector("b")), Op::Unless, vector("c"))
    );
    assert_eq!(
        parse_all("a or b or c"),
        operator(operator(vector("a"), Op::Or, vector("b")), Op::Or, vector("c"))
    );
}

#[test]
fn or_binds_loosest() {
    assert_eq!(
        parse_all("a or b and c"),
        operator(vector("a"), Op::Or, operator(vector("b"), Op::And, vector("c")))
    );
    assert_eq!(
        parse_all("2 ^ 3 * 4"),
        operator(operator(number("2"), Op::Pow, number("3")), Op::Mul, number("4"))
    );
}

#[test]
fn nan_in_any_casing() {
    for text in ["NaN", "nan", "NAN", "nAn", " NaN "] {
        match expression(text.as_bytes()) {
            Ok((n, Node::Scalar(s))) => {
                assert_eq!(n, text.len());
                assert!(s.is_nan());
            }
            other => panic!("{:?}", other),
        }
    }
}

#[test]
fn number_forms() {
    assert_eq!(parse_all("-1.5e3"), number("-1.5e3"));
    assert_eq!(parse_all(".5"), number(".5"));
    assert_eq!(parse_all("7."), number("7."));
    assert_eq!(parse_all("42"), number("42"));
    assert_eq!(value_of("-1.5e3"), -1500.0);
    // an exponent without digits is not part of the number
    assert_eq!(expression(b"3e"), Ok((1, number("3"))));
}

#[test]
fn vector_with_matchers() {
    assert_eq!(parse_all("up{job=\"api\"}"), vector("up{job=\"api\"}"));
    assert_eq!(parse_all("{job=\"api\"}"), vector("{job=\"api\"}"));
}

#[test]
fn expression_errors() {
    assert_eq!(
        expression(b"   )"),
        Err(ParseError { position: 3, kind: ErrorKind::ExpectedAtom })
    );
    assert_eq!(
        expression(b""),
        Err(ParseError { position: 0, kind: ErrorKind::ExpectedAtom })
    );
    assert_eq!(
        expression(b"(a + b"),
        Err(ParseError { position: 6, kind: ErrorKind::ExpectedCloseParen })
    );
}

#[test]
fn dangling_operator_is_left_unconsumed() {
    assert_eq!(expression(b"a + "), Ok((2, vector("a"))));
    assert_eq!(expression(b"a ^"), Ok((2, vector("a"))));
}

#[test]
fn expression_is_deterministic() {
    let input = b"foo > bar != 0 and 15.5 < xyzzy";
    assert_eq!(expression(input), expression(input));
    assert_eq!(expression(b"(a"), expression(b"(a"));
}
