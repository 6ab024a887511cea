use promql_core::error::{ErrorKind, ParseError};
use promql_core::literal::{rune, string, validate_unicode_scalar};

fn decoded(input: &str) -> Vec<u8> {
    match string(input.as_bytes()) {
        Ok((n, bytes)) => {
            assert_eq!(n, input.len());
            bytes
        }
        Err(e) => panic!("{:?}", e),
    }
}

#[test]
fn strings() {
    assert_eq!(decoded(r#""lorem ipsum \"dolor\nsit amet\"""#), b"lorem ipsum \"dolor\nsit amet\"".to_vec());

    assert_eq!(decoded(r#"'lorem ipsum \'dolor\nsit\tamet\''"#), b"lorem ipsum 'dolor\nsit\tamet'".to_vec());

    assert_eq!(
        decoded(r#"`lorem ipsum \"dolor\nsit\tamet\"`"#),
        br#"lorem ipsum \"dolor\nsit\tamet\""#.to_vec()
    );

    // literal, non-escaped newlines
    assert_eq!(
        string(b"'this\nis not valid'"),
        Err(ParseError { position: 5, kind: ErrorKind::ExpectedDelimiter(b'\'') })
    );

    assert_eq!(decoded("`but this\nis`"), b"but this\nis".to_vec());

    // strings with runes
    for s in [
        r#"'inf: ∞'"#,
        r#"'inf: \u221e'"#,
        r#"'inf: \u221E'"#,
        r#"'inf: \U0000221e'"#,
        r#"'inf: \U0000221E'"#,
        r#"'inf: \xe2\x88\x9e'"#,
        r#"'inf: \xE2\x88\x9E'"#,
    ] {
        assert_eq!(decoded(s), b"inf: \xe2\x88\x9e".to_vec());
    }

    for s in [
        r#"'thinking: 🤔'"#,
        r#"'thinking: \U0001f914'"#,
        r#"'thinking: \U0001F914'"#,
        r#"'thinking: \xf0\x9f\xa4\x94'"#,
        r#"'thinking: \xF0\x9F\xA4\x94'"#,
    ] {
        assert_eq!(decoded(s), b"thinking: \xf0\x9f\xa4\x94".to_vec());
    }
}

#[test]
fn runes() {
    assert_eq!(rune(b"\\123", 0), Ok((4, vec![0o123])));

    assert_eq!(rune(b"\\x23", 0), Ok((4, vec![0x23])));

    assert_eq!(rune(b"\\uabcd", 0), Ok((6, "\u{abcd}".as_bytes().to_vec())));

    // high surrogate
    assert_eq!(rune(b"\\uD801", 0), Err(ParseError { position: 1, kind: ErrorKind::InvalidScalar }));

    assert_eq!(rune(b"\\U00010330", 0), Ok((10, "\u{10330}".as_bytes().to_vec())));

    // out of range
    assert_eq!(rune(b"\\UdeadDEAD", 0), Err(ParseError { position: 1, kind: ErrorKind::InvalidScalar }));

    // utter nonsense
    assert_eq!(rune(b"\\xxx", 0), Err(ParseError { position: 1, kind: ErrorKind::UnknownEscape }));

    assert_eq!(rune(b"\\x1", 0), Err(ParseError { position: 1, kind: ErrorKind::UnknownEscape }));
}

#[test]
fn one_letter_escapes() {
    let cases: [(&[u8], u8); 10] = [
        (b"\\a", 0x07),
        (b"\\b", 0x08),
        (b"\\f", 0x0c),
        (b"\\n", 0x0a),
        (b"\\r", 0x0d),
        (b"\\t", 0x09),
        (b"\\v", 0x0b),
        (b"\\\\", 0x5c),
        (b"\\'", 0x27),
        (b"\\\"", 0x22),
    ];
    for (input, byte) in cases {
        assert_eq!(rune(input, 0), Ok((2, vec![byte])));
    }
}

#[test]
fn escapes_of_a_decode_alike() {
    for input in [&b"\\101"[..], b"\\x41", b"\\u0041", b"\\U00000041"] {
        assert_eq!(rune(input, 0), Ok((input.len(), vec![0x41])));
    }
}

#[test]
fn escape_errors() {
    assert_eq!(rune(b"x", 0), Err(ParseError { position: 0, kind: ErrorKind::ExpectedBackslash }));
    assert_eq!(rune(b"\\", 0), Err(ParseError { position: 1, kind: ErrorKind::UnknownEscape }));
    // octal above 0o377 does not fit a byte
    assert_eq!(rune(b"\\400", 0), Err(ParseError { position: 1, kind: ErrorKind::UnknownEscape }));
    assert_eq!(rune(b"\\U00110000", 0), Err(ParseError { position: 1, kind: ErrorKind::InvalidScalar }));
    // the escape may stand after other text
    assert_eq!(rune(b"ab\\n", 2), Ok((4, vec![0x0a])));
}

#[test]
fn scalar_validation() {
    assert_eq!(validate_unicode_scalar(0x41), Some(vec![0x41]));
    assert_eq!(validate_unicode_scalar(0xe9), Some("é".as_bytes().to_vec()));
    assert_eq!(validate_unicode_scalar(0x221e), Some("∞".as_bytes().to_vec()));
    assert_eq!(validate_unicode_scalar(0x1f914), Some("🤔".as_bytes().to_vec()));
    assert_eq!(validate_unicode_scalar(0x10ffff), Some("\u{10ffff}".as_bytes().to_vec()));
    assert_eq!(validate_unicode_scalar(0xd800), None);
    assert_eq!(validate_unicode_scalar(0xdfff), None);
    assert_eq!(validate_unicode_scalar(0x110000), None);
}

#[test]
fn string_errors() {
    assert_eq!(string(b""), Err(ParseError { position: 0, kind: ErrorKind::ExpectedQuote }));
    assert_eq!(string(b"abc"), Err(ParseError { position: 0, kind: ErrorKind::ExpectedQuote }));
    assert_eq!(string(b"\"abc"), Err(ParseError { position: 4, kind: ErrorKind::ExpectedDelimiter(b'"') }));
    assert_eq!(string(b"`abc"), Err(ParseError { position: 4, kind: ErrorKind::ExpectedDelimiter(b'`') }));
    assert_eq!(string(b"'a\\uD801'"), Err(ParseError { position: 3, kind: ErrorKind::InvalidScalar }));
    assert_eq!(string(b"'a\\q'"), Err(ParseError { position: 3, kind: ErrorKind::UnknownEscape }));
}

#[test]
fn string_edges() {
    assert_eq!(string(b"''"), Ok((2, vec![])));
    assert_eq!(string(b"``"), Ok((2, vec![])));
    // both quote escapes work whatever the delimiter
    assert_eq!(string(b"\"\\'\""), Ok((4, vec![0x27])));
    assert_eq!(string(b"'\\\"'"), Ok((4, vec![0x22])));
    // decoding stops at the closing delimiter
    assert_eq!(string(b"'ab' rest"), Ok((4, b"ab".to_vec())));
    assert_eq!(string(b"`a'b`"), Ok((5, b"a'b".to_vec())));
    assert_eq!(string(b"'x'"), string(b"'x'"));
}
