use pbn::json::json_parse_numeric;
use pbn::json::json_parse_string;
use pbn::json::JsonToken;
use pbn::json::JsonTokenError;

fn numeric_test_ok(input: &str) {
    let padded = format!("{}x", input);
    assert_eq!(
        json_parse_numeric(input.as_bytes(), true).unwrap(),
        (input.len(), input.as_bytes().to_vec())
    );
    assert_eq!(
        json_parse_numeric(padded.as_bytes(), false).unwrap(),
        (input.len(), input.as_bytes().to_vec())
    );
    assert_eq!(
        json_parse_numeric(padded.as_bytes(), true).unwrap(),
        (input.len(), input.as_bytes().to_vec())
    );
}

fn string_test_ok(input: &str, output: &str) {
    assert_eq!(
        json_parse_string(input.as_bytes(), true).unwrap(),
        (input.len(), output.as_bytes().to_vec())
    );
}

#[test]
fn test_parse_ok() {
    let tests: &[&'static str] = &[
        "0", "-0", "1", "-1", "9", "-9", "100", "-100", "999", "-999", "0.0", "-0.0", "1.0",
        "-1.0", "9.0", "-9.0", "100.0", "-100.0", "999.0", "-999.0", "0.00", "0.001", "0.999",
        "1.00", "1.001", "1.999", "0e0", "0.1e0", "1.1e0", "-0e0", "-0.1e0", "-1.1e0", "0E0",
        "0.1E0", "1.1E0", "-0E0", "-0.1E0", "-1.1E0", "0E000", "0E999", "0E+000", "0E+999",
        "0E-000", "0E-999",
    ];
    for i in tests.iter() {
        numeric_test_ok(*i);
    }
}

#[test]
fn parse_strings() {
    string_test_ok(r#""""#, "");
    string_test_ok(r#""x""#, "x");
    string_test_ok(r#""foo""#, "foo");
    string_test_ok(r#""foo\bbar""#, "foo\u{8}bar");
    string_test_ok(r#""foo\tbar""#, "foo\tbar");
    string_test_ok(r#""foo\tbar""#, "foo\tbar");
    string_test_ok(r#""foo\nbar""#, "foo\nbar");
    string_test_ok(r#""foo\fbar""#, "foo\u{c}bar");
    string_test_ok(r#""foo\rbar""#, "foo\rbar");
    string_test_ok(r#""foo\u0000bar""#, "foo\0bar");
    string_test_ok(r#""foo\u0005bar""#, "foo\u{5}bar");
    string_test_ok(r#""foo\u1234bar""#, "foo\u{1234}bar");
    string_test_ok(r#""foo\uFFFDbar""#, "foo\u{fffd}bar");
    string_test_ok(r#""foo\ufffdbar""#, "foo\u{fffd}bar");
    string_test_ok(r#""foo\ud800\udc00bar""#, "foo\u{10000}bar");
    string_test_ok(r#""foo\ud800\udc01bar""#, "foo\u{10001}bar");
    string_test_ok(r#""foo\ud800\udfffbar""#, "foo\u{103FF}bar");
    string_test_ok(r#""foo\ud801\udc00bar""#, "foo\u{10400}bar");
    string_test_ok(r#""foo\udbff\udffdbar""#, "foo\u{10FFFD}bar");
    string_test_ok(r#""foo\b""#, "foo\u{8}");
    string_test_ok(r#""foo\t""#, "foo\t");
    string_test_ok(r#""foo\t""#, "foo\t");
    string_test_ok(r#""foo\n""#, "foo\n");
    string_test_ok(r#""foo\f""#, "foo\u{c}");
    string_test_ok(r#""foo\r""#, "foo\r");
    string_test_ok(r#""foo\u0000""#, "foo\0");
    string_test_ok(r#""foo\udbff\udffd""#, "foo\u{10FFFD}");
}

#[test]
fn parse_strings_invalid() {
    json_parse_string(r#"""#.as_bytes(), true).err().unwrap();
    json_parse_string(r#""\""#.as_bytes(), true).err().unwrap();
    json_parse_string(r#""\u""#.as_bytes(), true).err().unwrap();
    json_parse_string(r#""\u1""#.as_bytes(), true).err().unwrap();
    json_parse_string(r#""\u12""#.as_bytes(), true).err().unwrap();
    json_parse_string(r#""\u123""#.as_bytes(), true).err().unwrap();
    json_parse_string(r#""\ud800""#.as_bytes(), true).err().unwrap();
    json_parse_string(r#""\udbff""#.as_bytes(), true).err().unwrap();
    json_parse_string(r#""\udc00""#.as_bytes(), true).err().unwrap();
    json_parse_string(r#""\udfff""#.as_bytes(), true).err().unwrap();
    json_parse_string(r#""\ud800\""#.as_bytes(), true).err().unwrap();
    json_parse_string(r#""\ud800\u""#.as_bytes(), true).err().unwrap();
    json_parse_string(r#""\ud800\ud""#.as_bytes(), true).err().unwrap();
    json_parse_string(r#""\ud800\udc""#.as_bytes(), true).err().unwrap();
    json_parse_string(r#""\ud800\udc0""#.as_bytes(), true).err().unwrap();
    json_parse_string(r#""\ud800\udbff""#.as_bytes(), true).err().unwrap();
    json_parse_string(r#""\ud800\ue000"#.as_bytes(), true).err().unwrap();
}

#[test]
fn test_parse_numeric_zero_digits() {
    json_parse_numeric(b"01", false).err().unwrap();
    json_parse_numeric(b"01", true).err().unwrap();
}

#[test]
fn test_parse_numeric_trailing_crap() {
    json_parse_numeric(b"0.", false).err().unwrap();
    json_parse_numeric(b"0.", true).err().unwrap();
    json_parse_numeric(b"0e", false).err().unwrap();
    json_parse_numeric(b"0e", true).err().unwrap();
    json_parse_numeric(b"1.", false).err().unwrap();
    json_parse_numeric(b"1.", true).err().unwrap();
    json_parse_numeric(b"1e", false).err().unwrap();
    json_parse_numeric(b"1e", true).err().unwrap();
    json_parse_numeric(b"1.1e", false).err().unwrap();
    json_parse_numeric(b"1.1e", true).err().unwrap();
    json_parse_numeric(b"1.1e+", false).err().unwrap();
    json_parse_numeric(b"1.1e+", true).err().unwrap();
    json_parse_numeric(b"1.1e-", false).err().unwrap();
    json_parse_numeric(b"1.1e-", true).err().unwrap();
}

#[test]
fn test_parse_numeric_empty() {
    json_parse_numeric(b"", false).err().unwrap();
    json_parse_numeric(b"", true).err().unwrap();
}

#[test]
fn tokenizer_structural_and_literals() {
    assert_eq!(JsonToken::next(b"  [", true).unwrap(), (3, JsonToken::StartArray));
    assert_eq!(JsonToken::next(b"]", true).unwrap(), (1, JsonToken::EndArray));
    assert_eq!(JsonToken::next(b"{", true).unwrap(), (1, JsonToken::StartObject));
    assert_eq!(JsonToken::next(b"}", true).unwrap(), (1, JsonToken::EndObject));
    assert_eq!(JsonToken::next(b":", true).unwrap(), (1, JsonToken::DoubleColon));
    assert_eq!(JsonToken::next(b",", true).unwrap(), (1, JsonToken::Comma));
    assert_eq!(JsonToken::next(b"true", true).unwrap(), (4, JsonToken::Boolean(true)));
    assert_eq!(JsonToken::next(b"false!", true).unwrap(), (5, JsonToken::Boolean(false)));
    assert_eq!(JsonToken::next(b"null", true).unwrap(), (4, JsonToken::Null));
    assert_eq!(JsonToken::next(b" \t\r\n", true).unwrap(), (4, JsonToken::EndOfInput));
}

#[test]
fn tokenizer_literal_prefix_wants_more() {
    // A strict prefix of a literal is not an error while input may follow.
    assert!(matches!(JsonToken::next(b"tru", false), Err(JsonTokenError::TokenTooLong)));
    assert!(matches!(JsonToken::next(b"fal", false), Err(JsonTokenError::TokenTooLong)));
    assert!(matches!(JsonToken::next(b"nul", false), Err(JsonTokenError::TokenTooLong)));
    // At the end of input the same prefix is a hard mismatch.
    assert!(matches!(JsonToken::next(b"tru", true), Err(JsonTokenError::ExpectedTrue)));
    assert!(matches!(JsonToken::next(b"fal", true), Err(JsonTokenError::ExpectedFalse)));
    assert!(matches!(JsonToken::next(b"nul", true), Err(JsonTokenError::ExpectedNull)));
    assert!(matches!(JsonToken::next(b"trx", false), Err(JsonTokenError::ExpectedTrue)));
    assert!(matches!(JsonToken::next(b"@", true), Err(JsonTokenError::BadTokenInitial(64))));
}

#[test]
fn tokenizer_numbers_int_or_text() {
    assert_eq!(JsonToken::next(b"42,", true).unwrap(), (2, JsonToken::NumericInteger(42)));
    assert_eq!(JsonToken::next(b"-7 ", true).unwrap(), (2, JsonToken::NumericInteger(-7)));
    assert_eq!(
        JsonToken::next(b"9223372036854775807,", true).unwrap(),
        (19, JsonToken::NumericInteger(i64::MAX))
    );
    assert_eq!(
        JsonToken::next(b"-9223372036854775808,", true).unwrap(),
        (20, JsonToken::NumericInteger(i64::MIN))
    );
    assert_eq!(
        JsonToken::next(b"9223372036854775808,", true).unwrap(),
        (19, JsonToken::Numeric(b"9223372036854775808".to_vec()))
    );
    assert_eq!(
        JsonToken::next(b"1.5,", true).unwrap(),
        (3, JsonToken::Numeric(b"1.5".to_vec()))
    );
    assert_eq!(
        JsonToken::next(b"1e300,", true).unwrap(),
        (5, JsonToken::Numeric(b"1e300".to_vec()))
    );
}

#[test]
fn escape_json_string_mirrors_unescape() {
    assert_eq!(pbn::json::escape_json_string(b"plain"), b"plain".to_vec());
    assert_eq!(
        pbn::json::escape_json_string(b"a\"b\\c"),
        b"a\\\"b\\\\c".to_vec()
    );
    assert_eq!(
        pbn::json::escape_json_string(b"x\x01y\x1fz\n"),
        b"x\\u0001y\\u001fz\\u000a".to_vec()
    );
    // Escaping then unescaping gives the original back.
    let cases: &[&[u8]] = &[b"plain", b"a\"b\\c", b"x\x01y\x1fz\n", "\u{fffd}ok".as_bytes()];
    for c in cases {
        let mut quoted = vec![b'"'];
        quoted.extend_from_slice(&pbn::json::escape_json_string(c));
        quoted.push(b'"');
        let (n, decoded) = json_parse_string(&quoted, true).unwrap();
        assert_eq!(n, quoted.len());
        assert_eq!(&decoded, c);
    }
}
