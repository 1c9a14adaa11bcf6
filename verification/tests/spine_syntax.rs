use spine::lexer::Lexer;
use spine::parser::Parser;
use spine::token::Token;
use spine::value::{copy_value, Value};

/// A number value for the given double, written as the double prints.
fn num(x: f64) -> Value {
    Value::Number(format!("{x}"))
}

/// Structural equality in which numbers compare by their numeric value.
fn same(a: &Value, b: &Value) -> bool {
    match (a, b) {
        (Value::Number(x), Value::Number(y)) => x.parse::<f64>().unwrap() == y.parse::<f64>().unwrap(),
        (Value::Array(x), Value::Array(y)) => x.len() == y.len() && x.iter().zip(y).all(|(p, q)| same(p, q)),
        (Value::Object(x), Value::Object(y)) => {
            x.len() == y.len() && x.iter().zip(y).all(|(p, q)| p.0 == q.0 && same(&p.1, &q.1))
        }
        _ => a == b,
    }
}

fn assert_same(a: &Value, b: &Value) {
    assert!(same(a, b), "left: {a:?}\nright: {b:?}");
}

fn parse_ok(src: &str) -> Value {
    let tokens = Lexer::new(src).tokenize();
    Parser::new(tokens, src)
        .parse()
        .unwrap_or_else(|e| panic!("parse failed: {}", e.join("|")))
}

fn get_value(value: &Value, path: &[&str]) -> Value {
    copy_value(traverse_ref(value, path))
}

fn get_str(value: &Value, path: &[&str]) -> String {
    match get_value(value, path) {
        Value::String(s) => s,
        other => panic!("expected string, got {other:?}"),
    }
}

fn traverse_ref<'a>(value: &'a Value, path: &[&str]) -> &'a Value {
    let mut current = value;
    for key in path {
        match current {
            Value::Object(fields) => {
                let mut found = None;
                for (k, v) in fields.iter() {
                    if k == key {
                        found = Some(v);
                        break;
                    }
                }
                current = found.unwrap_or_else(|| panic!("key '{key}' not found"));
            }
            _ => panic!("expected object"),
        }
    }
    current
}

fn get_array<'a>(value: &'a Value, path: &[&str]) -> &'a Vec<Value> {
    match traverse_ref(value, path) {
        Value::Array(arr) => arr,
        _ => panic!("expected array"),
    }
}

fn get_object<'a>(value: &'a Value, path: &[&str]) -> &'a Vec<(String, Value)> {
    match traverse_ref(value, path) {
        Value::Object(fields) => fields,
        _ => panic!("expected object"),
    }
}

// ============================================================================
// Whitespace and Newlines
// ============================================================================

#[test]
fn test_blank_lines_ignored() {
    let src = "a = 1\n\n\nb = 2\n";
    let value = parse_ok(src);
    assert_same(&get_value(&value, &["a"]), &num(1.0));
    assert_same(&get_value(&value, &["b"]), &num(2.0));
}

#[test]
fn test_leading_whitespace_before_pipes() {
    let src = "obj\n  | key = val\n";
    let value = parse_ok(src);
    assert_eq!(get_value(&value, &["obj", "key"]), Value::String("val".into()));
}

#[test]
fn test_tabs_as_whitespace() {
    let src = "\t|\ta\t=\tb\n";
    let value = parse_ok(src);
    assert_eq!(get_value(&value, &["a"]), Value::String("b".into()));
}

#[test]
fn test_no_final_newline() {
    let src = "host = localhost";
    let value = parse_ok(src);
    assert_eq!(get_value(&value, &["host"]), Value::String("localhost".into()));
}

#[test]
fn test_final_newline_optional_blank_lines() {
    let src = "a = 1\n\n";
    let value = parse_ok(src);
    assert_same(&get_value(&value, &["a"]), &num(1.0));
}

#[test]
fn test_whitespace_significant_inside_values() {
    let src = "key =   spaced value  \n";
    let value = parse_ok(src);
    assert_eq!(get_value(&value, &["key"]), Value::String("spaced value".into()));
}

// ============================================================================
// Character Set — non-ASCII
// ============================================================================

#[test]
fn test_non_ascii_in_bare_value_preserved() {
    let src = "greeting = café\n";
    let value = parse_ok(src);
    assert_eq!(get_value(&value, &["greeting"]), Value::String("caf\u{e9}".into()));
}

#[test]
fn test_non_ascii_in_quoted_string_preserved() {
    let src = "greeting = \"café\"\n";
    let value = parse_ok(src);
    assert_eq!(get_value(&value, &["greeting"]), Value::String("caf\u{e9}".into()));
}

#[test]
fn test_non_ascii_in_identifier_should_be_error() {
    // Identifier characters are judged by `char::is_alphabetic`, so a
    // non-ASCII letter is part of an identifier.
    let src = "héllo = 1\n";
    let tokens = Lexer::new(src).tokenize();
    let has_ident = tokens.iter().any(|(t, _, _)| matches!(t, Token::Ident(_)));
    assert!(has_ident, "non-ASCII letters form an identifier, tokens: {tokens:?}");
}

// ============================================================================
// Carriage return in bare values and strings
// ============================================================================

#[test]
fn test_carriage_return_in_bare_value() {
    let src = "n = val\r41\n";
    let value = parse_ok(src);
    assert_eq!(get_value(&value, &["n"]), Value::String("val\r41".into()));
}

#[test]
fn test_carriage_return_in_quoted_string() {
    let src = "key = \"hello\rworld\"\n";
    let value = parse_ok(src);
    assert_eq!(get_value(&value, &["key"]), Value::String("hello\rworld".into()));
}

// ============================================================================
// Comments
// ============================================================================

#[test]
fn test_line_comment() {
    let src = "a = 1  # this is a comment\nb = 2\n";
    let value = parse_ok(src);
    assert_same(&get_value(&value, &["a"]), &num(1.0));
    assert_same(&get_value(&value, &["b"]), &num(2.0));
}

#[test]
fn test_line_comment_at_eof() {
    let src = "a = 1\n# no newline at EOF";
    let value = parse_ok(src);
    assert_same(&get_value(&value, &["a"]), &num(1.0));
}

#[test]
fn test_line_comment_between_statements() {
    let src = "a = 1\n# comment\nb = 2\n";
    let value = parse_ok(src);
    assert_same(&get_value(&value, &["a"]), &num(1.0));
    assert_same(&get_value(&value, &["b"]), &num(2.0));
}

#[test]
fn test_block_comment_multi_line() {
    let src = "a = 1\n/*\nmulti\nline\n*/\nb = 2\n";
    let value = parse_ok(src);
    assert_same(&get_value(&value, &["a"]), &num(1.0));
    assert_same(&get_value(&value, &["b"]), &num(2.0));
}

#[test]
fn test_block_comment_between_statements() {
    let src = "a = 1\n/* comment */\nb = 2\n";
    let value = parse_ok(src);
    assert_same(&get_value(&value, &["a"]), &num(1.0));
    assert_same(&get_value(&value, &["b"]), &num(2.0));
}

#[test]
fn test_nested_block_comments() {
    let src = "a = 1\n/* outer /* inner */ still outer */\nb = 2\n";
    let value = parse_ok(src);
    assert_same(&get_value(&value, &["a"]), &num(1.0));
    assert_same(&get_value(&value, &["b"]), &num(2.0));
}

#[test]
fn test_deeply_nested_block_comments() {
    let src = "a = 1\n/* /* /* deepest */ mid */ outer */\nb = 2\n";
    let value = parse_ok(src);
    assert_same(&get_value(&value, &["a"]), &num(1.0));
    assert_same(&get_value(&value, &["b"]), &num(2.0));
}

#[test]
fn test_empty_block_comment() {
    let src = "a = 1\n/**/\nb = 2\n";
    let value = parse_ok(src);
    assert_same(&get_value(&value, &["a"]), &num(1.0));
    assert_same(&get_value(&value, &["b"]), &num(2.0));
}

#[test]
fn test_block_comment_start_inside_quoted_string_is_literal() {
    let src = "key = \"/* not a comment */\"\n";
    let value = parse_ok(src);
    assert_eq!(get_value(&value, &["key"]), Value::String("/* not a comment */".into()));
}

#[test]
fn test_unterminated_block_comment() {
    let src = "key = value\n/* this comment never ends\n";
    let tokens = Lexer::new(src).tokenize();
    let result = Parser::new(tokens, src).parse();
    assert!(result.is_err());
    let errors = result.unwrap_err();
    assert!(errors[0].contains("unterminated block comment"));
}

// ============================================================================
// Identifiers
// ============================================================================

#[test]
fn test_identifier_with_hyphens() {
    let src = "scram-sha-256 = value\n";
    let value = parse_ok(src);
    assert_eq!(get_value(&value, &["scram-sha-256"]), Value::String("value".into()));
}

#[test]
fn test_identifier_with_underscore_start() {
    let src = "_private = val\n";
    let value = parse_ok(src);
    assert_eq!(get_value(&value, &["_private"]), Value::String("val".into()));
}

#[test]
fn test_identifier_single_letter() {
    let src = "x = 1\ny = 2\n";
    let value = parse_ok(src);
    assert_same(&get_value(&value, &["x"]), &num(1.0));
    assert_same(&get_value(&value, &["y"]), &num(2.0));
}

#[test]
fn test_underscore_sole_identifier() {
    let src = "_ = 1\n";
    let value = parse_ok(src);
    assert_same(&get_value(&value, &["_"]), &num(1.0));
}

#[test]
fn test_identifier_with_digits() {
    let src = "zone9 = value\nregion-1a = value\n";
    let value = parse_ok(src);
    assert_eq!(get_value(&value, &["zone9"]), Value::String("value".into()));
    assert_eq!(get_value(&value, &["region-1a"]), Value::String("value".into()));
}

// ============================================================================
// Bare-Value State
// ============================================================================

#[test]
fn test_bare_value_number() {
    let src = "port = 8080\n";
    let value = parse_ok(src);
    assert_same(&get_value(&value, &["port"]), &num(8080.0));
}

#[test]
fn test_bare_value_negative_number() {
    let src = "n = -42\nd = -3.14\n";
    let value = parse_ok(src);
    assert_same(&get_value(&value, &["n"]), &num(-42.0));
    assert_same(&get_value(&value, &["d"]), &num(-3.14));
}

#[test]
fn test_bare_value_zero() {
    let src = "z = 0\n";
    let value = parse_ok(src);
    assert_same(&get_value(&value, &["z"]), &num(0.0));
}

#[test]
fn test_bare_value_decimal() {
    let src = "pi = 3.14\n";
    let value = parse_ok(src);
    assert_same(&get_value(&value, &["pi"]), &num(3.14));
}

#[test]
fn test_bare_value_string() {
    let src = "host = localhost\n";
    let value = parse_ok(src);
    assert_eq!(get_value(&value, &["host"]), Value::String("localhost".into()));
}

#[test]
fn test_bare_value_url() {
    let src = "endpoint = https://telemetry.local/path?query=1\n";
    let value = parse_ok(src);
    assert_eq!(
        get_value(&value, &["endpoint"]),
        Value::String("https://telemetry.local/path?query=1".into())
    );
}

#[test]
fn test_bare_value_number_like_text() {
    let src = "size = 16GB\n";
    let value = parse_ok(src);
    assert_eq!(get_value(&value, &["size"]), Value::String("16GB".into()));
}

#[test]
fn test_bare_value_duration() {
    let src = "ttl = 300s\nwindow = 60s\n";
    let value = parse_ok(src);
    assert_eq!(get_value(&value, &["ttl"]), Value::String("300s".into()));
    assert_eq!(get_value(&value, &["window"]), Value::String("60s".into()));
}

#[test]
fn test_bare_value_timestamp() {
    let src = "ts = 2026-05-26T00:00:00Z\n";
    let value = parse_ok(src);
    assert_eq!(
        get_value(&value, &["ts"]),
        Value::String("2026-05-26T00:00:00Z".into())
    );
}

#[test]
fn test_bare_value_comment_terminates() {
    let src = "key = value # this is a comment\n";
    let value = parse_ok(src);
    assert_eq!(get_value(&value, &["key"]), Value::String("value".into()));
}

#[test]
fn test_bare_value_empty_after_equals() {
    let src = "key =\n";
    let value = parse_ok(src);
    assert_eq!(get_value(&value, &["key"]), Value::Null);
}

#[test]
fn test_bare_value_equals_whitespace_only() {
    let src = "key =   \n";
    let value = parse_ok(src);
    assert_eq!(get_value(&value, &["key"]), Value::Null);
}

#[test]
fn test_bare_value_after_dash_in_array() {
    let src = "items\n| - hello\n| - 42\n| - 3.14\n| - 16GB\n| - -7\n";
    let value = parse_ok(src);
    let arr = get_array(&value, &["items"]);
    assert_eq!(arr[0], Value::String("hello".into()));
    assert_same(&arr[1], &num(42.0));
    assert_same(&arr[2], &num(3.14));
    assert_eq!(arr[3], Value::String("16GB".into()));
    assert_same(&arr[4], &num(-7.0));
}

// ============================================================================
// Escape Sequences in Quoted Strings
// ============================================================================

#[test]
fn test_escape_newline() {
    let src = "key = \"line1\\nline2\"\n";
    let value = parse_ok(src);
    assert_eq!(get_value(&value, &["key"]), Value::String("line1\nline2".into()));
}

#[test]
fn test_escape_tab() {
    let src = "key = \"col1\\tcol2\"\n";
    let value = parse_ok(src);
    assert_eq!(get_value(&value, &["key"]), Value::String("col1\tcol2".into()));
}

#[test]
fn test_escape_backslash() {
    let src = "key = \"path\\\\to\\\\file\"\n";
    let value = parse_ok(src);
    assert_eq!(get_value(&value, &["key"]), Value::String("path\\to\\file".into()));
}

#[test]
fn test_escape_quote() {
    let src = "key = \"she said \\\"hello\\\"\"\n";
    let value = parse_ok(src);
    assert_eq!(get_value(&value, &["key"]), Value::String("she said \"hello\"".into()));
}

#[test]
fn test_escape_sequence_in_multi_line_string() {
    let src = "key = \"\"\"\n| tab\\there\n| quote\\\"here\n| \"\"\"\n";
    let value = parse_ok(src);
    let s = get_str(&value, &["key"]);
    assert!(s.contains("tab\there"), "expected tab in multiline, got: {s:?}");
    assert!(s.contains("quote\"here"), "expected quote in multiline, got: {s:?}");
}

// ============================================================================
// New escape sequences
// ============================================================================

#[test]
fn test_escape_carriage_return() {
    // \r → carriage return
    let src = "key = \"line1\\rline2\"\n";
    let value = parse_ok(src);
    assert_eq!(get_value(&value, &["key"]), Value::String("line1\rline2".into()));
}

#[test]
fn test_escape_null() {
    // \0 → null character
    let src = "key = \"null\\0char\"\n";
    let value = parse_ok(src);
    assert_eq!(get_value(&value, &["key"]), Value::String("null\0char".into()));
}

#[test]
fn test_escape_hex_byte() {
    // \xNN → character with hex value
    let src = "key = \"\\x41\\x42\\x43\"\n";
    let value = parse_ok(src);
    assert_eq!(get_value(&value, &["key"]), Value::String("ABC".into()));
}

#[test]
fn test_escape_hex_byte_lowercase() {
    // \xNN with lowercase hex digits
    let src = "key = \"\\x61\\x62\\x7a\"\n";
    let value = parse_ok(src);
    assert_eq!(get_value(&value, &["key"]), Value::String("abz".into()));
}

#[test]
fn test_escape_hex_byte_zero() {
    // \x00 → null byte
    let src = "key = \"a\\x00b\"\n";
    let value = parse_ok(src);
    assert_eq!(get_value(&value, &["key"]), Value::String("a\0b".into()));
}

#[test]
fn test_escape_hex_byte_ff() {
    // \xFF → 0xFF = 255 = 'ÿ'
    let src = "key = \"\\xff\"\n";
    let value = parse_ok(src);
    assert_eq!(get_value(&value, &["key"]), Value::String("\u{FF}".into()));
}

#[test]
fn test_escape_unicode_4digit() {
    // \uXXXX → Unicode scalar
    let src = "key = \"\\u0041\\u0042\\u0043\"\n";
    let value = parse_ok(src);
    assert_eq!(get_value(&value, &["key"]), Value::String("ABC".into()));
}

#[test]
fn test_escape_unicode_4digit_emoji() {
    // \uXXXX for non-ASCII
    let src = "key = \"\\u00e9\"\n";
    let value = parse_ok(src);
    assert_eq!(get_value(&value, &["key"]), Value::String("\u{00E9}".into()));
}

#[test]
fn test_escape_unicode_braced() {
    // \u{X...} → Unicode scalar
    let src = "key = \"\\u{41}\\u{42}\\u{43}\"\n";
    let value = parse_ok(src);
    assert_eq!(get_value(&value, &["key"]), Value::String("ABC".into()));
}

#[test]
fn test_escape_unicode_braced_multi_digit() {
    // \u{X...} with multiple hex digits
    let src = "key = \"\\u{1F600}\"\n";
    let value = parse_ok(src);
    assert_eq!(get_value(&value, &["key"]), Value::String("\u{1F600}".into()));
}

#[test]
fn test_escape_unicode_braced_max() {
    // \u{10FFFF} → max Unicode scalar
    let src = "key = \"\\u{10ffff}\"\n";
    let value = parse_ok(src);
    assert_eq!(get_value(&value, &["key"]), Value::String("\u{10FFFF}".into()));
}

// ============================================================================
// New escape error conditions
// ============================================================================

#[test]
fn test_escape_hex_invalid_digit_is_error() {
    // \xGG where G is not hex → lexical error
    let src = "key = \"\\xGG\"\n";
    let tokens = Lexer::new(src).tokenize();
    let has_lex_error = tokens.iter().any(|(t, _, _)| matches!(t, Token::Error(_)));
    assert!(has_lex_error, "\\xGG should produce lex error, tokens: {tokens:?}");
}

#[test]
fn test_escape_hex_one_digit_is_error() {
    // \xN (single hex digit) → lexical error (must be exactly 2)
    let src = "key = \"\\x4\"\n";
    let tokens = Lexer::new(src).tokenize();
    let has_lex_error = tokens.iter().any(|(t, _, _)| matches!(t, Token::Error(_)));
    assert!(has_lex_error, "\\x4 should produce lex error, tokens: {tokens:?}");
}

#[test]
fn test_escape_hex_three_digits_ok() {
    // \xNN takes exactly 2 hex digits; extra hex characters are literals
    let src = "key = \"\\x123\"\n";
    let value = parse_ok(src);
    assert_eq!(get_value(&value, &["key"]), Value::String("\u{12}3".into()));
}

#[test]
fn test_escape_unicode_surrogate_is_error() {
    // \uD800–\uDFFF are surrogates → lexical error
    let src = "key = \"\\uD800\"\n";
    let tokens = Lexer::new(src).tokenize();
    let msg = format!("\\uD800 surrogate should produce lex error, tokens: {tokens:?}");
    let has_lex_error = tokens.iter().any(|(t, _, _)| matches!(t, Token::Error(_)));
    assert!(has_lex_error, "{msg}");
}

#[test]
fn test_escape_unicode_braced_surrogate_is_error() {
    // \u{D800} is surrogate → lexical error
    let src = "key = \"\\u{D800}\"\n";
    let tokens = Lexer::new(src).tokenize();
    let msg = format!("surrogate should produce lex error, tokens: {tokens:?}");
    let has_lex_error = tokens.iter().any(|(t, _, _)| matches!(t, Token::Error(_)));
    assert!(has_lex_error, "{msg}");
}

#[test]
fn test_escape_unicode_out_of_range_is_error() {
    // \\u{110000} exceeds Unicode max → lexical error
    let src = "key = \"\\u{110000}\"\n";
    let tokens = Lexer::new(src).tokenize();
    let msg = format!("out of range should produce lex error, tokens: {tokens:?}");
    let has_lex_error = tokens.iter().any(|(t, _, _)| matches!(t, Token::Error(_)));
    assert!(has_lex_error, "{msg}");
}

#[test]
fn test_escape_unicode_braced_empty_is_error() {
    // \\u{} with empty braces → lexical error
    let src = "key = \"\\u{}\"\n";
    let tokens = Lexer::new(src).tokenize();
    let msg = format!("\\u{{}} should produce lex error, tokens: {tokens:?}");
    let has_lex_error = tokens.iter().any(|(t, _, _)| matches!(t, Token::Error(_)));
    assert!(has_lex_error, "{msg}");
}

// ============================================================================
// Lexical errors and bare values that are not numbers
// ============================================================================

#[test]
fn test_bad_escape_sequence_is_lex_error() {
    // Any character after a backslash that starts no escape is a lexical error.
    let src = "key = \"bad\\z\"\n";
    let tokens = Lexer::new(src).tokenize();
    let has_lex_error = tokens.iter().any(|(t, _, _)| matches!(t, Token::Error(_)));
    assert!(has_lex_error, "\\z should produce lex error, tokens: {tokens:?}");
}

#[test]
fn test_invalid_number_scientific_notation_is_string() {
    // No scientific notation: `1e10` is not a Spine number, so it is a string.
    let src = "n = 1e10\n";
    let value = parse_ok(src);
    assert_eq!(get_value(&value, &["n"]), Value::String("1e10".into()));
}

#[test]
fn test_leading_dot_in_bare_value() {
    // A number needs a digit before '.', and after `=` the bare value takes
    // `.5` whole: `.` is no syntax character there.
    let src = "n = .5\n";
    let tokens = Lexer::new(src).tokenize();
    let dot_count = tokens.iter().filter(|(t, _, _)| matches!(t, Token::Dot)).count();
    assert_eq!(dot_count, 0, "`.` after `=` should be consumed as bare value, tokens: {tokens:?}");
}

// Numbers take only a '-' sign; '+' is an ordinary bare-value character.
#[test]
fn test_plus_in_bare_value_should_be_valid() {
    let src = "n = +1\n";
    let tokens = Lexer::new(src).tokenize();
    let has_plus_unknown = tokens.iter().any(|(t, _, _)| matches!(t, Token::Unknown('+')));
    assert!(!has_plus_unknown, "'+' should not be Unknown, tokens: {tokens:?}");
    // "+1" is no number, so it stays a string.
    let value_str = tokens.iter().find_map(|(t, _, _)| match t {
        Token::Str(s) => Some(s.clone()),
        _ => None,
    });
    assert_eq!(value_str, Some("+1".into()), "should produce Str(\"+1\"), tokens: {tokens:?}");
}

#[test]
fn test_invalid_number_hex_is_string() {
    // No hex literals.
    let src = "n = 0xFF\n";
    let value = parse_ok(src);
    assert_eq!(get_value(&value, &["n"]), Value::String("0xFF".into()));
}

#[test]
fn test_invalid_number_underscore_is_string() {
    // No underscores in numbers.
    let src = "n = 1_000\n";
    let value = parse_ok(src);
    assert_eq!(get_value(&value, &["n"]), Value::String("1_000".into()));
}

// ============================================================================
// Null
// ============================================================================

#[test]
fn test_null_keyword_as_value_not_recognized() {
    // After `=`, the bare value `null` is a string.
    // The keyword is recognized only outside bare-value context.
    let src = "n = null\n";
    let value = parse_ok(src);
    assert_eq!(get_value(&value, &["n"]), Value::String("null".into()));
}

// `null`, `true`, `false` are keywords and cannot be used as key names.

#[test]
fn test_array_empty_dash_produces_null() {
    let src = "arr\n| -\n| -\n";
    let value = parse_ok(src);
    let arr = get_array(&value, &["arr"]);
    assert_eq!(arr[0], Value::Null);
    assert_eq!(arr[1], Value::Null);
}

// ============================================================================
// Boolean
// ============================================================================

#[test]
fn test_bool_as_bare_string() {
    // After `=`, the bare values `true` and `false` are strings.
    let src = "a = true\nb = false\n";
    let value = parse_ok(src);
    assert_eq!(get_value(&value, &["a"]), Value::String("true".into()));
    assert_eq!(get_value(&value, &["b"]), Value::String("false".into()));
}

#[test]
fn test_bool_in_value_position() {
    // Used as values after `=`, `true`/`false` are bare strings
    let src = "a = true\nb = false\n";
    let value = parse_ok(src);
    assert_eq!(get_value(&value, &["a"]), Value::String("true".into()));
    assert_eq!(get_value(&value, &["b"]), Value::String("false".into()));
}

// ============================================================================
// Number
// ============================================================================

#[test]
fn test_number_zero() {
    let src = "z = 0\n";
    let value = parse_ok(src);
    assert_same(&get_value(&value, &["z"]), &num(0.0));
}

#[test]
fn test_number_positive() {
    let src = "n = 42\n";
    let value = parse_ok(src);
    assert_same(&get_value(&value, &["n"]), &num(42.0));
}

#[test]
fn test_number_negative() {
    let src = "n = -42\n";
    let value = parse_ok(src);
    assert_same(&get_value(&value, &["n"]), &num(-42.0));
}

#[test]
fn test_number_decimal() {
    let src = "n = 3.14\n";
    let value = parse_ok(src);
    assert_same(&get_value(&value, &["n"]), &num(3.14));
}

#[test]
fn test_number_negative_decimal() {
    let src = "n = -0.5\n";
    let value = parse_ok(src);
    assert_same(&get_value(&value, &["n"]), &num(-0.5));
}

#[test]
fn test_number_in_array() {
    let src = "nums\n| - 10\n| - 20\n| - 30\n| - -5\n";
    let value = parse_ok(src);
    let arr = get_array(&value, &["nums"]);
    assert_same(&arr[0], &num(10.0));
    assert_same(&arr[1], &num(20.0));
    assert_same(&arr[2], &num(30.0));
    assert_same(&arr[3], &num(-5.0));
}

// ============================================================================
// String
// ============================================================================

#[test]
fn test_empty_quoted_string() {
    let src = "key = \"\"\n";
    let value = parse_ok(src);
    assert_eq!(get_value(&value, &["key"]), Value::String("".into()));
}

#[test]
fn test_quoted_string_simple() {
    let src = "key = \"hello\"\n";
    let value = parse_ok(src);
    assert_eq!(get_value(&value, &["key"]), Value::String("hello".into()));
}

#[test]
fn test_quoted_string_with_spaces() {
    let src = "key = \"hello world\"\n";
    let value = parse_ok(src);
    assert_eq!(get_value(&value, &["key"]), Value::String("hello world".into()));
}

#[test]
fn test_quoted_string_preserves_leading_trailing_whitespace() {
    let src = "key = \"  spaced  \"\n";
    let value = parse_ok(src);
    assert_eq!(get_value(&value, &["key"]), Value::String("  spaced  ".into()));
}

#[test]
fn test_unterminated_string() {
    let src = "key = \"hello world\n";
    let tokens = Lexer::new(src).tokenize();
    let result = Parser::new(tokens, src).parse();
    assert!(result.is_err());
    let errors = result.unwrap_err();
    assert!(errors[0].contains("unterminated string"));
}

#[test]
fn test_multiline_string_basic() {
    let src = "q = \"\"\"\n| hello\n| world\n| \"\"\"\n";
    let value = parse_ok(src);
    assert_eq!(get_str(&value, &["q"]), "hello\nworld");
}

#[test]
fn test_multiline_string_empty() {
    let src = "q = \"\"\"\n| \"\"\"\n";
    let value = parse_ok(src);
    assert_eq!(get_str(&value, &["q"]), "");
}

#[test]
fn test_multiline_string_preserves_whitespace() {
    let src = "q = \"\"\"\n| hello   world\n|   indented\n| \"\"\"\n";
    let value = parse_ok(src);
    assert_eq!(get_str(&value, &["q"]), "hello   world\n  indented");
}

#[test]
fn test_multiline_string_empty_lines() {
    let src = "q = \"\"\"\n| line1\n|\n| line3\n| \"\"\"\n";
    let value = parse_ok(src);
    assert_eq!(get_str(&value, &["q"]), "line1\n\nline3");
}

#[test]
fn test_multiline_string_at_deeper_depth() {
    let src = "obj\n| q = \"\"\"\n| | content here\n| | more content\n| | \"\"\"\n";
    let value = parse_ok(src);
    assert_eq!(get_str(&value, &["obj", "q"]), "content here\nmore content");
}

#[test]
fn test_multiline_string_unterminated() {
    let src = "key = \"\"\"\n| hello\n| world\n";
    let tokens = Lexer::new(src).tokenize();
    let result = Parser::new(tokens, src).parse();
    assert!(result.is_err());
    let errors = result.unwrap_err();
    assert!(errors[0].contains("unterminated multiline string"));
}

// ============================================================================
// Tagged
// ============================================================================

#[test]
fn test_tagged_literal_simple() {
    let src = "created = date\"2026-05-26\"\n";
    let value = parse_ok(src);
    assert!(matches!(get_value(&value, &["created"]), Value::Tagged(t, _) if t == "date"));
}

#[test]
fn test_tagged_literal_dotted() {
    let src = "expires = std.date\"2027-01-01\"\n";
    let value = parse_ok(src);
    assert!(matches!(get_value(&value, &["expires"]), Value::Tagged(t, _) if t == "std.date"));
}

#[test]
fn test_tagged_literal_content() {
    let src = "hash = base64\"c3BpbmUtZnVsbC1leGFtcGxl\"\n";
    let value = parse_ok(src);
    let (tag, content) = match &get_value(&value, &["hash"]) {
        Value::Tagged(t, c) => (t.clone(), c.clone()),
        _ => panic!("expected tagged"),
    };
    assert_eq!(tag, "base64");
    assert_eq!(content, "c3BpbmUtZnVsbC1leGFtcGxl");
}

#[test]
fn test_tagged_literal_empty_content() {
    let src = "empty = tag\"\"\n";
    let value = parse_ok(src);
    let (tag, content) = match &get_value(&value, &["empty"]) {
        Value::Tagged(t, c) => (t.clone(), c.clone()),
        _ => panic!("expected tagged"),
    };
    assert_eq!(tag, "tag");
    assert_eq!(content, "");
}

#[test]
fn test_tagged_literal_with_escape_sequences() {
    let src = "v = t\"hello\\nworld\"\n";
    let value = parse_ok(src);
    match &get_value(&value, &["v"]) {
        Value::Tagged(tag, content) => {
            assert_eq!(tag, "t");
            assert_eq!(content, "hello\nworld");
        }
        other => panic!("expected Tagged, got {other:?}"),
    }
}

#[test]
fn test_tagged_literal_deeply_nested_tag() {
    let src = "v = a.b.c\"value\"\n";
    let value = parse_ok(src);
    assert!(matches!(&get_value(&value, &["v"]), Value::Tagged(t, _) if t == "a.b.c"));
}

// ============================================================================
// Key-Value Assignment
// ============================================================================

#[test]
fn test_simple_key_value() {
    let src = "key = value\n";
    let value = parse_ok(src);
    assert_eq!(get_value(&value, &["key"]), Value::String("value".into()));
}

#[test]
fn test_multiple_key_values() {
    let src = "a = 1\nb = 2\nc = 3\n";
    let value = parse_ok(src);
    assert_same(&get_value(&value, &["a"]), &num(1.0));
    assert_same(&get_value(&value, &["b"]), &num(2.0));
    assert_same(&get_value(&value, &["c"]), &num(3.0));
}

#[test]
fn test_key_value_all_types() {
    let src = "a = null\nb = true\nc = 42\nd = hello\ne = \"quoted\"\nf = tag\"content\"\n";
    let value = parse_ok(src);
    assert_eq!(get_value(&value, &["a"]), Value::String("null".into()));
    assert_eq!(get_value(&value, &["b"]), Value::String("true".into()));
    assert_same(&get_value(&value, &["c"]), &num(42.0));
    assert_eq!(get_value(&value, &["d"]), Value::String("hello".into()));
    assert_eq!(get_value(&value, &["e"]), Value::String("quoted".into()));
    assert!(matches!(&get_value(&value, &["f"]), Value::Tagged(t, _) if t == "tag"));
}

#[test]
fn test_key_value_unusual_chars_in_value() {
    let src = "url = https://example.com/path?query=1&foo=bar\n";
    let value = parse_ok(src);
    assert_eq!(
        get_value(&value, &["url"]),
        Value::String("https://example.com/path?query=1&foo=bar".into())
    );
}

// ============================================================================
// Implicit Objects
// ============================================================================

#[test]
fn test_implicit_object() {
    let src = "server\n| host = localhost\n| port = 8080\n";
    let value = parse_ok(src);
    assert_eq!(get_value(&value, &["server", "host"]), Value::String("localhost".into()));
    assert_same(&get_value(&value, &["server", "port"]), &num(8080.0));
}

#[test]
fn test_deeply_nested_object() {
    let src = "a\n| b\n| | c\n| | | d = deep\n";
    let value = parse_ok(src);
    assert_eq!(get_value(&value, &["a", "b", "c", "d"]), Value::String("deep".into()));
}

#[test]
fn test_object_with_siblings() {
    let src = "obj\n| a = 1\n| b = 2\n";
    let value = parse_ok(src);
    let obj = get_object(&value, &["obj"]);
    assert_eq!(obj.len(), 2);
    assert_eq!(obj[0].0, "a");
    assert_eq!(obj[1].0, "b");
}

#[test]
fn test_object_order_preserved() {
    let src = "obj\n| z = last\n| a = first\n| m = middle\n";
    let value = parse_ok(src);
    let obj = get_object(&value, &["obj"]);
    assert_eq!(obj[0].0, "z");
    assert_eq!(obj[1].0, "a");
    assert_eq!(obj[2].0, "m");
}

// ============================================================================
// Dotted Paths
// ============================================================================

#[test]
fn test_dotted_path_creates_nested_objects() {
    let src = "system.runtime.env = production\n";
    let value = parse_ok(src);
    assert_eq!(
        get_value(&value, &["system", "runtime", "env"]),
        Value::String("production".into())
    );
}

#[test]
fn test_dotted_path_multiple_levels() {
    let src = "a.b.c.d.e = deep\n";
    let value = parse_ok(src);
    assert_eq!(
        get_value(&value, &["a", "b", "c", "d", "e"]),
        Value::String("deep".into())
    );
}

#[test]
fn test_dotted_path_and_implicit_object_mixed() {
    let src = "system.runtime\n| env = production\n| region = eu-central-1\n";
    let value = parse_ok(src);
    assert_eq!(
        get_value(&value, &["system", "runtime", "env"]),
        Value::String("production".into())
    );
    assert_eq!(
        get_value(&value, &["system", "runtime", "region"]),
        Value::String("eu-central-1".into())
    );
}

// ============================================================================
// Array Blocks
// ============================================================================

#[test]
fn test_array_plain_strings() {
    let src = "regions\n| - eu-central-1\n| - eu-west-1\n| - us-east-1\n";
    let value = parse_ok(src);
    let arr = get_array(&value, &["regions"]);
    assert_eq!(arr.len(), 3);
    assert_eq!(arr[0], Value::String("eu-central-1".into()));
    assert_eq!(arr[1], Value::String("eu-west-1".into()));
    assert_eq!(arr[2], Value::String("us-east-1".into()));
}

#[test]
fn test_array_numbers() {
    let src = "nums\n| - 10\n| - 20\n| - 30\n";
    let value = parse_ok(src);
    let arr = get_array(&value, &["nums"]);
    assert_same(&arr[0], &num(10.0));
    assert_same(&arr[1], &num(20.0));
    assert_same(&arr[2], &num(30.0));
}

#[test]
fn test_array_empty_elements() {
    let src = "arr\n| -\n| - val\n| -\n";
    let value = parse_ok(src);
    let arr = get_array(&value, &["arr"]);
    assert_eq!(arr.len(), 3);
    assert_eq!(arr[0], Value::Null);
    assert_eq!(arr[1], Value::String("val".into()));
    assert_eq!(arr[2], Value::Null);
}

#[test]
fn test_array_objects() {
    let src = "features\n| -\n| | name = new-ui\n| | enabled = true\n| -\n| | name = dark-mode\n| | enabled = false\n";
    let value = parse_ok(src);
    let arr = get_array(&value, &["features"]);
    assert_eq!(arr.len(), 2);
    let first = match &arr[0] {
        Value::Object(fields) => fields,
        _ => panic!("expected object"),
    };
    assert!(first.iter().any(|(k, v)| k == "name" && v == &Value::String("new-ui".into())));
    assert!(first.iter().any(|(k, v)| k == "enabled" && v == &Value::String("true".into())));
    let second = match &arr[1] {
        Value::Object(fields) => fields,
        _ => panic!("expected object"),
    };
    assert!(second.iter().any(|(k, v)| k == "name" && v == &Value::String("dark-mode".into())));
    assert!(second.iter().any(|(k, v)| k == "enabled" && v == &Value::String("false".into())));
}

#[test]
fn test_array_objects_with_multiple_fields() {
    let src = "items\n| -\n| | a = 1\n| | b = 2\n| | c = 3\n";
    let value = parse_ok(src);
    let arr = get_array(&value, &["items"]);
    assert_eq!(arr.len(), 1);
}

#[test]
fn test_array_with_negative_number_element() {
    let src = "temps\n| - -5\n| - 0\n| - 10\n";
    let value = parse_ok(src);
    let arr = get_array(&value, &["temps"]);
    assert_same(&arr[0], &num(-5.0));
    assert_same(&arr[1], &num(0.0));
    assert_same(&arr[2], &num(10.0));
}

#[test]
fn test_array_dash_at_eof_produces_null() {
    let src = "arr\n| -";
    let value = parse_ok(src);
    let arr = get_array(&value, &["arr"]);
    assert_eq!(arr.len(), 1);
    assert_eq!(arr[0], Value::Null);
}

// ============================================================================
// Append
// ============================================================================

#[test]
fn test_append_creates_array() {
    let src = "~packages\n| name = react\n";
    let value = parse_ok(src);
    let arr = get_array(&value, &["packages"]);
    assert_eq!(arr.len(), 1);
}

#[test]
fn test_append_multiple() {
    let src = "~packages\n| name = react\n~packages\n| name = vue\n";
    let value = parse_ok(src);
    let arr = get_array(&value, &["packages"]);
    assert_eq!(arr.len(), 2);
}

#[test]
fn test_append_preserves_order() {
    let src = "~items\n| n = first\n~items\n| n = second\n~items\n| n = third\n";
    let value = parse_ok(src);
    let arr = get_array(&value, &["items"]);
    assert_eq!(arr.len(), 3);
}

#[test]
fn test_dotted_append() {
    let src = "server\n| host = localhost\n~server.users\n| name = alice\n~server.users\n| name = bob\n";
    let value = parse_ok(src);
    let server = get_object(&value, &["server"]);
    let users_idx = server.iter().position(|(k, _)| k == "users").expect("no users");
    let users = match &server[users_idx].1 {
        Value::Array(arr) => arr,
        _ => panic!("expected array"),
    };
    assert_eq!(users.len(), 2);
}

#[test]
fn test_dotted_append_auto_creates_path() {
    // ~a.b.c creates array at c; child {val=1} is the first element
    let src = "~a.b.c\n| val = 1\n";
    let value = parse_ok(src);
    let c_arr = get_array(&value, &["a", "b", "c"]);
    assert_eq!(c_arr.len(), 1);
    let first = &c_arr[0];
    match first {
        Value::Object(fields) => {
            let val = fields.iter().find(|(k, _)| k == "val").unwrap();
            assert_same(&val.1, &num(1.0));
        }
        _ => panic!("expected object in array"),
    }
}

#[test]
fn test_append_type_conflict() {
    let src = "mode = production\n~mode\n| env = staging\n";
    let tokens = Lexer::new(src).tokenize();
    let result = Parser::new(tokens, src).parse();
    assert!(result.is_err());
    let errors = result.unwrap_err();
    assert!(errors.iter().any(|e| e.contains("type-conflict")));
}

#[test]
fn test_append_dotted_path_type_conflict() {
    let src = "server = localhost\n~server.users\n| name = alice\n";
    let tokens = Lexer::new(src).tokenize();
    let result = Parser::new(tokens, src).parse();
    assert!(result.is_err());
    let errors = result.unwrap_err();
    assert!(errors.iter().any(|e| e.contains("type-conflict")));
}

#[test]
fn test_append_tilde_at_eof_no_children() {
    // `~path` at the end of the input, with no child statement, appends null.
    let src = "~orphan";
    let tokens = Lexer::new(src).tokenize();
    let result = Parser::new(tokens, src).parse();
    assert!(result.is_ok(), "tilde at end of input is accepted");
}

// ============================================================================
// Indentation — pipe alignment
// ============================================================================

#[test]
fn test_leading_whitespace_before_pipe_equivalent_to_no_whitespace() {
    let src = "obj\n  | key = 1\n";
    let value = parse_ok(src);
    assert_same(&get_value(&value, &["obj", "key"]), &num(1.0));
}

#[test]
fn test_multiple_pipes_on_one_line_indent_deeply() {
    let src = "root\n| mid\n| | deep = val\n";
    let value = parse_ok(src);
    assert_eq!(get_value(&value, &["root", "mid", "deep"]), Value::String("val".into()));
}

// ============================================================================
// Error Handling
// ============================================================================

#[test]
fn test_duplicate_key_error() {
    let src = "host = localhost\nhost = example.com\n";
    let tokens = Lexer::new(src).tokenize();
    let result = Parser::new(tokens, src).parse();
    assert!(result.is_err());
    let errors = result.unwrap_err();
    assert!(errors.iter().any(|e| e.contains("duplicate-key")));
    assert_eq!(errors.len(), 1);
}

#[test]
fn test_duplicate_key_deep_in_object() {
    let src = "database\n| host = db.local\n| host = db.remote\n";
    let tokens = Lexer::new(src).tokenize();
    let result = Parser::new(tokens, src).parse();
    assert!(result.is_err());
    let errors = result.unwrap_err();
    assert!(errors.iter().any(|e| e.contains("duplicate-key")));
}

#[test]
fn test_duplicate_key_object_merge() {
    // When both values are objects, they should be merged not errored.
    let src = "obj\n| a = 1\nobj\n| b = 2\n";
    let value = parse_ok(src);
    assert_same(&get_value(&value, &["obj", "a"]), &num(1.0));
    assert_same(&get_value(&value, &["obj", "b"]), &num(2.0));
}

#[test]
fn test_type_conflict_scalar_vs_object() {
    let src = "server = localhost\nserver\n| port = 8080\n";
    let tokens = Lexer::new(src).tokenize();
    let result = Parser::new(tokens, src).parse();
    assert!(result.is_err());
    let errors = result.unwrap_err();
    assert!(errors.iter().any(|e| e.contains("type-conflict")));
}

#[test]
fn test_type_conflict_object_vs_scalar() {
    let src = "server\n| host = localhost\nserver = localhost\n";
    let tokens = Lexer::new(src).tokenize();
    let result = Parser::new(tokens, src).parse();
    assert!(result.is_err());
    let errors = result.unwrap_err();
    assert!(errors.iter().any(|e| e.contains("type-conflict")));
}

#[test]
fn test_error_accumulation() {
    let src = "server = localhost\nserver\n| port = 8080\nhost = localhost\nhost = example.com\n";
    let tokens = Lexer::new(src).tokenize();
    let result = Parser::new(tokens, src).parse();
    assert!(result.is_err());
    let errors = result.unwrap_err();
    assert!(errors.len() >= 2);
}

#[test]
fn test_unknown_character() {
    let src = "key = val\n{invalid}\n";
    let tokens = Lexer::new(src).tokenize();
    let result = Parser::new(tokens, src).parse();
    assert!(result.is_err());
    let errors = result.unwrap_err();
    assert!(errors.iter().any(|e| e.contains("unexpected-character")));
}

#[test]
fn test_errors_include_source_location() {
    let src = "host = localhost\nhost = example.com\n";
    let tokens = Lexer::new(src).tokenize();
    let result = Parser::new(tokens, src).parse();
    let errors = result.unwrap_err();
    assert!(errors[0].contains("2:"), "expected line:col in error: {errors:?}");
}

#[test]
fn test_error_accumulation_lexer_and_parser() {
    let src = "host = localhost\nhost = example.com\nkey = \"unterminated\n";
    let tokens = Lexer::new(src).tokenize();
    let result = Parser::new(tokens, src).parse();
    assert!(result.is_err());
    let errors = result.unwrap_err();
    assert!(errors.len() >= 2);
}

// ============================================================================
// Lexical error message format
// ============================================================================

#[test]
fn test_unterminated_string_error_includes_location() {
    let src = "key = \"hello\n";
    let tokens = Lexer::new(src).tokenize();
    let result = Parser::new(tokens, src).parse();
    let errors = result.unwrap_err();
    assert!(errors[0].contains("1:"), "missing location: {errors:?}");
    assert!(errors[0].contains("unterminated string"), "wrong message: {errors:?}");
}

#[test]
fn test_unterminated_multiline_string_error_includes_location() {
    let src = "key = \"\"\"\n| content\n";
    let tokens = Lexer::new(src).tokenize();
    let result = Parser::new(tokens, src).parse();
    let errors = result.unwrap_err();
    assert!(errors[0].contains("1:"), "missing location: {errors:?}");
    assert!(errors[0].contains("unterminated multiline"), "wrong message: {errors:?}");
}

#[test]
fn test_unterminated_block_comment_error_includes_location() {
    let src = "/* never\ncloses\n";
    let tokens = Lexer::new(src).tokenize();
    let result = Parser::new(tokens, src).parse();
    let errors = result.unwrap_err();
    assert!(errors[0].contains("1:"), "missing location: {errors:?}");
    assert!(errors[0].contains("unterminated block comment"), "wrong message: {errors:?}");
}

#[test]
fn test_unexpected_character_error_includes_location() {
    let src = "key = val\n@invalid\n";
    let tokens = Lexer::new(src).tokenize();
    let result = Parser::new(tokens, src).parse();
    let errors = result.unwrap_err();
    assert!(errors.iter().any(|e| e.contains("2:")), "missing location: {errors:?}");
    assert!(errors.iter().any(|e| e.contains("unexpected-character") || e.contains("unexpected character")), "wrong message: {errors:?}");
}

#[test]
fn test_duplicate_key_error_includes_locations() {
    let src = "host = localhost\nhost = example.com\n";
    let tokens = Lexer::new(src).tokenize();
    let result = Parser::new(tokens, src).parse();
    let errors = result.unwrap_err();
    assert!(errors[0].contains("2:"), "missing second-def location: {errors:?}");
}

// ============================================================================
// Top-Level Document (integration)
// ============================================================================

#[test]
fn test_empty_document() {
    let src = "";
    let value = parse_ok(src);
    assert_eq!(value, Value::Object(Vec::new()));
}

#[test]
fn test_only_comments() {
    let src = "# just a comment\n/* block */\n# another\n";
    let value = parse_ok(src);
    assert_eq!(value, Value::Object(Vec::new()));
}

#[test]
fn test_only_whitespace_and_newlines() {
    let src = "  \n\n  \n";
    let value = parse_ok(src);
    assert_eq!(value, Value::Object(Vec::new()));
}

#[test]
fn test_root_order_preserved() {
    let src = "z = 1\na = 2\nm = 3\n";
    let value = parse_ok(src);
    let fields = match value {
        Value::Object(fields) => fields,
        _ => panic!("expected object"),
    };
    assert_eq!(fields[0].0, "z");
    assert_eq!(fields[1].0, "a");
    assert_eq!(fields[2].0, "m");
}

#[test]
fn test_sibling_objects() {
    let src = "alpha\n| x = 1\nbeta\n| y = 2\n";
    let value = parse_ok(src);
    assert_same(&get_value(&value, &["alpha", "x"]), &num(1.0));
    assert_same(&get_value(&value, &["beta", "y"]), &num(2.0));
}

#[test]
fn test_array_and_object_mixed_depth() {
    let src = "root\n| items\n| | - a\n| | - b\n| scalar = val\n";
    let value = parse_ok(src);
    assert_eq!(get_value(&value, &["root", "scalar"]), Value::String("val".into()));
    let items = get_array(&value, &["root", "items"]);
    assert_eq!(items.len(), 2);
}

#[test]
fn test_unknown_with_spine_errors() {
    let src = "host = localhost\nhost = example.com\n{wat}\n";
    let tokens = Lexer::new(src).tokenize();
    let result = Parser::new(tokens, src).parse();
    assert!(result.is_err());
    let errors = result.unwrap_err();
    assert!(errors.len() >= 2);
}

// ============================================================================
// Multiline String edge cases
// ============================================================================

#[test]
fn test_multiline_string_with_special_chars() {
    let src = "q = \"\"\"\n| /slash/  #not a comment\n| $$pecial   {}[]\n| \"\"\"\n";
    let value = parse_ok(src);
    let s = get_str(&value, &["q"]);
    assert!(s.contains("/slash/"), "got: {s:?}");
    assert!(s.contains("$$pecial"), "got: {s:?}");
    assert!(s.contains("{}[]"), "got: {s:?}");
}

#[test]
fn test_multiline_string_closing_at_higher_depth() {
    let src = "obj\n| q = \"\"\"\n| | content\n| | \"\"\"\n";
    let value = parse_ok(src);
    assert_eq!(get_str(&value, &["obj", "q"]), "content");
}

// ============================================================================
// Mixed arrays with objects and scalars
// ============================================================================

#[test]
fn test_array_object_with_sub_array() {
    let src = "cfg\n| -\n| | name = test\n| | tags\n| | | - a\n| | | - b\n";
    let value = parse_ok(src);
    let arr = get_array(&value, &["cfg"]);
    assert_eq!(arr.len(), 1);
    let obj = match &arr[0] {
        Value::Object(fields) => fields,
        _ => panic!("expected object"),
    };
    let tags = obj.iter().find(|(k, _)| k == "tags").unwrap();
    let tags_arr = match &tags.1 {
        Value::Array(arr) => arr,
        _ => panic!("expected array"),
    };
    assert_eq!(tags_arr.len(), 2);
}

// ============================================================================
// Bare-value edge cases (negative numbers and special patterns in arrays)
// ============================================================================

#[test]
fn test_dash_followed_by_negative_number() {
    // After `-` (dash), bare-value state is set. `-5` should be consumed
    // as a bare value and parsed as Number(-5.0).
    let src = "vals\n| - -5\n| - -3.14\n| - --text\n";
    let value = parse_ok(src);
    let arr = get_array(&value, &["vals"]);
    assert_same(&arr[0], &num(-5.0));
    assert_same(&arr[1], &num(-3.14));
    assert_eq!(arr[2], Value::String("--text".into()));
}

// ============================================================================
// Import from file
// ============================================================================


// ============================================================================
// Helpers
// ============================================================================


// ============================================================================
// Basic documents
// ============================================================================

#[test]
fn test_basic() {
    let mut lexer = Lexer::new("server\n| host = localhost\n| port = 8080\n");
    let tokens = lexer.tokenize();
    println!("{:?}", tokens);
}

#[test]
fn test_basic_lexer() {
    let mut lexer = Lexer::new("server\n| host = localhost\n| port = 8080\n");
    let tokens = lexer.tokenize();
    println!("{tokens:?}");
}

#[test]
fn test_basic_object() {
    let src = "server\n| host = localhost\n| port = 8080\n";
    let tokens = Lexer::new(src).tokenize();
    let value = Parser::new(tokens, src).parse().unwrap();
    println!("{value:?}");

    if let Value::Object(fields) = value {
        assert_eq!(fields[0].0, "server");
    } else {
        panic!("expected object");
    }
}

#[test]
fn test_append() {
    let src = "~packages\n| name = react\n~packages\n| name = vue\n";
    let tokens = Lexer::new(src).tokenize();
    let value = Parser::new(tokens, src).parse().unwrap();
    println!("{value:?}");

    if let Value::Object(fields) = value {
        if let Value::Array(arr) = &fields[0].1 {
            assert_eq!(arr.len(), 2);
        } else {
            panic!("expected array");
        }
    } else {
        panic!("expected object");
    }
}

#[test]
fn test_array_block() {
    let src = "features\n| - auth\n| - sync\n| - metrics\n";
    let tokens = Lexer::new(src).tokenize();
    let value = Parser::new(tokens, src).parse().unwrap();
    println!("{value:?}");

    if let Value::Object(fields) = value {
        if let Value::Array(arr) = &fields[0].1 {
            assert_eq!(arr.len(), 3);
        } else {
            panic!("expected array");
        }
    } else {
        panic!("expected object");
    }
}

#[test]
fn tests_test_array_objects() {
    let src = "array\n| -\n| | message = \"Works\"\n| -\n| | message = \"yeah\"\n";
    let tokens = Lexer::new(src).tokenize();
    let value = Parser::new(tokens, src).parse().unwrap();
    println!("{value:?}");

    if let Value::Object(fields) = value {
        if let Value::Array(arr) = &fields[0].1 {
            assert_eq!(arr.len(), 2);
        } else {
            panic!("expected array");
        }
    } else {
        panic!("expected object");
    }
}

#[test]
fn test_tagged_literals() {
    let src = "created = date\"2026-05-26\"\nexpires = std.date\"2027-01-01\"\n";
    let tokens = Lexer::new(src).tokenize();
    let value = Parser::new(tokens, src).parse().unwrap();
    println!("{value:?}");

    if let Value::Object(fields) = value {
        assert!(matches!(&fields[0].1, Value::Tagged(t, _) if t == "date"));
        assert!(matches!(&fields[1].1, Value::Tagged(t, _) if t == "std.date"));
    } else {
        panic!("expected object");
    }
}
