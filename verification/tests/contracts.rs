use spine::document::{parse_to_json, DocError, Document, ValueType};
use spine::json::outcome_json;
use spine::lexer::Lexer;
use spine::parser::Parser;
use spine::serial::{MapSerializer, SerError, SeqSerializer};
use spine::token::Token;
use spine::value::Value;

fn parse(src: &str) -> Result<Value, Vec<String>> {
    let tokens = Lexer::new(src).tokenize();
    Parser::new(tokens, src).parse()
}

fn fields(v: &Value) -> &Vec<(String, Value)> {
    match v {
        Value::Object(f) => f,
        other => panic!("expected object, got {other:?}"),
    }
}

// ── keys ──

#[test]
fn redefined_scalar_is_reported_and_first_kept() {
    let errors = parse("host = a\nhost = b\n").unwrap_err();
    assert_eq!(errors.len(), 1);
    assert!(errors[0].contains("duplicate-key"));
    assert!(errors[0].contains("'host' was already defined"));
    assert!(errors[0].contains("first defined here"));
    assert!(errors[0].contains("redefined here"));
}

#[test]
fn redefined_object_gains_new_keys_at_its_end() {
    let v = parse("obj\n| a = 1\n| b = 2\nobj\n| c = 3\n| d = 4\n").unwrap();
    let obj = fields(&fields(&v)[0].1);
    let keys: Vec<&str> = obj.iter().map(|(k, _)| k.as_str()).collect();
    assert_eq!(keys, vec!["a", "b", "c", "d"]);
}

#[test]
fn nested_objects_have_distinct_keys() {
    let v = parse("a.b = 1\na.c = 2\na\n| b2 = 3\n").unwrap();
    let a = fields(&fields(&v)[0].1);
    let keys: Vec<&str> = a.iter().map(|(k, _)| k.as_str()).collect();
    assert_eq!(keys, vec!["b", "c", "b2"]);
}

#[test]
fn lookup_by_position_reads_that_field() {
    let doc = Document::from_str("z = 1\na = 2\nm = 3\n").unwrap();
    let root = doc.root().unwrap();
    for i in 0..root.len() {
        let k = root.key_at(i).unwrap();
        let by_key = root.get(&k).unwrap();
        assert_eq!(by_key.as_number().unwrap(), (i + 1).to_string());
        assert_eq!(k, ["z", "a", "m"][i]);
    }
}

// ── diagnostics of every kind ──

#[test]
fn unexpected_token_after_key() {
    let errors = parse("key ~\n").unwrap_err();
    assert!(errors[0].contains("syntax-error"));
    assert!(errors[0].contains("unexpected token after 'key'"));
}

#[test]
fn dotted_key_without_second_part() {
    let errors = parse("a. = 1\n").unwrap_err();
    assert!(errors[0].contains("expected identifier after '.' in 'a.'"));
}

#[test]
fn append_without_path() {
    let errors = parse("~\n| a = 1\n").unwrap_err();
    assert!(errors[0].contains("append requires a path after '~'"));
}

#[test]
fn append_through_scalar_is_type_conflict() {
    let errors = parse("s = 1\n~s.x\n| a = 1\n").unwrap_err();
    assert!(errors[0].contains("type-conflict"));
    assert!(errors[0].contains("'s' is not an object"));
}

#[test]
fn append_onto_scalar_is_type_conflict() {
    let errors = parse("s = 1\n~s\n| a = 1\n").unwrap_err();
    assert!(errors[0].contains("'s' is not an array"));
    assert!(errors[0].contains("first defined here as scalar"));
}

#[test]
fn scalar_then_object_is_type_conflict() {
    let errors = parse("s = 1\ns\n| a = 1\n").unwrap_err();
    assert!(errors[0].contains("'s' cannot be both a scalar and an object"));
}

#[test]
fn unknown_character_and_lexer_error_come_first() {
    let errors = parse("a = \"open\n@\n").unwrap_err();
    assert!(errors.len() >= 2);
    assert!(errors[0].contains("unexpected-character"));
    assert!(errors[0].contains("unexpected character '@', is this a Spine file?"));
    assert!(errors[1].contains("lexer-error"));
    assert!(errors[1].contains("1:5 unterminated string"));
}

#[test]
fn error_shows_source_line_and_caret() {
    let errors = parse("host = a\nhost = b\n").unwrap_err();
    let e = &errors[0];
    assert!(e.contains("<input>"));
    assert!(e.contains("2:1 host = b"));
    assert!(e.contains("      ^^^^ redefined here"));
}

#[test]
fn brackets_in_source_survive_rendering() {
    let errors = parse("k[x] = 1\nk[x] = 2\n").unwrap_err();
    assert!(!errors.is_empty());
    assert!(errors.iter().any(|e| e.contains("k[x] = 1")), "{errors:?}");
}

#[test]
fn file_name_appears_in_errors() {
    let src = "a = 1\na = 2\n";
    let tokens = Lexer::new(src).tokenize();
    let errors = Parser::new(tokens, src).with_source("conf.spn").parse().unwrap_err();
    assert!(errors[0].contains("conf.spn"));
}

// ── lexer ──

#[test]
fn tokens_carry_line_and_column() {
    let toks = Lexer::new("a = 1\n| b = x\n").tokenize();
    let first: Vec<(usize, usize)> = toks.iter().map(|t| (t.1, t.2)).collect();
    assert_eq!(first[0], (1, 1));
    assert_eq!(first[1], (1, 3));
    assert_eq!(first[2], (1, 5));
    assert_eq!(first[3], (1, 6));
    assert_eq!(first[4], (2, 1));
    assert_eq!(first[5], (2, 3));
    assert!(matches!(&toks[6].0, Token::Equals));
    assert!(matches!(&toks[7].0, Token::Str(s) if s == "x"));
}

#[test]
fn bare_number_keeps_its_literal() {
    let toks = Lexer::new("n = -007.50\n").tokenize();
    assert!(matches!(&toks[2].0, Token::Number(s) if s == "-007.50"));
}

#[test]
fn unicode_identifier_and_escapes() {
    let toks = Lexer::new("caf\u{e9} = \"\\u00e9\\u{1F600}\\x41\"\n").tokenize();
    assert!(matches!(&toks[0].0, Token::Ident(s) if s == "caf\u{e9}"));
    assert!(matches!(&toks[2].0, Token::Str(s) if s == "\u{e9}\u{1F600}A"));
}

#[test]
fn escape_errors_are_located() {
    let toks = Lexer::new("k = \"a\\qb\"\n").tokenize();
    assert!(matches!(&toks[2].0, Token::Error(m) if m == "1:5 invalid escape sequence: \\q"));
    let toks = Lexer::new("k = \"\\u{D800}\"\n").tokenize();
    assert!(matches!(&toks[2].0, Token::Error(m) if m == "1:5 surrogate unicode escape"));
    let toks = Lexer::new("k = \"\\u{110000}\"\n").tokenize();
    assert!(matches!(&toks[2].0, Token::Error(m) if m == "1:5 unicode escape out of range"));
}

#[test]
fn oversized_braced_escape_is_out_of_range() {
    let toks = Lexer::new("k = \"\\u{FFFFFFFFF}\"\n").tokenize();
    assert!(matches!(&toks[2].0, Token::Error(m) if m == "1:5 unicode escape out of range"));
    let v = parse("k = \"\"\"\n| \\u{100000000}\n| \"\"\"\n").unwrap_err();
    assert!(v[0].contains("unicode escape out of range"), "{v:?}");
}

#[test]
fn less_indented_line_is_reported_and_skipped() {
    let errors = parse("| a = 1\nb = 2\n| c = 3\n").unwrap_err();
    assert_eq!(errors.len(), 1);
    assert!(errors[0].contains("syntax-error"));
    assert!(errors[0].contains("line is indented less than the first statement"));
    assert!(errors[0].contains("2:1 b = 2"));
    let json = parse_to_json("| a = 1\nb = 2\n| c = 3\n");
    assert!(json.contains("\"ok\":false"));
}

#[test]
fn multiline_string_strips_indentation() {
    let v = parse("q = \"\"\"\n|   keep\n| \\t\n| \"\"\"\n").unwrap();
    assert_eq!(fields(&v)[0].1, Value::String("  keep\n\t".into()));
}

#[test]
fn append_without_children_adds_null() {
    let v = parse("~orphan\n").unwrap();
    assert_eq!(fields(&v)[0].1, Value::Array(vec![Value::Null]));
}

#[test]
fn append_without_children_before_more_input_is_an_error() {
    let errors = parse("~list.items\nb = 2\n").unwrap_err();
    assert_eq!(errors.len(), 1);
    assert!(errors[0].contains("syntax-error"));
    assert!(errors[0].contains("append requires child statements after the path"));
    assert!(errors[0].contains("^^^^^^^^^^^ append path ends here"), "{errors:?}");
}

// ── JSON ──

#[test]
fn json_success_exact() {
    let json = parse_to_json("a = 1.50\nb = x\n");
    assert_eq!(
        json,
        "{\"version\":\"0.1.0\",\"spec\":\"1.0-rc.2\",\"backend\":\"native\",\"ok\":true,\"value\":{\"a\":1.5,\"b\":\"x\"},\"errors\":[]}"
    );
}

#[test]
fn json_failure_lists_every_error() {
    let json = parse_to_json("a = 1\na = 2\nb = 1\nb = 2\n");
    assert!(json.starts_with("{\"version\":\"0.1.0\",\"spec\":\"1.0-rc.2\",\"backend\":\"native\",\"ok\":false,\"value\":null,\"errors\":[\""));
    assert!(json.ends_with("\"]}"));
    assert_eq!(json.matches("duplicate-key").count(), 2);
}

#[test]
fn json_numbers_are_shortest() {
    let json = parse_to_json("a = 007\nb = -0\nc = 2.500\nd = 10.0\n");
    assert!(json.contains("\"a\":7,\"b\":-0,\"c\":2.5,\"d\":10"), "{json}");
}

#[test]
fn json_strings_escape_controls() {
    let json = parse_to_json("s = \"q\\\"b\\\\\\n\\t\\x01\"\n");
    assert!(json.contains("\"s\":\"q\\\"b\\\\\\n\\t\\u0001\""), "{json}");
}

#[test]
fn json_tagged_and_arrays() {
    let json = parse_to_json("t = date\"2026-05-26\"\nl\n| - 1\n| - x\n| -\n");
    assert!(json.contains("\"t\":{\"tag\":\"date\",\"content\":\"2026-05-26\"}"), "{json}");
    assert!(json.contains("\"l\":[1,\"x\",null]"), "{json}");
}

// ── writer ──

#[test]
fn writer_round_trips_a_document() {
    let src = "app\n| name = demo\n| port = 8080\nlist\n| - a\n| - 2.50\n| -\n| | k = v\n";
    let doc = Document::from_str(src).unwrap();
    let text = doc.to_string().unwrap();
    assert_eq!(text, "app\n| name = demo\n| port = 8080.0\nlist\n| - a\n| - 2.5\n| -\n| | k = v\n");
    let again = Document::from_str(&text).unwrap();
    assert_eq!(again.to_string().unwrap(), text);
}

#[test]
fn writer_of_scalar_root_is_empty() {
    let doc = Document::from_value(Value::String("x".into()));
    assert_eq!(doc.to_string().unwrap(), "");
}

// ── values ──

#[test]
fn value_accessors() {
    let doc = Document::from_str("n = 42\ns = txt\nt = hex\"ff\"\na\n| - 1\n").unwrap();
    let root = doc.root().unwrap();
    assert_eq!(root.value_type(), ValueType::Object);
    assert_eq!(root.get("n").unwrap().as_number().unwrap(), "42");
    assert_eq!(root.get("n").unwrap().as_str(), None);
    assert_eq!(root.get("s").unwrap().as_str().unwrap(), "txt");
    assert_eq!(root.get("t").unwrap().tag().unwrap(), ("hex".to_string(), "ff".to_string()));
    assert_eq!(root.get("a").unwrap().len(), 1);
    assert!(root.get("s").unwrap().is_empty());
    assert_eq!(root.get("s").unwrap().as_bool(), None);
    assert_eq!(root.key_at(3).unwrap(), "a");
}

#[test]
fn document_errors_are_parse_errors() {
    match Document::from_str("a = 1\na = 2\n") {
        Err(DocError::Parse(errors)) => assert_eq!(errors.len(), 1),
        other => panic!("expected parse error, got {other:?}"),
    }
}

// ── serialization state ──

#[test]
fn map_serializer_rules() {
    let mut m = MapSerializer::new();
    assert!(matches!(m.value(Value::Null), Err(SerError::Custom(s)) if s == "value before key"));
    assert!(matches!(m.key(Value::Bool(true)), Err(SerError::Custom(s)) if s == "map keys must be strings"));
    m.key(Value::String("k".into())).unwrap();
    m.value(Value::Number("1".into())).unwrap();
    m.field("f".into(), Value::Null);
    assert_eq!(
        m.end(),
        Value::Object(vec![("k".into(), Value::Number("1".into())), ("f".into(), Value::Null)])
    );
    let mut s = SeqSerializer::new();
    s.push(Value::Null);
    s.push(Value::Bool(false));
    assert_eq!(s.end(), Value::Array(vec![Value::Null, Value::Bool(false)]));
}

#[test]
fn duplicate_key_error_box() {
    let errors = parse("host = localhost\nhost = example.com\n").unwrap_err();
    assert_eq!(errors.len(), 1);
    assert_eq!(
        errors[0],
        "┌─ error: duplicate-key\n\
         │  <input>\n\
         ├─ 1:1 host = localhost\n\
         │      ^^^^ first defined here\n\
         ├─ 2:1 host = example.com\n\
         │      ^^^^ redefined here\n\
         └─ 'host' was already defined"
    );
}

#[test]
fn named_source_appears_in_error_box() {
    let src = "a = 1\na = 2\n";
    let tokens = Lexer::new(src).tokenize();
    let errors = Parser::new(tokens, src).with_source("conf.spn").parse().unwrap_err();
    assert!(errors[0].starts_with("┌─ error: duplicate-key\n│  conf.spn\n├─ 1:1 a = 1\n"), "{errors:?}");
}

#[test]
fn outcome_json_with_other_details() {
    let ok = outcome_json("1.2.3", "1.0-rc.1", "wasm", &Ok(Value::Array(vec![Value::Null, Value::Bool(true)])));
    assert_eq!(ok, "{\"version\":\"1.2.3\",\"spec\":\"1.0-rc.1\",\"backend\":\"wasm\",\"ok\":true,\"value\":[null,true],\"errors\":[]}");
    let failed = outcome_json("1.2.3", "1.0-rc.1", "wasm", &Err(vec!["a \"b\"\n".to_string(), "c".to_string()]));
    assert_eq!(failed, "{\"version\":\"1.2.3\",\"spec\":\"1.0-rc.1\",\"backend\":\"wasm\",\"ok\":false,\"value\":null,\"errors\":[\"a \\\"b\\\"\\n\",\"c\"]}");
}

#[test]
fn written_numbers_lex_as_numbers() {
    let doc = Document::from_str("a = 007.2500\nb = -0\n").unwrap();
    let text = doc.to_string().unwrap();
    assert_eq!(text, "a = 7.25\nb = -0.0\n");
    let tokens = Lexer::new(&text).tokenize();
    let numbers: Vec<String> = tokens
        .iter()
        .filter_map(|(t, _, _)| match t {
            Token::Number(n) => Some(n.clone()),
            _ => None,
        })
        .collect();
    assert_eq!(numbers, vec!["7.25".to_string(), "-0.0".to_string()]);
}

#[test]
fn default_value_is_null() {
    assert_eq!(Value::default(), Value::Null);
}

#[test]
fn bare_key_without_children_is_a_no_op() {
    let v = parse("a = 1\na\n").unwrap();
    assert_eq!(fields(&v).len(), 1);
    assert_eq!(fields(&v)[0].1, Value::Number("1".into()));
    let v = parse("a\nb = 2\n").unwrap();
    assert_eq!(fields(&v).len(), 1);
    assert_eq!(fields(&v)[0].0, "b");
}

#[test]
fn every_lexical_error_is_reported() {
    let errors = parse("a = \"x\nb = \"y\n").unwrap_err();
    assert_eq!(errors.len(), 2);
    assert!(errors[0].contains("1:5 unterminated string"));
    assert!(errors[1].contains("2:5 unterminated string"));
    let errors = parse("a = 1\n@\n$\n").unwrap_err();
    assert_eq!(errors.len(), 2);
    assert!(errors[0].contains("unexpected character '@'"));
    assert!(errors[1].contains("unexpected character '$'"));
}

#[test]
fn tagged_content_reads_escapes_like_strings() {
    let v = parse("t = x\"\\x41\\u0042\\u{43}\\n\"\n").unwrap();
    assert_eq!(fields(&v)[0].1, Value::Tagged("x".into(), "ABC\n".into()));
}

#[test]
fn tagged_content_ends_at_a_newline() {
    let toks = Lexer::new("t = x\"ab\ncd\"\n").tokenize();
    assert!(matches!(&toks[2].0, Token::Error(m) if m == "1:6 unterminated string"), "{toks:?}");
    let toks = Lexer::new("t = x\"a\\q\"\n").tokenize();
    assert!(matches!(&toks[2].0, Token::Error(m) if m == "1:6 invalid escape sequence: \\q"), "{toks:?}");
}

#[test]
fn multiline_depth_comes_from_the_closing_line() {
    let v = parse("q = \"\"\"\n| | x\n| \"\"\"\n").unwrap();
    assert_eq!(fields(&v)[0].1, Value::String("| x".into()));
    let v = parse("q = \"\"\"\n| | a\n| | | b\n| | \"\"\"\n").unwrap();
    assert_eq!(fields(&v)[0].1, Value::String("a\n| b".into()));
    let v = parse("s\n| q = \"\"\"\n| a\n| \"\"\"\n").unwrap();
    assert_eq!(fields(&fields(&v)[0].1)[0].1, Value::String("a".into()));
}

#[test]
fn dotted_key_equals_nesting() {
    let dotted = parse("a.b = v\n").unwrap();
    let nested = parse("a\n| b = v\n").unwrap();
    assert_eq!(dotted, nested);
    assert_eq!(fields(&fields(&dotted)[0].1)[0], ("b".to_string(), Value::String("v".into())));
}

#[test]
fn tokens_point_at_their_first_character() {
    let src = "a = 1\n| b.c = \"x\"\n";
    let chars: Vec<char> = src.chars().collect();
    let toks = Lexer::new(src).tokenize();
    let mut last = 0usize;
    for (tok, line, col) in &toks {
        let mut l = 1;
        let mut c = 1;
        let mut idx = None;
        for (i, ch) in chars.iter().enumerate() {
            if l == *line && c == *col {
                idx = Some(i);
                break;
            }
            if *ch == '\n' { l += 1; c = 1; } else { c += 1; }
        }
        let i = idx.expect("position inside the input");
        assert!(chars[i] != ' ' && chars[i] != '\t', "{tok:?}");
        assert!(i >= last);
        last = i + 1;
    }
}

#[test]
fn whitespace_matches_std_on_every_char() {
    for v in 0u32..=0x10FFFF {
        if let Some(c) = char::from_u32(v) {
            assert_eq!(spine::text::char_is_whitespace(c), c.is_whitespace(), "{v:#x}");
        }
    }
}

#[test]
fn three_segment_path_equals_nesting() {
    let dotted = parse("system.runtime.env = production\n").unwrap();
    let nested = parse("system\n| runtime\n| | env = production\n").unwrap();
    assert_eq!(dotted, nested);
    assert_eq!(
        dotted,
        Value::Object(vec![(
            "system".into(),
            Value::Object(vec![(
                "runtime".into(),
                Value::Object(vec![("env".into(), Value::String("production".into()))])
            )])
        )])
    );
}

#[test]
fn nested_duplicate_key_cites_first_definition() {
    let errors = parse("a.b = 1\na.b = 2\n").unwrap_err();
    assert_eq!(errors.len(), 1);
    assert!(errors[0].contains("duplicate-key"));
    assert!(errors[0].contains("1:"));
    assert!(errors[0].contains("2:"));
    assert!(errors[0].contains("first defined here"));
    assert!(errors[0].contains("redefined here"));
}

#[test]
fn nested_block_duplicate_cites_first_definition() {
    let errors = parse("server\n| port = 80\nserver\n| port = 81\n").unwrap_err();
    assert_eq!(errors.len(), 1);
    assert!(errors[0].contains("duplicate-key"));
    assert!(errors[0].contains("2:"));
    assert!(errors[0].contains("4:"));
    assert!(errors[0].contains("first defined here"));
}

#[test]
fn nested_append_target_cites_first_definition() {
    let errors = parse("a\n| b = 1\n~a.b\n| x = 1\n").unwrap_err();
    assert_eq!(errors.len(), 1);
    assert!(errors[0].contains("is not an array"));
    assert!(errors[0].contains("first defined here as scalar"));
}

#[test]
fn escapes_resolve_piece_by_piece() {
    let a = parse("q = \"\"\"\n| \\x41\\t\n| \"\"\"\n").unwrap();
    assert_eq!(fields(&a)[0].1, Value::String("A\t".into()));
    let b = parse("q = \"\"\"\n| \\u{42}\\\\\n| \"\"\"\n").unwrap();
    assert_eq!(fields(&b)[0].1, Value::String("B\\".into()));
    let ab = parse("q = \"\"\"\n| \\x41\\t\\u{42}\\\\\n| \"\"\"\n").unwrap();
    assert_eq!(fields(&ab)[0].1, Value::String("A\tB\\".into()));
}

#[test]
fn five_segment_path_equals_nesting() {
    let dotted = parse("a.b.c.d.e = 42\n").unwrap();
    let nested = parse("a\n| b\n| | c\n| | | d\n| | | | e = 42\n").unwrap();
    assert_eq!(dotted, nested);
    let mut v = &dotted;
    for k in ["a", "b", "c", "d"] {
        let f = fields(v);
        assert_eq!(f.len(), 1);
        assert_eq!(f[0].0, k);
        v = &f[0].1;
    }
    assert_eq!(fields(v)[0], ("e".to_string(), Value::Number("42".into())));
}
