use orbit::number::parse_number_literal;
use orbit::{
    evaluate, lex, parse, parse_with_recovery, AstNode, CoreError, ObjectMap, OrbitNumber,
    OrbitValue, Span, TokenKind, ValueNode,
};

const SAMPLE: &str = r#"
server {
    host: "127.0.0.1"
    port: 8080
    tags: [
        "edge",
        "prod"
    ]
}
"#;

fn string(s: &str) -> OrbitValue {
    OrbitValue::String(s.to_string())
}

fn integer(i: i64) -> OrbitValue {
    OrbitValue::Number(OrbitNumber::Integer(i))
}

fn top(source: &str) -> ObjectMap {
    match evaluate(source).expect("evaluation should succeed") {
        OrbitValue::Object(map) => map,
        other => panic!("expected an object, got {:?}", other),
    }
}

fn runtime_error(source: &str) -> orbit::RuntimeError {
    match evaluate(source) {
        Err(CoreError::Runtime(e)) => e,
        other => panic!("expected a runtime error, got {:?}", other),
    }
}

#[test]
fn evaluates_sample_document() {
    let value = evaluate(SAMPLE).expect("evaluation should succeed");
    let mut expected = ObjectMap::new();
    let mut server = ObjectMap::new();
    server.insert("host".into(), OrbitValue::String("127.0.0.1".into()));
    server.insert("port".into(), OrbitValue::Number(OrbitNumber::Integer(8080)));
    server.insert(
        "tags".into(),
        OrbitValue::List(vec![
            OrbitValue::String("edge".into()),
            OrbitValue::String("prod".into()),
        ]),
    );
    expected.insert("server".into(), OrbitValue::Object(server));
    assert_eq!(value, OrbitValue::Object(expected));
}

#[test]
fn duplicate_entry_points_at_second_key() {
    let e = runtime_error("a: 1\na: 2");
    assert_eq!(e.span, Span::new(5, 9));
    assert_eq!(e.message, "duplicate key 'a'");
}

#[test]
fn distinct_entries_keep_order() {
    let map = top("a: 1\nb: 2");
    assert_eq!(map.len(), 2);
    let (k0, v0) = map.get_index(0).unwrap();
    let (k1, v1) = map.get_index(1).unwrap();
    assert_eq!(k0, "a");
    assert_eq!(v0, &integer(1));
    assert_eq!(k1, "b");
    assert_eq!(v1, &integer(2));
}

#[test]
fn recovery_collects_errors() {
    // The dangling colon is detected at `b`; synchronizing drops that token
    // and resumes at the next identifier, `c`.
    let report = parse_with_recovery("a: \nb: 2\nc {").expect("lexing should succeed");
    assert_eq!(report.errors.len(), 2);
    assert_eq!(report.errors[0].message, "unexpected token identifier while parsing value");
    assert_eq!(report.errors[0].span, Span::new(4, 5));
    assert_eq!(report.errors[1].message, "unterminated block");
    assert_eq!(report.errors[1].span, Span::new(9, 10));
    assert_eq!(report.document.span(), Span::new(0, 12));
}

#[test]
fn recovery_keeps_valid_entries() {
    let report = parse_with_recovery("a: 1\nb: ]\nc: 3\n}\nd: 4").expect("lexing should succeed");
    assert_eq!(report.errors.len(), 2);
    let body = report.document.as_body().unwrap();
    let keys: Vec<&str> = body
        .iter()
        .map(|n| match n {
            AstNode::Entry { key, .. } => key.as_str(),
            _ => "",
        })
        .collect();
    assert_eq!(keys, vec!["a", "c", "d"]);
    assert!(matches!(
        &body[1],
        AstNode::Entry { value: ValueNode::Number { value: OrbitNumber::Integer(3), .. }, .. }
    ));
}

#[test]
fn recovery_reports_unterminated_block() {
    let report = parse_with_recovery("a: \nb: 2\nc {").expect("lexing should succeed");
    assert!(report.errors.iter().any(|e| e.message == "unterminated block"));
}

#[test]
fn literal_integer() {
    assert_eq!(top("x: 3").get("x"), Some(&integer(3)));
}

#[test]
fn literal_float_keeps_text() {
    assert_eq!(
        top("x: 3.0").get("x"),
        Some(&OrbitValue::Number(OrbitNumber::Float("3.0".to_string())))
    );
}

#[test]
fn literal_negative_integer() {
    assert_eq!(top("x: -5").get("x"), Some(&integer(-5)));
}

#[test]
fn exponent_is_not_part_of_a_number_token() {
    // The number grammar has no exponent: `1e3` is the number `1` followed by
    // the identifier `e3`, which does not start an entry.
    match evaluate("x: 1e3") {
        Err(CoreError::Parse(e)) => assert_eq!(e.message, "expected ':' after identifier"),
        other => panic!("expected a parse error, got {:?}", other),
    }
}

#[test]
fn integer_limits() {
    assert_eq!(top("x: 9223372036854775807").get("x"), Some(&integer(i64::MAX)));
    assert_eq!(top("x: -9223372036854775808").get("x"), Some(&integer(i64::MIN)));
    match evaluate("x: 9223372036854775808") {
        Err(CoreError::Parse(e)) => {
            assert_eq!(e.message, "invalid integer literal");
            assert_eq!(e.span, Span::new(3, 22));
        }
        other => panic!("expected a parse error, got {:?}", other),
    }
}

#[test]
fn empty_list_and_object() {
    assert_eq!(top("a: []").get("a"), Some(&OrbitValue::List(vec![])));
    assert_eq!(top("a: {}").get("a"), Some(&OrbitValue::Object(ObjectMap::new())));
}

#[test]
fn block_nesting() {
    let map = top("server { host: \"x\" }");
    let mut inner = ObjectMap::new();
    inner.insert("host".into(), string("x"));
    assert_eq!(map.get("server"), Some(&OrbitValue::Object(inner)));
}

#[test]
fn block_then_entry_is_duplicate() {
    let e = runtime_error("server { host: \"x\" }\nserver: 1");
    assert_eq!(e.message, "duplicate key 'server'");
    assert_eq!(e.span, Span::new(21, 30));
}

#[test]
fn two_blocks_are_duplicate() {
    let e = runtime_error("server { }\nserver { }");
    assert_eq!(e.message, "duplicate block 'server'");
    assert_eq!(e.span, Span::new(11, 21));
}

#[test]
fn duplicate_inside_object_literal() {
    let e = runtime_error("o: { a: 1, a: 2 }");
    assert_eq!(e.message, "duplicate key 'a' inside object literal");
    assert_eq!(e.span, Span::new(11, 15));
}

#[test]
fn string_escapes() {
    assert_eq!(top(r#"s: "a\nb\"c""#).get("s"), Some(&string("a\nb\"c")));
}

#[test]
fn unknown_escape_keeps_character() {
    assert_eq!(top(r#"s: "\q""#).get("s"), Some(&string("q")));
}

#[test]
fn entry_span_covers_key_and_value() {
    let ast = parse("key: 42").expect("parse should succeed");
    let body = ast.as_body().unwrap();
    assert_eq!(body[0].span(), Span::new(0, 7));
}

#[test]
fn unterminated_string_is_lex_error() {
    match parse("a: \"abc\nb: 1") {
        Err(CoreError::Lex(e)) => {
            assert_eq!(e.message, "unterminated string literal");
            assert_eq!(e.span, Span::new(3, 8));
        }
        other => panic!("expected a lex error, got {:?}", other),
    }
}

#[test]
fn unexpected_character_is_lex_error() {
    match parse("a: @") {
        Err(CoreError::Lex(e)) => {
            assert_eq!(e.message, "unexpected character '@'");
            assert_eq!(e.span, Span::new(3, 4));
        }
        other => panic!("expected a lex error, got {:?}", other),
    }
}

#[test]
fn recovery_still_fails_on_lex_error() {
    assert!(matches!(parse_with_recovery("a: 1\n$"), Err(CoreError::Lex(_))));
}

#[test]
fn crlf_is_one_newline() {
    let tokens = lex("a: 1\r\n# note\n").expect("lexing should succeed");
    assert_eq!(tokens.len(), 7);
    assert!(matches!(tokens[3].kind, TokenKind::Newline));
    assert_eq!(tokens[3].span, Span::new(4, 6));
    assert!(matches!(&tokens[4].kind, TokenKind::Comment(c) if c == "# note"));
    assert_eq!(tokens[4].span, Span::new(6, 12));
    assert!(matches!(tokens[5].kind, TokenKind::Newline));
    assert_eq!(tokens[6].span, Span::new(13, 13));
}

#[test]
fn offsets_count_bytes() {
    match lex("é") {
        Err(e) => {
            assert_eq!(e.message, "unexpected character 'é'");
            assert_eq!(e.span, Span::new(0, 2));
        }
        Ok(_) => panic!("expected a lex error"),
    }
    let tokens = lex("s: \"é\" x").expect("lexing should succeed");
    assert_eq!(tokens[2].span, Span::new(3, 7));
    assert_eq!(tokens[3].span, Span::new(8, 9));
}

#[test]
fn tokens_end_with_one_eof() {
    let tokens = lex("a: [1, 2.5, true] # c\r\nb: \"s\"").expect("lexing should succeed");
    let kinds: Vec<&TokenKind> = tokens.iter().map(|t| &t.kind).collect();
    assert!(matches!(kinds.last(), Some(TokenKind::Eof)));
    assert_eq!(kinds.iter().filter(|k| matches!(k, TokenKind::Eof)).count(), 1);
    assert!(matches!(kinds[3], TokenKind::Number(n) if n == "1"));
    assert!(matches!(kinds[5], TokenKind::Number(n) if n == "2.5"));
    assert!(matches!(kinds[7], TokenKind::Bool(true)));
    assert!(matches!(kinds[9], TokenKind::Comment(c) if c == "# c"));
    assert_eq!(tokens[10].span, Span::new(21, 23));
    assert_eq!(tokens.last().unwrap().span, Span::new(29, 29));
}

#[test]
fn trailing_commas_are_allowed() {
    let map = top("l: [1, 2,]\no: { b: true, }");
    assert_eq!(map.get("l"), Some(&OrbitValue::List(vec![integer(1), integer(2)])));
    let mut o = ObjectMap::new();
    o.insert("b".into(), OrbitValue::Bool(true));
    assert_eq!(map.get("o"), Some(&OrbitValue::Object(o)));
}

#[test]
fn strict_parse_reports_first_error() {
    match parse("a 1") {
        Err(CoreError::Parse(e)) => {
            assert_eq!(e.message, "expected ':' after identifier");
            assert_eq!(e.span, Span::new(2, 3));
        }
        other => panic!("expected a parse error, got {:?}", other),
    }
    match parse("a: ]") {
        Err(CoreError::Parse(e)) => {
            assert_eq!(e.message, "unexpected token ] while parsing value");
        }
        other => panic!("expected a parse error, got {:?}", other),
    }
}

#[test]
fn backslash_at_end_of_input_is_unterminated_literal() {
    match lex("\"ab\\") {
        Err(e) => {
            assert_eq!(e.message, "unterminated string literal");
            assert_eq!(e.span, Span::new(0, 4));
        }
        Ok(_) => panic!("expected a lex error"),
    }
}

#[test]
fn malformed_fractions_are_rejected() {
    let span = Span::new(2, 7);
    for bad in ["1.2.3", "1e", ".", "e5", "1.5e+", "--1.0", "1.5x", "+.e1"] {
        match parse_number_literal(&bad.to_string(), span) {
            Err(e) => {
                assert_eq!(e.message, "invalid float literal");
                assert_eq!(e.span, span);
            }
            Ok(n) => panic!("expected an error for {}, got {:?}", bad, n),
        }
        assert!(bad.parse::<f64>().is_err());
    }
    assert_eq!(parse_number_literal(&"-12".to_string(), span).unwrap(), OrbitNumber::Integer(-12));
    match parse_number_literal(&"1-2".to_string(), span) {
        Err(e) => assert_eq!(e.message, "invalid integer literal"),
        Ok(n) => panic!("expected an error, got {:?}", n),
    }
}

#[test]
fn float_text_with_exponent_converts() {
    let span = Span::new(0, 3);
    for good in ["1e3", "1E5", "1.5e-3", "5.", ".5", "+2.5", "-0.50", "2e+10"] {
        assert_eq!(
            parse_number_literal(&good.to_string(), span).unwrap(),
            OrbitNumber::Float(good.to_string())
        );
        assert!(good.parse::<f64>().is_ok());
    }
}

#[test]
fn parser_skips_leading_trivia() {
    let parser = orbit::Parser::from_source("\n# c\n\na: 1\n").expect("lexing should succeed");
    let ast = parser.parse_document().expect("parse should succeed");
    assert_eq!(ast.span(), Span::new(0, 11));
    let body = ast.as_body().unwrap();
    assert_eq!(body.len(), 1);
    assert_eq!(body[0].span(), Span::new(6, 10));
    let empty = orbit::Parser::from_source("\n").expect("lexing should succeed");
    let doc = empty.parse_document().expect("parse should succeed");
    assert_eq!(doc.span(), Span::new(0, 1));
    assert!(doc.as_body().unwrap().is_empty());
}
