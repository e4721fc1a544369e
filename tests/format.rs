use orbit::format_source;

const SAMPLE: &str = r#"
server {
    host: "127.0.0.1"
    port: 8080
    tags: [
        "edge",
        "prod"
    ]
}
"#;

#[test]
fn formatter_is_idempotent() {
    let formatted = format_source(SAMPLE).expect("formatting should succeed");
    let formatted_again = format_source(&formatted).expect("formatting should succeed");
    assert_eq!(formatted, formatted_again);
}

#[test]
fn formatter_canonical_layout() {
    let formatted = format_source(SAMPLE).expect("formatting should succeed");
    assert_eq!(
        formatted,
        "server {\n    host: \"127.0.0.1\"\n    port: 8080\n    tags: [\n        \"edge\",\n        \"prod\"\n    ]\n}\n"
    );
}

#[test]
fn formatter_sorts_object_members_only() {
    let formatted = format_source("z: 1\no: { b: 2, a: -3, b2: true }\n").expect("formatting should succeed");
    assert_eq!(formatted, "z: 1\no: {\n    a: -3,\n    b: 2,\n    b2: true\n}\n");
}

#[test]
fn formatter_empty_containers() {
    assert_eq!(format_source("a: []").unwrap(), "a: []\n");
    assert_eq!(format_source("a: {}").unwrap(), "a: {}\n");
}

#[test]
fn formatter_escapes_strings() {
    let formatted = format_source(r#"s: "a\nb\"c\\d\q""#).unwrap();
    assert_eq!(formatted, "s: \"a\\nb\\\"c\\\\dq\"\n");
}

#[test]
fn formatter_empty_document_is_one_line_break() {
    assert_eq!(format_source("# only a comment\n").unwrap(), "\n");
}

#[test]
fn formatter_keeps_fraction_text() {
    assert_eq!(format_source("x: 3.0").unwrap(), "x: 3.0\n");
}

#[test]
fn formatter_reports_parse_errors() {
    assert!(format_source("a: ").is_err());
}

#[test]
fn formatting_preserves_values() {
    let source = "b: { z: 1, a: [true, \"q\\\"\", -7, 2.50] }\nserver {\n  port: 80 # web\n  inner { x: {} }\n}\n";
    let formatted = format_source(source).expect("formatting should succeed");
    let before = orbit::evaluate(source).expect("evaluation should succeed");
    let after = orbit::evaluate(&formatted).expect("evaluation should succeed");
    assert_eq!(before, after);
    assert_eq!(format_source(&formatted).unwrap(), formatted);
}
