use orbit::{
    evaluate, evaluate_ast, AstNode, Environment, ObjectMap, OrbitNumber, OrbitValue, Span,
    ValueNode,
};

fn entry(key: &str, value: i64, start: usize) -> AstNode {
    AstNode::Entry {
        key: key.to_string(),
        value: ValueNode::Number {
            value: OrbitNumber::Integer(value),
            span: Span::new(start + 3, start + 4),
        },
        span: Span::new(start, start + 4),
    }
}

#[test]
fn nested_document_is_spliced_in_order() {
    let ast = AstNode::Document {
        body: vec![
            entry("a", 1, 0),
            AstNode::Document { body: vec![entry("b", 2, 5), entry("c", 3, 10)], span: Span::new(5, 14) },
        ],
        span: Span::new(0, 14),
    };
    let value = evaluate_ast(&ast).expect("evaluation should succeed");
    let map = value.as_object().unwrap();
    assert_eq!(map.len(), 3);
    assert_eq!(map.get_index(0).unwrap().0, "a");
    assert_eq!(map.get_index(1).unwrap().0, "b");
    assert_eq!(map.get_index(2).unwrap().0, "c");
    assert_eq!(map.get("c"), Some(&OrbitValue::Number(OrbitNumber::Integer(3))));
}

#[test]
fn nested_document_collision_points_at_the_document() {
    let ast = AstNode::Document {
        body: vec![
            entry("a", 1, 0),
            AstNode::Document { body: vec![entry("a", 2, 5)], span: Span::new(5, 9) },
        ],
        span: Span::new(0, 9),
    };
    let e = evaluate_ast(&ast).expect_err("duplicate key");
    assert_eq!(e.message, "duplicate key 'a'");
    assert_eq!(e.span, Span::new(5, 9));
}

#[test]
fn lone_entry_evaluates_to_a_mapping() {
    let value = evaluate_ast(&entry("k", 7, 0)).expect("evaluation should succeed");
    let map = value.as_object().unwrap();
    assert_eq!(map.len(), 1);
    assert_eq!(map.get("k"), Some(&OrbitValue::Number(OrbitNumber::Integer(7))));
}

#[test]
fn get_path_descends_through_mappings() {
    let value = evaluate("server { limits { max: 5 } tags: [1] }").expect("evaluation should succeed");
    assert_eq!(
        value.get_path(&["server", "limits", "max"]),
        Some(&OrbitValue::Number(OrbitNumber::Integer(5)))
    );
    assert_eq!(value.get_path(&[]), Some(&value));
    assert_eq!(value.get_path(&["server", "missing"]), None);
    assert_eq!(value.get_path(&["server", "tags", "x"]), None);
    let tags = value.get_path(&["server", "tags"]).unwrap();
    assert_eq!(tags.as_list().map(|l| l.len()), Some(1));
    assert!(tags.as_object().is_none());
}

#[test]
fn environment_reports_displaced_values() {
    let mut env = Environment::new();
    assert!(env.insert("x".to_string(), OrbitValue::Bool(true)).is_none());
    assert!(env.insert("y".to_string(), OrbitValue::Bool(false)).is_none());
    assert_eq!(env.get("x"), Some(&OrbitValue::Bool(true)));
    assert_eq!(env.insert("x".to_string(), OrbitValue::Bool(false)), Some(OrbitValue::Bool(true)));
    assert_eq!(env.get("x"), Some(&OrbitValue::Bool(false)));
    assert!(env.get("z").is_none());
    let value = env.into_value();
    let map = value.as_object().unwrap();
    assert_eq!(map.get_index(0).unwrap().0, "x");
    assert_eq!(map.get_index(1).unwrap().0, "y");
    assert!(map.get_index(2).is_none());
}

#[test]
fn object_map_removes_by_position() {
    let mut map = ObjectMap::new();
    map.insert("p".to_string(), OrbitValue::Bool(true));
    map.insert("q".to_string(), OrbitValue::Bool(false));
    let (k, v) = map.shift_remove_index(0).unwrap();
    assert_eq!(k, "p");
    assert_eq!(v, OrbitValue::Bool(true));
    assert_eq!(map.len(), 1);
    assert_eq!(map.get_index(0).unwrap().0, "q");
    assert!(map.shift_remove_index(3).is_none());
}

#[test]
fn lists_keep_duplicates_in_order() {
    let value = evaluate("l: [1, 1, \"a\", [true]]").expect("evaluation should succeed");
    let list = value.get_path(&["l"]).unwrap().as_list().unwrap();
    assert_eq!(list.len(), 4);
    assert_eq!(list[0], list[1]);
    assert_eq!(list[3], OrbitValue::List(vec![OrbitValue::Bool(true)]));
}

#[test]
fn span_helpers() {
    let a = Span::new(3, 5);
    let b = Span::new(1, 4);
    assert_eq!(a.union(b), Span::new(1, 5));
    assert_eq!(a.len(), 2);
    assert_eq!(Span::new(5, 3).len(), 0);
    assert!(Span::new(2, 2).is_empty());
    assert!(!a.is_empty());
}
