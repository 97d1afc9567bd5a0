use prmt::modules::json::{resolve_path, JsonModule, JsonValue};

fn text(s: &str) -> JsonValue {
    JsonValue::Text(s.to_string())
}

fn object(members: Vec<(&str, JsonValue)>, serialized: &str) -> JsonValue {
    JsonValue::Object(
        members.into_iter().map(|(k, v)| (k.to_string(), v)).collect(),
        serialized.to_string(),
    )
}

fn array(items: Vec<JsonValue>, serialized: &str) -> JsonValue {
    JsonValue::Array(items, serialized.to_string())
}

#[test]
fn resolves_nested_string() {
    let module = JsonModule::new();
    let value = object(
        vec![("model", object(vec![("display_name", text("Opus"))], r#"{"display_name":"Opus"}"#))],
        r#"{"model":{"display_name":"Opus"}}"#,
    );

    let result = module.render(".model.display_name", Some(&value)).unwrap();

    assert_eq!(result, Some("Opus".to_string()));
}

#[test]
fn resolves_number() {
    let module = JsonModule::new();
    let value = object(
        vec![(
            "context_window",
            object(
                vec![("used_percentage", JsonValue::Number("42".to_string()))],
                r#"{"used_percentage":42}"#,
            ),
        )],
        r#"{"context_window":{"used_percentage":42}}"#,
    );

    let result = module.render(".context_window.used_percentage", Some(&value)).unwrap();

    assert_eq!(result, Some("42".to_string()));
}

#[test]
fn resolves_boolean() {
    let module = JsonModule::new();
    let value = object(vec![("active", JsonValue::Bool(true))], r#"{"active":true}"#);

    let result = module.render(".active", Some(&value)).unwrap();

    assert_eq!(result, Some("true".to_string()));
}

#[test]
fn resolves_array_index() {
    let module = JsonModule::new();
    let value = object(
        vec![("items", array(vec![text("a"), text("b"), text("c")], r#"["a","b","c"]"#))],
        r#"{"items":["a","b","c"]}"#,
    );

    let result = module.render(".items.1", Some(&value)).unwrap();

    assert_eq!(result, Some("b".to_string()));
}

#[test]
fn returns_none_for_missing_path() {
    let module = JsonModule::new();
    let value = object(vec![("model", object(vec![], "{}"))], r#"{"model":{}}"#);

    let result = module.render(".model.display_name", Some(&value)).unwrap();

    assert_eq!(result, None);
}

#[test]
fn returns_none_for_null_value() {
    let module = JsonModule::new();
    let value = object(vec![("value", JsonValue::Null)], r#"{"value":null}"#);

    let result = module.render(".value", Some(&value)).unwrap();

    assert_eq!(result, None);
}

#[test]
fn returns_none_when_no_stdin() {
    let module = JsonModule::new();

    let result = module.render(".anything", None).unwrap();

    assert_eq!(result, None);
}

#[test]
fn errors_on_empty_format() {
    let module = JsonModule::new();

    assert!(module.render("", None).is_err());
}

#[test]
fn works_without_leading_dot() {
    let module = JsonModule::new();
    let value = object(vec![("name", text("test"))], r#"{"name":"test"}"#);

    let result = module.render("name", Some(&value)).unwrap();

    assert_eq!(result, Some("test".to_string()));
}

#[test]
fn compound_values_display_as_json_and_bad_indices_miss() {
    let module = JsonModule::new();
    let inner = array(vec![JsonValue::Number("1".to_string())], "[1]");
    let value = object(vec![("list", inner)], r#"{"list":[1]}"#);
    assert_eq!(module.render(".list", Some(&value)).unwrap(), Some("[1]".to_string()));
    assert_eq!(module.render("..list..0", Some(&value)).unwrap(), Some("1".to_string()));
    assert_eq!(module.render(".list.+0", Some(&value)).unwrap(), Some("1".to_string()));
    assert_eq!(module.render(".list.1", Some(&value)).unwrap(), None);
    assert_eq!(module.render(".list.x", Some(&value)).unwrap(), None);
    assert_eq!(module.render(".list.0.deeper", Some(&value)).unwrap(), None);
    assert_eq!(module.render(".", Some(&value)).unwrap(), Some(r#"{"list":[1]}"#.to_string()));
    assert!(matches!(resolve_path(&value, "list"), Some(JsonValue::Array(_, _))));
}

#[test]
fn joined_path_resolves_in_turn() {
    let root = object(
        vec![("a", array(vec![text("x"), object(vec![("b", text("y"))], r#"{"b":"y"}"#)], "[..]"))],
        "{..}",
    );
    let first = resolve_path(&root, ".a").expect("a");
    let whole = resolve_path(&root, ".a.1.b").expect("a.1.b");
    let step = resolve_path(first, "1.b").expect("1.b");
    assert!(matches!(whole, JsonValue::Text(t) if t == "y"));
    assert!(matches!(step, JsonValue::Text(t) if t == "y"));
    assert!(matches!(resolve_path(&root, ""), Some(JsonValue::Object(..))));
    assert!(resolve_path(&root, ".a.2.b").is_none());
}
