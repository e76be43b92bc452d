use sysctl_parser::json::from_json;
use sysctl_parser::json::reparse;
use sysctl_parser::json::to_json;
use sysctl_parser::parse_to_map;
use sysctl_parser::ConfigTable;
use sysctl_parser::ConfigValue;

#[test]
fn render_empty_document() {
    let t = ConfigTable::new();
    assert_eq!(to_json(&t), "{}");
}

#[test]
fn render_simple_document() {
    let t = parse_to_map("a = b\n");
    assert_eq!(to_json(&t), "{\"a\":\"b\"}");
}

#[test]
fn render_nested_document() {
    let t = parse_to_map("log.file = x\nlog.level = info\n");
    assert_eq!(to_json(&t), "{\"log\":{\"file\":\"x\",\"level\":\"info\"}}");
}

#[test]
fn rerender_is_idempotent_basic() {
    let t = parse_to_map("endpoint = localhost:3000\nlog.file = /var/log/c.log\nlog.level = info\n");
    let rendered = to_json(&t);
    let t2 = from_json(&rendered).expect("rendered text parses back");
    assert_eq!(t2, t);
    assert_eq!(to_json(&t2), rendered);
}

#[test]
fn rerender_is_idempotent_deep() {
    let t = parse_to_map("a.b.c.d = final\nx = y\n");
    let rendered = to_json(&t);
    let t2 = from_json(&rendered).expect("rendered text parses back");
    assert_eq!(t2, t);
    assert_eq!(to_json(&t2), rendered);
}

#[test]
fn rerender_is_idempotent_with_escapes() {
    let mut t = ConfigTable::new();
    t.insert(
        "quote\"key".to_string(),
        ConfigValue::Str("say \"hi\" \\ done".to_string()),
    );
    t.insert("plain".to_string(), ConfigValue::Str("v".to_string()));
    let rendered = to_json(&t);
    let t2 = from_json(&rendered).expect("rendered text parses back");
    assert_eq!(t2, t);
    assert_eq!(to_json(&t2), rendered);
}

#[test]
fn rerender_is_idempotent_empty() {
    let t = ConfigTable::new();
    let rendered = to_json(&t);
    let t2 = from_json(&rendered).expect("rendered text parses back");
    assert_eq!(t2, t);
    assert_eq!(to_json(&t2), rendered);
}

#[test]
fn parser_rejects_non_canonical_text() {
    assert!(from_json("").is_none());
    assert!(from_json("{ }").is_none());
    assert!(from_json("{\"a\":\"b\",}").is_none());
    assert!(from_json("[\"a\"]").is_none());
    assert!(from_json("{\"a\":\"b\"} ").is_none());
    assert!(from_json("{\"a\":1}").is_none());
}

#[test]
fn parser_rejects_duplicate_keys() {
    assert!(from_json("{\"a\":\"1\",\"a\":\"2\"}").is_none());
}

#[test]
fn parsed_text_rerenders_verbatim() {
    let text = "{\"k\":{\"inner\":\"v\"},\"z\":\"w\"}";
    let t = from_json(text).expect("canonical text parses");
    assert_eq!(to_json(&t), text);
}

#[test]
fn reparse_reproduces_the_document() {
    let t = parse_to_map("a.b = x\nc = d\n");
    let t2 = reparse(&t);
    assert_eq!(t2, t);
    assert_eq!(to_json(&t2), to_json(&t));
}
