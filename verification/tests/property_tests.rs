use sysctl_parser::insert_nested_key;
use sysctl_parser::parse_sysctl_conf_to_nested;
use sysctl_parser::parse_to_map;
use sysctl_parser::schema::parse;
use sysctl_parser::schema::parse_scheme;
use sysctl_parser::schema::validate_config;
use sysctl_parser::ConfigTable;
use sysctl_parser::ConfigValue;

#[test]
fn scenario_basic_nesting() {
    let input = "endpoint = localhost:3000\nlog.file = /var/log/c.log\nlog.level = info\n";
    let map = parse_to_map(input);
    assert_eq!(map.len(), 2);
    assert_eq!(
        map.get("endpoint").unwrap(),
        &ConfigValue::Str("localhost:3000".to_string())
    );
    if let Some(ConfigValue::Table(log)) = map.get("log") {
        assert_eq!(
            log.get("file").unwrap(),
            &ConfigValue::Str("/var/log/c.log".to_string())
        );
        assert_eq!(
            log.get("level").unwrap(),
            &ConfigValue::Str("info".to_string())
        );
    } else {
        panic!("expected 'log' to be a Table");
    }
}

#[test]
fn scenario_comment_only_document() {
    let map = parse_to_map("# comment only\n");
    assert!(map.is_empty());
}

#[test]
fn later_setting_overwrites_earlier() {
    let input = "a = first\nunrelated = x\nother.key = y\na = second\n";
    let map = parse_to_map(input);
    assert_eq!(
        map.get("a").unwrap(),
        &ConfigValue::Str("second".to_string())
    );
}

#[test]
fn leaf_then_table_conflict() {
    // a leaf is destroyed by a later dotted assignment below it
    let map = parse_to_map("a = x\na.b = y\n");
    if let Some(ConfigValue::Table(a)) = map.get("a") {
        assert_eq!(a.len(), 1);
        assert_eq!(a.get("b").unwrap(), &ConfigValue::Str("y".to_string()));
    } else {
        panic!("expected 'a' to be a Table");
    }
}

#[test]
fn table_then_leaf_conflict() {
    // a table is destroyed by a later leaf assignment to its key
    let map = parse_to_map("a.b = y\na = x\n");
    assert_eq!(map.get("a").unwrap(), &ConfigValue::Str("x".to_string()));
}

#[test]
fn empty_key_segments_make_empty_string_keys() {
    // doubled dots silently create a table keyed by the empty string
    let map = parse_to_map("a..b = x\n");
    if let Some(ConfigValue::Table(a)) = map.get("a") {
        if let Some(ConfigValue::Table(mid)) = a.get("") {
            assert_eq!(mid.get("b").unwrap(), &ConfigValue::Str("x".to_string()));
        } else {
            panic!("expected empty-string key to hold a Table");
        }
    } else {
        panic!("expected 'a' to be a Table");
    }
}

#[test]
fn crlf_line_endings() {
    let map = parse_to_map("a = 1\r\nb = 2\r\n");
    assert_eq!(map.len(), 2);
    assert_eq!(map.get("a").unwrap(), &ConfigValue::Str("1".to_string()));
    assert_eq!(map.get("b").unwrap(), &ConfigValue::Str("2".to_string()));
}

#[test]
fn lone_carriage_return_ends_input() {
    // a carriage return not followed by a newline is no terminator: the
    // rest of the input is dropped
    let map = parse_to_map("a = 1\rb = 2");
    assert_eq!(map.len(), 1);
    assert_eq!(map.get("a").unwrap(), &ConfigValue::Str("1".to_string()));
}

#[test]
fn unrecognized_lines_are_dropped() {
    let map = parse_to_map("no equals sign here\nkey = value\n");
    assert_eq!(map.len(), 1);
    assert_eq!(
        map.get("key").unwrap(),
        &ConfigValue::Str("value".to_string())
    );
}

#[test]
fn empty_key_with_leading_equals() {
    let map = parse_to_map("=value\n");
    assert_eq!(map.len(), 1);
    assert_eq!(map.get("").unwrap(), &ConfigValue::Str("value".to_string()));
}

#[test]
fn nested_error_channel_is_ok() {
    let r = parse_sysctl_conf_to_nested("k = v\n");
    let map = r.expect("the config grammar is total");
    assert_eq!(map.get("k").unwrap(), &ConfigValue::Str("v".to_string()));
}

#[test]
fn insert_nested_key_direct() {
    let mut root = ConfigTable::new();
    insert_nested_key(&mut root, "x.y", "1");
    insert_nested_key(&mut root, "x.z", "2");
    if let Some(ConfigValue::Table(x)) = root.get("x") {
        assert_eq!(x.get("y").unwrap(), &ConfigValue::Str("1".to_string()));
        assert_eq!(x.get("z").unwrap(), &ConfigValue::Str("2".to_string()));
    } else {
        panic!("expected 'x' to be a Table");
    }
}

#[test]
fn scenario_validation_success() {
    let fields = parse("is_active -> bool\nusername -> string");
    let mut config = ConfigTable::new();
    config.insert("is_active".to_string(), ConfigValue::Str("true".to_string()));
    config.insert("username".to_string(), ConfigValue::Str("Alice".to_string()));
    assert!(validate_config(&fields, &config).is_ok());
}

#[test]
fn scenario_validation_missing_field_message() {
    let fields = parse("is_active -> bool\nusername -> string");
    let mut config = ConfigTable::new();
    config.insert(
        "is_active".to_string(),
        ConfigValue::Str("false".to_string()),
    );
    let err = validate_config(&fields, &config).unwrap_err();
    assert_eq!(err, "Missing required field: 'username'");
}

#[test]
fn scenario_validation_bad_bool_value() {
    let fields = parse("is_active -> bool");
    let mut config = ConfigTable::new();
    config.insert("is_active".to_string(), ConfigValue::Str("yes".to_string()));
    let err = validate_config(&fields, &config).unwrap_err();
    assert_eq!(
        err,
        "Field 'is_active' must be a bool ('true'/'false'), got: 'yes'"
    );
}

#[test]
fn validation_bool_field_rejects_table() {
    let fields = parse("flags -> bool");
    let config = parse_to_map("flags.verbose = true\n");
    let err = validate_config(&fields, &config).unwrap_err();
    assert_eq!(err, "Field 'flags' must be a bool, but found a nested table.");
}

#[test]
fn validation_string_field_rejects_table() {
    let fields = parse("log -> string");
    let config = parse_to_map("log.level = info\n");
    let err = validate_config(&fields, &config).unwrap_err();
    assert_eq!(
        err,
        "Field 'log' must be a string, but found a nested table."
    );
}

#[test]
fn schema_rejects_malformed_middle_line() {
    let r = parse_scheme("good -> bool\nbad line\nalso_good -> string\n");
    let err = r.unwrap_err();
    assert_eq!(err, "Malformed schema line: 'bad line'");
}

#[test]
fn schema_rejects_trailing_junk_after_type() {
    assert!(parse_scheme("a -> boolx").is_err());
    assert!(parse_scheme("a -> bool extra").is_err());
}

#[test]
fn schema_rejects_blank_interior_line() {
    assert!(parse_scheme("a -> bool\n\nb -> string\n").is_err());
}

#[test]
fn schema_empty_input_is_empty_schema() {
    let fields = parse_scheme("").expect("empty schema parses");
    assert!(fields.is_empty());
}

#[test]
fn unicode_whitespace_is_trimmed() {
    let map = parse_to_map("\u{00A0}key =\u{3000}value\u{00A0}\n");
    assert_eq!(map.len(), 1);
    assert_eq!(
        map.get("key").unwrap(),
        &ConfigValue::Str("value".to_string())
    );
}

#[test]
fn schema_accepts_tabs_around_arrow() {
    let fields = parse("a\t->\tbool");
    assert_eq!(fields.len(), 1);
}
