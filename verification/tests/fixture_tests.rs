use sysctl_parser::parse_to_map;
use sysctl_parser::ConfigValue;

#[test]
fn test_2() {
    let input = "endpoint = localhost:3000\nlog.file = /var/log/console.log\n";

    let nested_map = parse_to_map(input);

    assert_eq!(nested_map.len(), 2);
    assert_eq!(
        nested_map.get("endpoint").unwrap(),
        &ConfigValue::Str("localhost:3000".to_string())
    );
}

#[test]
fn test_3() {
    let input = "endpoint = localhost:3000\n# debug = true\nlog.file = /var/log/console.log\nlog.name = default.log\nlog.level = info\n";

    let nested_map = parse_to_map(input);

    assert_eq!(nested_map.len(), 2);
    assert_eq!(
        nested_map.get("endpoint").unwrap(),
        &ConfigValue::Str("localhost:3000".to_string())
    );

    if let Some(ConfigValue::Table(log_map)) = nested_map.get("log") {
        assert_eq!(
            log_map.get("file").unwrap(),
            &ConfigValue::Str("/var/log/console.log".to_string())
        );
        assert_eq!(
            log_map.get("name").unwrap(),
            &ConfigValue::Str("default.log".to_string())
        );
        assert_eq!(
            log_map.get("level").unwrap(),
            &ConfigValue::Str("info".to_string())
        );
    } else {
        panic!("expected 'log' to be a Table");
    }
}

#[test]
fn empty_and_whitespace_lines_test_empty_and_whitespace_lines() {
    let input = "\n\n\nkey = value\n\n";
    let nested_map = parse_to_map(input);
    // Only one setting line "key = value"
    assert_eq!(nested_map.len(), 1);
    assert_eq!(
        nested_map.get("key").unwrap(),
        &ConfigValue::Str("value".to_string())
    );
}

#[test]
fn multiple_dots_test_multiple_dots() {
    let input = "a.b.c.d = final\n";
    let nested_map = parse_to_map(input);

    // structure: { "a": { "b": { "c": { "d": "final" }}}}
    if let Some(ConfigValue::Table(a_map)) = nested_map.get("a") {
        if let Some(ConfigValue::Table(b_map)) = a_map.get("b") {
            if let Some(ConfigValue::Table(c_map)) = b_map.get("c") {
                assert_eq!(
                    c_map.get("d").unwrap(),
                    &ConfigValue::Str("final".to_string())
                );
            } else {
                panic!("missing c map");
            }
        } else {
            panic!("missing b map");
        }
    } else {
        panic!("missing a map");
    }
}
