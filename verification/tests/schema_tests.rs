use sysctl_parser::schema::parse_line;
use sysctl_parser::schema::parse_scheme;
use sysctl_parser::schema::validate_config;
use sysctl_parser::schema::SchemeField;
use sysctl_parser::schema::SchemeType;
use sysctl_parser::ConfigTable;
use sysctl_parser::ConfigValue;

#[test]
fn test_parse_bool_line() {
    let input = "is_active -> bool";
    let parsed = parse_line(input).unwrap();
    assert_eq!(
        parsed,
        SchemeField {
            name: "is_active".into(),
            field_type: SchemeType::Bool,
        }
    );
}

#[test]
fn test_parse_string_line() {
    let input = "username->string";
    let parsed = parse_line(input).unwrap();
    assert_eq!(
        parsed,
        SchemeField {
            name: "username".into(),
            field_type: SchemeType::String,
        }
    );
}

#[test]
fn test_parse_scheme_multiple_lines() {
    let input = "enable_feature -> bool\ndisplay_name -> string\nanother_flag->bool\n";
    let fields = parse_scheme(input).expect("Failed to parse scheme");
    assert_eq!(
        fields,
        vec![
            SchemeField {
                name: "enable_feature".into(),
                field_type: SchemeType::Bool
            },
            SchemeField {
                name: "display_name".into(),
                field_type: SchemeType::String
            },
            SchemeField {
                name: "another_flag".into(),
                field_type: SchemeType::Bool
            },
        ]
    );
}

#[test]
fn test_parse_error_line() {
    let input = "invalid line";
    let result = parse_line(input);
    assert!(result.is_err());
}

#[test]
fn test_validation_ok() {
    // schema
    let schema = vec![
        SchemeField {
            name: "is_active".into(),
            field_type: SchemeType::Bool,
        },
        SchemeField {
            name: "username".into(),
            field_type: SchemeType::String,
        },
    ];

    // config
    let mut config = ConfigTable::new();
    config.insert("is_active".to_string(), ConfigValue::Str("true".to_string()));
    config.insert("username".to_string(), ConfigValue::Str("Alice".to_string()));

    // should pass
    let result = validate_config(&schema, &config);
    assert!(
        result.is_ok(),
        "Expected validation to succeed, got {:?}",
        result
    );
}

#[test]
fn test_validation_missing_field() {
    // schema
    let schema = vec![
        SchemeField {
            name: "is_active".into(),
            field_type: SchemeType::Bool,
        },
        SchemeField {
            name: "username".into(),
            field_type: SchemeType::String,
        },
    ];

    // config: only "is_active" is present, "username" missing
    let mut config = ConfigTable::new();
    config.insert(
        "is_active".to_string(),
        ConfigValue::Str("false".to_string()),
    );

    // should fail because "username" is missing
    let result = validate_config(&schema, &config);
    assert!(
        result.is_err(),
        "Expected validation to fail, got {:?}",
        result
    );
    let err_msg = result.unwrap_err();
    assert!(
        err_msg.contains("Missing required field"),
        "Error message mismatch: {}",
        err_msg
    );
}
