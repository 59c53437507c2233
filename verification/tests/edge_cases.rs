use confparser::{
    flatten_to_nested, is_ignorable_line, parse_schema_str, parse_str, parse_str_with_limit,
    remove_inline_comment, validate_with_schema, ConfigMap, NestError, ParseError, SchemaEntry,
    SchemaMap, SchemaType,
};

#[test]
fn ignorable_lines_are_classified() {
    assert!(is_ignorable_line(""));
    assert!(is_ignorable_line("   \t"));
    assert!(is_ignorable_line("# comment"));
    assert!(is_ignorable_line("  ; comment"));
    assert!(is_ignorable_line("-disabled.key = 1"));
    assert!(!is_ignorable_line("key = value"));
    assert!(!is_ignorable_line("key"));
}

#[test]
fn inline_comment_removal_cuts_at_first_hash() {
    assert_eq!(remove_inline_comment("1 # comment"), "1 ");
    assert_eq!(remove_inline_comment("a # b # c"), "a ");
    assert_eq!(remove_inline_comment("no comment"), "no comment");
    assert_eq!(remove_inline_comment(""), "");
}

#[test]
fn round_trip_flatten_then_lookup() {
    let input = "
        endpoint = localhost:3000
        log.file = /var/log/console.log
        log.name = default.log
        db.mysql.user = root
    ";
    let flat = parse_str(input).unwrap();
    let tree = flatten_to_nested(&flat).unwrap();
    assert_eq!(tree.lookup("endpoint"), Some(&"localhost:3000".to_string()));
    assert_eq!(tree.lookup("log.file"), Some(&"/var/log/console.log".to_string()));
    assert_eq!(tree.lookup("log.name"), Some(&"default.log".to_string()));
    assert_eq!(tree.lookup("db.mysql.user"), Some(&"root".to_string()));
    assert_eq!(tree.lookup("log"), None);
    assert_eq!(tree.lookup("db.mysql"), None);
    assert_eq!(tree.lookup("missing"), None);
}

#[test]
fn size_counts_unique_keys_last_write_wins() {
    let input = "
        a = 1
        b = 2
        a = 3
    ";
    let flat = parse_str(input).unwrap();
    assert_eq!(flat.len(), 2);
    assert_eq!(flat.get("a"), Some(&"3".to_string()));
    assert_eq!(flat.get("b"), Some(&"2".to_string()));
}

#[test]
fn comment_lines_with_equals_contribute_nothing() {
    let input = "
        # commented.key = 1
        ; other.key = 2
        - dashed.key = 3
        real.key = 4
    ";
    let flat = parse_str(input).unwrap();
    assert_eq!(flat.len(), 1);
    assert_eq!(flat.get("real.key"), Some(&"4".to_string()));
    assert!(flat.get("commented.key").is_none());
    assert!(flat.get("other.key").is_none());
    assert!(flat.get("dashed.key").is_none());
}

#[test]
fn inline_comment_is_stripped_from_value() {
    let flat = parse_str("kernel.x = 1 # comment").unwrap();
    assert_eq!(flat.get("kernel.x"), Some(&"1".to_string()));
}

#[test]
fn value_of_exactly_4096_succeeds() {
    let value = "a".repeat(4096);
    let input = format!("kernel.long_value = {}", value);
    let flat = parse_str(&input).unwrap();
    assert_eq!(flat.get("kernel.long_value"), Some(&value));
}

#[test]
fn custom_limit_is_honoured() {
    assert!(parse_str_with_limit("k = abcde", 4).is_err());
    let flat = parse_str_with_limit("k = abcde", 5).unwrap();
    assert_eq!(flat.get("k"), Some(&"abcde".to_string()));
}

#[test]
fn line_without_equals_is_invalid() {
    let result = parse_str("no separator here");
    match result {
        Err(ParseError::InvalidLine { line_number, content }) => {
            assert_eq!(line_number, 1);
            assert_eq!(content, "no separator here");
        },
        other => panic!("expected an invalid-line error, got {:?}", other),
    }
}

#[test]
fn value_too_long_reports_key_and_length() {
    let input = format!("k = {}", "b".repeat(5000));
    match parse_str(&input) {
        Err(ParseError::ValueTooLong { line_number, key, length }) => {
            assert_eq!(line_number, 1);
            assert_eq!(key, "k");
            assert_eq!(length, 5000);
        },
        other => panic!("expected a value-too-long error, got {:?}", other),
    }
}

#[test]
fn empty_key_and_empty_value_are_accepted() {
    let flat = parse_str("= v\nk =").unwrap();
    assert_eq!(flat.get(""), Some(&"v".to_string()));
    assert_eq!(flat.get("k"), Some(&"".to_string()));
}

#[test]
fn nesting_conflict_is_reported_not_fatal() {
    let mut flat = ConfigMap::new();
    flat.insert("a".to_string(), "1".to_string());
    flat.insert("a.b".to_string(), "2".to_string());
    match flatten_to_nested(&flat) {
        Err(NestError::InternalPathExpected { key }) => assert_eq!(key, "a.b"),
        other => panic!("expected a path conflict, got {:?}", other),
    }
}

#[test]
fn schema_type_expressions_parse() {
    assert_eq!(SchemaType::from_str("string"), Some(SchemaType::String(None)));
    assert_eq!(SchemaType::from_str("STRING"), Some(SchemaType::String(None)));
    assert_eq!(SchemaType::from_str(" Bool "), Some(SchemaType::Bool));
    assert_eq!(SchemaType::from_str("int"), Some(SchemaType::Int));
    assert_eq!(SchemaType::from_str("float"), Some(SchemaType::Float));
    assert_eq!(SchemaType::from_str("string(10)"), Some(SchemaType::String(Some(10))));
    assert_eq!(
        SchemaType::from_str("[auto, \"manual\", self]"),
        Some(SchemaType::Enum(vec![
            "auto".to_string(),
            "manual".to_string(),
            "self".to_string(),
        ]))
    );
    assert_eq!(
        SchemaType::from_str("[ , a,, b ]"),
        Some(SchemaType::Enum(vec!["a".to_string(), "b".to_string()]))
    );
    assert_eq!(SchemaType::from_str("enum"), None);
    assert_eq!(SchemaType::from_str("string(abc)"), None);
    assert_eq!(SchemaType::from_str(""), None);
}

#[test]
fn schema_metadata_sets_required_and_default() {
    let schema = parse_schema_str("log.level = string(default=info)\nlog.file = string(required)")
        .unwrap();
    assert_eq!(
        schema.get("log.level"),
        Some(&SchemaEntry {
            typ: SchemaType::String(None),
            required: false,
            default: Some("info".to_string()),
        })
    );
    assert_eq!(
        schema.get("log.file"),
        Some(&SchemaEntry { typ: SchemaType::String(None), required: true, default: None })
    );
}

#[test]
fn required_with_default_is_rejected_at_schema_parse() {
    let result = parse_schema_str("log.file = string(required, default=x)");
    assert!(matches!(result, Err(ParseError::InvalidLine { line_number: 0, .. })));
}

#[test]
fn default_for_missing_optional_key_is_inserted() {
    let mut config = ConfigMap::new();
    let mut schema = SchemaMap::new();
    schema.insert(
        "log.level".to_string(),
        SchemaEntry {
            typ: SchemaType::String(None),
            required: false,
            default: Some("info".to_string()),
        },
    );
    let result = validate_with_schema(&mut config, &schema);
    assert!(result.is_ok());
    assert_eq!(config.get("log.level"), Some(&"info".to_string()));
}

#[test]
fn two_violations_are_both_reported() {
    let mut config = parse_str("endpoint = localhost:3000\ndebug = yes\nlog.max = abc").unwrap();
    let schema = parse_schema_str("endpoint = string\ndebug = bool\nlog.max = int").unwrap();
    let errors = validate_with_schema(&mut config, &schema).unwrap_err();
    assert_eq!(errors.len(), 2);
    assert!(errors.iter().any(|e| e.message().contains("debug")));
    assert!(errors.iter().any(|e| e.message().contains("log.max")));
    assert!(!errors.iter().any(|e| e.message().contains("endpoint")));
}

#[test]
fn violation_messages_name_key_value_and_type() {
    let mut config = parse_str("debug = yes").unwrap();
    let schema = parse_schema_str("debug = bool\nport = int(required)").unwrap();
    let errors = validate_with_schema(&mut config, &schema).unwrap_err();
    assert_eq!(errors.len(), 2);
    assert_eq!(errors[0].message(), "debug: 'yes' is not a valid bool");
    assert_eq!(errors[1].message(), "port: required field is missing");
}

#[test]
fn enum_accepts_exactly_its_literals() {
    let mut schema = SchemaMap::new();
    schema.insert(
        "mode".to_string(),
        SchemaEntry {
            typ: SchemaType::Enum(vec![
                "auto".to_string(),
                "manual".to_string(),
                "self".to_string(),
            ]),
            required: false,
            default: None,
        },
    );
    for accepted in ["auto", "manual", "self"] {
        let mut config = ConfigMap::new();
        config.insert("mode".to_string(), accepted.to_string());
        assert!(validate_with_schema(&mut config, &schema).is_ok());
    }
    for rejected in ["invalid", "Auto", "AUTO", "MANUAL", "Self", ""] {
        let mut config = ConfigMap::new();
        config.insert("mode".to_string(), rejected.to_string());
        assert!(validate_with_schema(&mut config, &schema).is_err());
    }
}

#[test]
fn bool_matching_ignores_ascii_case() {
    let schema = parse_schema_str("debug = bool").unwrap();
    for ok in ["true", "false", "TRUE", "False", "tRuE"] {
        let mut config = ConfigMap::new();
        config.insert("debug".to_string(), ok.to_string());
        assert!(validate_with_schema(&mut config, &schema).is_ok());
    }
    for bad in ["yes", "no", "1", "0", ""] {
        let mut config = ConfigMap::new();
        config.insert("debug".to_string(), bad.to_string());
        assert!(validate_with_schema(&mut config, &schema).is_err());
    }
}

#[test]
fn int_values_must_fit_a_signed_64_bit_word() {
    let schema = parse_schema_str("n = int").unwrap();
    for ok in ["0", "-1", "+42", "9223372036854775807", "-9223372036854775808", "007"] {
        let mut config = ConfigMap::new();
        config.insert("n".to_string(), ok.to_string());
        assert!(validate_with_schema(&mut config, &schema).is_ok(), "rejected {}", ok);
    }
    for bad in ["", "-", "+", "1.5", "abc", "9223372036854775808", "-9223372036854775809", "1 "] {
        let mut config = ConfigMap::new();
        config.insert("n".to_string(), bad.to_string());
        assert!(validate_with_schema(&mut config, &schema).is_err(), "accepted {}", bad);
    }
}

#[test]
fn float_values_follow_the_decimal_grammar() {
    let schema = parse_schema_str("x = float").unwrap();
    for ok in ["3.14", "-0.5", "+1e5", "2E-3", ".5", "1.", "42"] {
        let mut config = ConfigMap::new();
        config.insert("x".to_string(), ok.to_string());
        assert!(validate_with_schema(&mut config, &schema).is_ok(), "rejected {}", ok);
    }
    for bad in ["abc.def", "", "1.2.3", "1e", "e5", "1e5.5", "--1"] {
        let mut config = ConfigMap::new();
        config.insert("x".to_string(), bad.to_string());
        assert!(validate_with_schema(&mut config, &schema).is_err(), "accepted {}", bad);
    }
}

#[test]
fn keys_absent_from_schema_are_ignored() {
    let mut config = parse_str("extra.key = whatever\ndebug = true").unwrap();
    let schema = parse_schema_str("debug = bool").unwrap();
    assert!(validate_with_schema(&mut config, &schema).is_ok());
}

#[test]
fn crlf_line_endings_are_handled() {
    let flat = parse_str("a = 1\r\nb = 2\r\n").unwrap();
    assert_eq!(flat.get("a"), Some(&"1".to_string()));
    assert_eq!(flat.get("b"), Some(&"2".to_string()));
    assert_eq!(flat.len(), 2);
}
