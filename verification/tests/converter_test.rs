use confparser::{flatten_to_nested, ConfigMap, NestedNode};

#[test]
fn test_flatten_to_nested_json_basic() {
    let mut flat_map = ConfigMap::new();
    flat_map.insert("endpoint".to_string(), "localhost:3000".to_string());
    flat_map.insert("log.file".to_string(), "/var/log/console.log".to_string());
    flat_map.insert("log.name".to_string(), "default.log".to_string());

    let nested = flatten_to_nested(&flat_map).unwrap();

    let expected = NestedNode::Internal(vec![
        (
            "endpoint".to_string(),
            NestedNode::Leaf("localhost:3000".to_string()),
        ),
        (
            "log".to_string(),
            NestedNode::Internal(vec![
                (
                    "file".to_string(),
                    NestedNode::Leaf("/var/log/console.log".to_string()),
                ),
                (
                    "name".to_string(),
                    NestedNode::Leaf("default.log".to_string()),
                ),
            ]),
        ),
    ]);

    assert_eq!(nested, expected);
}

#[test]
fn test_nested_with_multiple_levels() {
    let mut flat_map = ConfigMap::new();
    flat_map.insert("db.mysql.username".to_string(), "root".to_string());
    flat_map.insert("db.mysql.password".to_string(), "secret".to_string());
    flat_map.insert("db.postgres.port".to_string(), "5432".to_string());

    let nested = flatten_to_nested(&flat_map).unwrap();

    let expected = NestedNode::Internal(vec![(
        "db".to_string(),
        NestedNode::Internal(vec![
            (
                "mysql".to_string(),
                NestedNode::Internal(vec![
                    (
                        "password".to_string(),
                        NestedNode::Leaf("secret".to_string()),
                    ),
                    (
                        "username".to_string(),
                        NestedNode::Leaf("root".to_string()),
                    ),
                ]),
            ),
            (
                "postgres".to_string(),
                NestedNode::Internal(vec![(
                    "port".to_string(),
                    NestedNode::Leaf("5432".to_string()),
                )]),
            ),
        ]),
    )]);

    assert_eq!(nested, expected);
}
