use simple_perm_manager::action_serialization::deserialize_actions;
use simple_perm_manager::action_serialization::JsonTree;
use simple_perm_manager::ActionSet;
use simple_perm_manager::Permission;
use simple_perm_manager::PermissionError;

fn set_of(items: &[&str]) -> ActionSet {
    ActionSet::from_vec(items.iter().map(|s| String::from(*s)).collect())
}

fn entry(key: &str, value: JsonTree) -> (String, JsonTree) {
    (String::from(key), value)
}

fn group(entries: Vec<(String, JsonTree)>) -> JsonTree {
    JsonTree::Group(entries)
}

#[test]
fn deserialize_actions_test() {
    // A nested document yields the joined action identifiers.
    let data_simple = vec![
        entry(
            "building",
            group(vec![
                entry("view", JsonTree::Flag(true)),
                entry("meter", group(vec![entry("create", JsonTree::Flag(true))])),
            ]),
        ),
        entry("user", group(vec![entry("edit", JsonTree::Flag(true))])),
        entry("simple_action", JsonTree::Flag(true)),
    ];
    let actions = deserialize_actions(0, "", &data_simple).unwrap();
    assert_eq!(
        actions,
        set_of(&[
            "building:view",
            "building:meter:create",
            "user:edit",
            "simple_action",
        ])
    );

    // A flat document of booleans.
    let data_simple = vec![
        entry("view", JsonTree::Flag(true)),
        entry("create", JsonTree::Flag(true)),
    ];
    let actions = deserialize_actions(0, "", &data_simple).unwrap();
    assert_eq!(actions, set_of(&["view", "create"]));

    // Nesting that reaches the maximum depth fails.
    let mut nested = group(Vec::new());
    for _ in 0..21 {
        nested = group(vec![entry("obj", nested)]);
    }
    let too_deep = match nested {
        JsonTree::Group(entries) => entries,
        _ => panic!("error in test data should be a group"),
    };
    assert!(matches!(
        deserialize_actions(0, "", &too_deep),
        Err(PermissionError::TooDeep)
    ));

    // The same bound holds when the count does not start at 0.
    let mut short = group(Vec::new());
    for _ in 0..3 {
        short = group(vec![entry("obj", short)]);
    }
    let short_entries = match short {
        JsonTree::Group(entries) => entries,
        _ => panic!("error in test data should be a group"),
    };
    assert!(matches!(
        deserialize_actions(17, "", &short_entries),
        Err(PermissionError::TooDeep)
    ));
    deserialize_actions(16, "", &short_entries).unwrap();

    // A value that is neither an object nor a boolean is malformed.
    let data_not_valid1 = vec![entry(
        "obj",
        group(vec![entry("obj1", JsonTree::Other(String::from("3")))]),
    )];
    assert!(matches!(
        deserialize_actions(0, "", &data_not_valid1),
        Err(PermissionError::MalformedTree { .. })
    ));
    let data_not_valid2 = vec![entry("true", JsonTree::Other(String::from("[]")))];
    assert!(matches!(
        deserialize_actions(0, "", &data_not_valid2),
        Err(PermissionError::MalformedTree { .. })
    ));
}

#[test]
fn serialize_actions_test() {
    // Nested actions regroup into the expected document.
    let actions = set_of(&[
        "building:view",
        "building:create",
        "building:meter:view",
        "building:meter:readings:view",
        "building:meter:readings:edit",
        "user:view",
    ]);
    let rendered = Permission::from_actions(&actions, &None).to_json().unwrap();
    let got: serde_json::Value = serde_json::from_str(&rendered).unwrap();
    let expected: serde_json::Value = serde_json::from_str(
        r#"{
        "building": {
            "view": true,
            "create": true,
            "meter": {
                "view": true,
                "readings": {
                    "view": true,
                    "edit": true
                }
            }
        },
        "user": {
            "view": true
        }
    }"#,
    )
    .unwrap();
    assert_eq!(got, expected);

    // An empty set renders as the empty object.
    let actions = set_of(&[]);
    let rendered = Permission::from_actions(&actions, &None).to_json().unwrap();
    let got: serde_json::Value = serde_json::from_str(&rendered).unwrap();
    let expected: serde_json::Value = serde_json::from_str(r#"{}"#).unwrap();
    assert_eq!(got, expected);

    // Actions without the divider stay flat.
    let actions = set_of(&["building_view", "building_create", "user_view"]);
    let rendered = Permission::from_actions(&actions, &None).to_json().unwrap();
    let got: serde_json::Value = serde_json::from_str(&rendered).unwrap();
    let expected: serde_json::Value = serde_json::from_str(
        r#"{
        "building_view": true,
        "building_create": true,
        "user_view": true
    }"#,
    )
    .unwrap();
    assert_eq!(got, expected);
}

#[test]
fn depth_boundary_test() {
    // A document with 20 nested subgroup levels fails, 19 succeed.
    let mut doc = String::from(r#"{"a":true}"#);
    for _ in 0..19 {
        doc = format!(r#"{{"a":{}}}"#, doc);
    }
    Permission::from_json(&doc, &None).unwrap();
    let doc_20 = format!(r#"{{"a":{}}}"#, doc);
    assert!(matches!(
        Permission::from_json(&doc_20, &None),
        Err(PermissionError::TooDeep)
    ));
}

#[test]
fn malformed_value_reports_key_and_value_test() {
    let err = Permission::from_json(r#"{"a": 3}"#, &None).unwrap_err();
    match err {
        PermissionError::MalformedTree { key, value } => {
            assert_eq!(key, "a");
            assert_eq!(value, "3");
        }
        other => panic!("expected a malformed tree, got {:?}", other),
    }
}

#[test]
fn conflicting_path_test() {
    // "a" is a leaf where "a:b" needs a group: no tree holds both.
    let actions = set_of(&["a", "a:b"]);
    let err = Permission::from_actions(&actions, &None).to_json().unwrap_err();
    match err {
        PermissionError::ConflictingPath { action } => {
            assert_eq!(action, "a:b");
        }
        other => panic!("expected a conflicting path, got {:?}", other),
    }
}

#[test]
fn round_trip_test() {
    // Encoding and decoding a conflict-free set gives the set back.
    let actions = set_of(&["building:view", "building:meter:create", "user:delete", "solo"]);
    let perm = Permission::from_actions(&actions, &None);
    let rendered = perm.to_json().unwrap();
    let back = Permission::from_json(&rendered, &None).unwrap();
    assert_eq!(actions, *back.get_actions());
}

#[test]
fn concrete_scenario_test() {
    // The worked example: decode, then re-encode to an equivalent tree.
    let data = r#"{"building":{"view":true,"meter":{"create":true}},"user":{"delete":true}}"#;
    let perm = Permission::from_json(data, &None).unwrap();
    assert_eq!(
        *perm.get_actions(),
        set_of(&["building:view", "building:meter:create", "user:delete"])
    );
    let rendered = perm.to_json().unwrap();
    let got: serde_json::Value = serde_json::from_str(&rendered).unwrap();
    let expected: serde_json::Value = serde_json::from_str(data).unwrap();
    assert_eq!(got, expected);
}

#[test]
fn false_leaves_are_omitted_test() {
    // A template with a leaf flipped to false grants everything but it.
    let data = r#"{"user":{"create":true,"edit":true,"delete":false}}"#;
    let perm = Permission::from_json(data, &None).unwrap();
    assert_eq!(*perm.get_actions(), set_of(&["user:create", "user:edit"]));
    assert!(!perm.contains_action("user:delete"));
}
