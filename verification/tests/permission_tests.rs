use simple_perm_manager::ActionSet;
use simple_perm_manager::Permission;
use simple_perm_manager::PermissionError;
use simple_perm_manager::ScopeId;

fn set_of(items: &[&str]) -> ActionSet {
    ActionSet::from_vec(items.iter().map(|s| String::from(*s)).collect())
}

#[test]
fn from_actions_test() {
    let actions = set_of(&["view", "create"]);
    let id = ScopeId::fresh();
    let p = Permission::from_actions(&actions, &Some(id));
    let p2 = Permission::from_actions(&actions, &None);

    assert_eq!(actions, *p.get_actions());
    assert!(p.is_managed());
    assert!(!p2.is_managed());
    let twin = Permission::from_actions(&actions, &Some(id));
    assert!(p.has_same_manager(&twin));
}

#[test]
fn from_json_test() {
    // Not valid JSON at all.
    let data = r#"{ building: true }"#;
    assert!(matches!(
        Permission::from_json(data, &None),
        Err(PermissionError::InvalidJson)
    ));

    // Not a single JSON object.
    let data = r#" "building": { "view": true } "#;
    assert!(Permission::from_json(data, &None).is_err());

    // A well-formed document yields the joined actions.
    let data = r#"{
        "building": {
            "view": true,
            "create": true,
            "meter": { "view": true },
            "room": { "view": true }
        },
        "user": { "view": true }
    }"#;
    let resulting_actions = set_of(&[
        "building:view",
        "building:create",
        "building:meter:view",
        "building:room:view",
        "user:view",
    ]);
    let perm = Permission::from_json(data, &None).unwrap();
    assert_eq!(*perm.get_actions(), resulting_actions);
}

#[test]
fn from_json_root_not_object_test() {
    // The root parses as JSON but is no object.
    let err = Permission::from_json("true", &None).unwrap_err();
    assert!(matches!(err, PermissionError::MalformedTree { .. }));
    let err = Permission::from_json("[1, 2]", &None).unwrap_err();
    assert!(matches!(err, PermissionError::MalformedTree { .. }));
}

#[test]
fn to_json_test() {
    let data = r#"
    {
        "building": {
          "view": true,
          "meter": {
            "create": true
          },
          "room": {
            "edit": true
          }
        },
        "user": {
            "delete": true

        }
    }"#;

    let my_perm = Permission::from_json(data, &None).unwrap();
    let v1: serde_json::Value = serde_json::from_str(data).unwrap();
    let v2: serde_json::Value = serde_json::from_str(&my_perm.to_json().unwrap()).unwrap();
    assert_eq!(v1, v2);
}

#[test]
fn get_actions_test() {
    let actions = set_of(&["view", "create"]);
    let id = ScopeId::fresh();
    let p = Permission::from_actions(&actions, &Some(id));

    assert_eq!(actions, *p.get_actions());
}

#[test]
fn is_managed_test() {
    let actions = set_of(&["view", "create"]);
    let id = ScopeId::fresh();
    let managed = Permission::from_actions(&actions, &Some(id));
    let not_managed = Permission::from_actions(&actions, &None);

    assert_eq!(managed.is_managed(), true);
    assert_eq!(not_managed.is_managed(), false);
}

#[test]
fn has_same_manager_test() {
    let actions = set_of(&["view", "create"]);
    let id = ScopeId::fresh();
    let p1 = Permission::from_actions(&actions, &Some(id));
    let p2 = Permission::from_actions(&actions, &Some(id));
    let p3 = Permission::from_actions(&actions, &Some(ScopeId::fresh()));
    let p4 = Permission::from_actions(&actions, &None);

    assert_eq!(p1.has_same_manager(&p2), true);
    assert_eq!(p1.has_same_manager(&p3), false);
    assert_eq!(p1.has_same_manager(&p4), false);
}

#[test]
fn union_test_no_duplicated() {
    let id = ScopeId::fresh();
    let p1 = Permission::from_actions(&set_of(&["view", "create"]), &Some(id));
    let copy_p1 = Permission::from_actions(&set_of(&["view", "create"]), &Some(id));
    assert_eq!(
        *p1.union(&copy_p1).unwrap().get_actions(),
        set_of(&["view", "create"])
    );
}

#[test]
fn union_test_overlap() {
    let id = ScopeId::fresh();
    let p1 = Permission::from_actions(&set_of(&["view", "create"]), &Some(id));
    let overlap_p1 = Permission::from_actions(&set_of(&["create", "delete"]), &Some(id));

    assert_eq!(
        *p1.union(&overlap_p1).unwrap().get_actions(),
        set_of(&["view", "create", "delete"])
    );
}

#[test]
fn union_test_empty() {
    let id = ScopeId::fresh();
    let p1 = Permission::from_actions(&set_of(&["view", "create"]), &Some(id));
    let empty = Permission::from_actions(&set_of(&[]), &Some(id));

    assert_eq!(
        *p1.union(&empty).unwrap().get_actions(),
        set_of(&["view", "create"])
    );
}

#[test]
fn union_test_diff_manager_catch_unwind() {
    // A union across managers, or with an unmanaged permission, fails.
    let id = ScopeId::fresh();
    let p1 = Permission::from_actions(&set_of(&["view", "create"]), &Some(id));
    let diff_id = Permission::from_actions(&set_of(&[]), &Some(ScopeId::fresh()));
    let none_id = Permission::from_actions(&set_of(&[]), &None);

    assert!(matches!(
        p1.union(&diff_id),
        Err(PermissionError::IncompatibleScope)
    ));
    assert!(matches!(
        p1.union(&none_id),
        Err(PermissionError::IncompatibleScope)
    ));
}

#[test]
#[should_panic]
fn union_test_diff_manager() {
    let id = ScopeId::fresh();
    let p1 = Permission::from_actions(&set_of(&["view", "create"]), &Some(id));
    let diff_id = Permission::from_actions(&set_of(&[]), &Some(ScopeId::fresh()));

    assert_eq!(
        *p1.union(&diff_id).unwrap().get_actions(),
        set_of(&["view", "create"])
    );
}

#[test]
#[should_panic]
fn union_test_none_manager() {
    let id = ScopeId::fresh();
    let p1 = Permission::from_actions(&set_of(&["view", "create"]), &Some(id));
    let none_id = Permission::from_actions(&set_of(&[]), &None);

    assert_eq!(
        *p1.union(&none_id).unwrap().get_actions(),
        set_of(&["view", "create"])
    );
}

#[test]
fn difference_test_from_empty() {
    let id = ScopeId::fresh();
    let empty = Permission::from_actions(&set_of(&[]), &Some(id));
    let full = Permission::from_actions(&set_of(&["view"]), &Some(id));

    assert_eq!(*empty.difference(&full).unwrap().get_actions(), set_of(&[]));
}

#[test]
fn difference_test_perm_empty() {
    let id = ScopeId::fresh();
    let empty = Permission::from_actions(&set_of(&[]), &Some(id));
    let full = Permission::from_actions(&set_of(&["view"]), &Some(id));

    assert_eq!(
        *full.difference(&empty).unwrap().get_actions(),
        set_of(&["view"])
    );
}

#[test]
fn difference_test_diff_items() {
    let id = ScopeId::fresh();
    let p1 = Permission::from_actions(&set_of(&["view", "create"]), &Some(id));
    let p2 = Permission::from_actions(&set_of(&["delete", "edit"]), &Some(id));

    assert_eq!(
        *p1.difference(&p2).unwrap().get_actions(),
        set_of(&["view", "create"])
    );
}

#[test]
fn difference_test_overlap() {
    let id = ScopeId::fresh();
    let p1 = Permission::from_actions(&set_of(&["view", "create"]), &Some(id));
    let p2 = Permission::from_actions(&set_of(&["create", "edit"]), &Some(id));

    assert_eq!(*p1.difference(&p2).unwrap().get_actions(), set_of(&["view"]));
}

#[test]
fn difference_test_perm_diff_manager() {
    let id = ScopeId::fresh();
    let p1 = Permission::from_actions(&set_of(&["view"]), &Some(id));
    let diff_id = Permission::from_actions(&set_of(&[]), &Some(ScopeId::fresh()));
    let none_id = Permission::from_actions(&set_of(&[]), &None);

    assert!(matches!(
        p1.difference(&diff_id),
        Err(PermissionError::IncompatibleScope)
    ));
    assert!(matches!(
        p1.difference(&none_id),
        Err(PermissionError::IncompatibleScope)
    ));
}

#[test]
fn contains_test() {
    let id = ScopeId::fresh();
    let p1 = Permission::from_actions(&set_of(&["view", "create", "edit"]), &Some(id));
    let p2 = Permission::from_actions(&set_of(&["view", "create"]), &Some(id));
    let p3 = Permission::from_actions(&set_of(&["view", "create", "delete"]), &Some(id));
    let p4 = Permission::from_actions(&set_of(&["delete"]), &Some(id));

    assert_eq!(p1.contains(&p2).unwrap(), true);
    assert_eq!(p1.contains(&p3).unwrap(), false);
    assert_eq!(p1.contains(&p4).unwrap(), false);
}

#[test]
fn contains_test_from_empty() {
    let id = ScopeId::fresh();
    let p1 = Permission::from_actions(&set_of(&[]), &Some(id));
    let p2 = Permission::from_actions(&set_of(&["view", "create"]), &Some(id));

    assert_eq!(p1.contains(&p2).unwrap(), false);
}

#[test]
fn contains_test_perm_empty() {
    let id = ScopeId::fresh();
    let p1 = Permission::from_actions(&set_of(&["view", "create"]), &Some(id));
    let p2 = Permission::from_actions(&set_of(&[]), &Some(id));

    assert_eq!(p1.contains(&p2).unwrap(), true);
}

#[test]
fn contains_test_perm_diff_manager() {
    let id = ScopeId::fresh();
    let p1 = Permission::from_actions(&set_of(&["view"]), &Some(id));
    let diff_id = Permission::from_actions(&set_of(&[]), &Some(ScopeId::fresh()));
    let none_id = Permission::from_actions(&set_of(&[]), &None);

    assert!(matches!(
        p1.contains(&diff_id),
        Err(PermissionError::IncompatibleScope)
    ));
    assert!(matches!(
        p1.contains(&none_id),
        Err(PermissionError::IncompatibleScope)
    ));
}

#[test]
fn contains_action_test() {
    let id = ScopeId::fresh();
    let p1 = Permission::from_actions(&set_of(&["view", "create"]), &Some(id));

    assert_eq!(p1.contains_action("view"), true);
    assert_eq!(p1.contains_action("delete"), false);
    assert_eq!(p1.contains_action("other"), false);
    assert_eq!(p1.contains_action(""), false);
}

#[test]
fn union_idempotent_test() {
    // P ∪ P = P, scope and actions alike.
    let id = ScopeId::fresh();
    let p = Permission::from_actions(&set_of(&["view", "create"]), &Some(id));
    let u = p.union(&p).unwrap();
    assert_eq!(*u.get_actions(), *p.get_actions());
    assert!(u.has_same_manager(&p));
}

#[test]
fn contains_reflexive_test() {
    let p = Permission::from_actions(&set_of(&["view", "create"]), &None);
    assert_eq!(p.contains(&p).unwrap(), true);
    let empty = Permission::from_actions(&set_of(&[]), &None);
    assert_eq!(empty.contains(&empty).unwrap(), true);
}

#[test]
fn union_contains_parts_test() {
    let id = ScopeId::fresh();
    let a = Permission::from_actions(&set_of(&["view"]), &Some(id));
    let b = Permission::from_actions(&set_of(&["edit", "delete"]), &Some(id));
    let u = a.union(&b).unwrap();
    assert_eq!(u.contains(&a).unwrap(), true);
    assert_eq!(u.contains(&b).unwrap(), true);
}

#[test]
fn difference_excludes_test() {
    let id = ScopeId::fresh();
    let a = Permission::from_actions(&set_of(&["view", "edit"]), &Some(id));
    let b = Permission::from_actions(&set_of(&["edit"]), &Some(id));
    let d = a.difference(&b).unwrap();
    assert_eq!(d.contains(&b).unwrap(), false);

    // The one exception: an empty subtrahend is still contained.
    let empty = Permission::from_actions(&set_of(&[]), &Some(id));
    let d2 = a.difference(&empty).unwrap();
    assert_eq!(d2.contains(&empty).unwrap(), true);
}
