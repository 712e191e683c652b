use simple_perm_manager::ActionSet;
use simple_perm_manager::Permission;
use simple_perm_manager::PermissionError;
use simple_perm_manager::PermissionManager;

fn set_of(items: &[&str]) -> ActionSet {
    ActionSet::from_vec(items.iter().map(|s| String::from(*s)).collect())
}

#[test]
fn tests_from_actions_test() {
    let actions = set_of(&["view", "create", "edit", "delete"]);
    let pm = PermissionManager::from_actions(actions.clone());

    assert_eq!(*pm.get_universe().get_actions(), actions);
}

#[test]
fn tests_from_json_test() {
    // Two equal universes written as a set and as a document.
    let actions = set_of(&[
        "building:view",
        "building:meter:create",
        "building:room:edit",
        "user:delete",
    ]);

    let actions_json = r#"
    {
        "building": {
          "view": true,
          "meter": {
            "create": true
          },
          "room": {
            "edit": true
          }
        },
        "user": {
            "delete": true
          }
    }"#;

    let pm = PermissionManager::from_json(actions_json).unwrap();
    let pm2 = PermissionManager::from_actions(actions);

    assert_eq!(
        *pm.get_universe().get_actions(),
        *pm2.get_universe().get_actions()
    );
}

#[test]
fn get_universe_test() {
    let actions = set_of(&["view", "create", "edit", "delete"]);
    let pm = PermissionManager::from_actions(actions.clone());

    assert_eq!(*pm.get_universe().get_actions(), actions);
}

#[test]
fn validate_perm_test() {
    let actions = set_of(&["view", "create"]);
    let actions2 = set_of(&["view", "create", "edit", "delete"]);
    let pm = PermissionManager::from_actions(actions.clone());
    let pm_second = PermissionManager::from_actions(actions.clone());

    let managed_perm = pm.perm_from_actions(actions.clone()).unwrap();
    let managed_perm_diff_manager = pm_second.perm_from_actions(actions.clone()).unwrap();
    let unmanaged = Permission::from_actions(&actions, &None);
    let unmanaged_diff_actions = Permission::from_actions(&actions2, &None);

    assert_eq!(pm.validate_perm(&managed_perm), true);
    assert_eq!(pm.validate_perm(&managed_perm_diff_manager), false);
    assert_eq!(pm.validate_perm(&unmanaged), false);
    assert_eq!(pm.validate_perm(&unmanaged_diff_actions), false);
}

#[test]
fn perm_from_actions_test() {
    let actions = set_of(&["view", "create"]);
    let pm = PermissionManager::from_actions(actions);

    // An action outside the universe is refused.
    assert!(matches!(
        pm.perm_from_actions(set_of(&["other"])),
        Err(PermissionError::ActionsNotInUniverse)
    ));

    let p = pm.perm_from_actions(set_of(&["view"])).unwrap();

    // A permission the manager minted is valid for it.
    assert_eq!(pm.validate_perm(&p), true);
}

#[test]
fn perm_from_json_test() {
    let actions = set_of(&["view", "create"]);
    let pm = PermissionManager::from_actions(actions);

    // An action outside the universe is refused.
    assert!(matches!(
        pm.perm_from_json(r#"{ "other": true }"#),
        Err(PermissionError::ActionsNotInUniverse)
    ));

    let p = pm.perm_from_json(r#"{ "view": true, "create": true }"#).unwrap();

    // A permission the manager minted is valid for it.
    assert_eq!(pm.validate_perm(&p), true);
}

#[test]
fn manager_validation_boundary_test() {
    // Given universe {"a.b", "a.c"}: {"a.b"} is minted, {"a.b", "z"} is not.
    let pm = PermissionManager::from_actions(set_of(&["a.b", "a.c"]));

    let ok = pm.perm_from_actions(set_of(&["a.b"])).unwrap();
    assert!(pm.validate_perm(&ok));

    assert!(matches!(
        pm.perm_from_actions(set_of(&["a.b", "z"])),
        Err(PermissionError::ActionsNotInUniverse)
    ));
}

#[test]
fn scope_gate_test() {
    // Across two managers, or one scope absent, every algebra operation
    // fails and no result is returned.
    let pm1 = PermissionManager::from_actions(set_of(&["view", "edit"]));
    let pm2 = PermissionManager::from_actions(set_of(&["view", "edit"]));
    let a = pm1.perm_from_actions(set_of(&["view"])).unwrap();
    let b = pm2.perm_from_actions(set_of(&["edit"])).unwrap();
    let unscoped = Permission::from_actions(&set_of(&["view"]), &None);

    assert!(matches!(a.union(&b), Err(PermissionError::IncompatibleScope)));
    assert!(matches!(
        a.difference(&b),
        Err(PermissionError::IncompatibleScope)
    ));
    assert!(matches!(
        a.contains(&b),
        Err(PermissionError::IncompatibleScope)
    ));
    assert!(matches!(
        a.union(&unscoped),
        Err(PermissionError::IncompatibleScope)
    ));
    assert!(matches!(
        unscoped.difference(&a),
        Err(PermissionError::IncompatibleScope)
    ));
    assert!(matches!(
        unscoped.contains(&a),
        Err(PermissionError::IncompatibleScope)
    ));
}

#[test]
fn manager_json_error_test() {
    // Document errors surface unchanged through the manager.
    let pm = PermissionManager::from_actions(set_of(&["view"]));
    assert!(matches!(
        pm.perm_from_json("not json"),
        Err(PermissionError::InvalidJson)
    ));
    assert!(matches!(
        PermissionManager::from_json("not json"),
        Err(PermissionError::InvalidJson)
    ));
}
