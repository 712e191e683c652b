use crate::action_set::ActionSet;
use crate::errors::ErrorModel;
use crate::errors::PermissionError;
use crate::permission::spec_json_actions;
use crate::permission::Permission;
use crate::scope::ScopeId;
use vstd::prelude::*;

verus! {

/// Ghost state of a manager: the actions of its universe and its scope
/// identifier.
#[verifier::ext_equal]
pub struct ManagerModel {
    pub universe_actions: Set<Seq<char>>,
    pub id: ScopeId,
}

/// The sole authority over a universe of legal actions: it mints
/// permissions tagged with its own scope identifier, after checking that
/// the requested actions are a subset of the universe, and validates any
/// permission against both. Fully determined at construction and immutable
/// afterward.
#[derive(Debug)]
pub struct PermissionManager {
    universe: Permission,
    id: ScopeId,
}

impl View for PermissionManager {
    type V = ManagerModel;

    closed spec fn view(&self) -> ManagerModel {
        ManagerModel { universe_actions: self.universe@.actions, id: self.id }
    }
}

impl PermissionManager {
    /// The universe permission always carries this manager's own scope.
    #[verifier::type_invariant]
    spec fn wf(&self) -> bool {
        self.universe@.manager_id == Some(self.id)
    }

    /// A manager over the given universe of actions, under a freshly
    /// generated scope identifier.
    pub fn from_actions(universe_actions: ActionSet) -> (r: PermissionManager)
        ensures
            r@.universe_actions == universe_actions@,
    {
        let id = ScopeId::fresh();
        let universe = Permission::from_actions(&universe_actions, &Some(id));
        PermissionManager { universe, id }
    }

    /// A manager whose universe is decoded from a JSON document, under a
    /// freshly generated scope identifier. Fails exactly as
    /// `Permission::from_json` does on the same document.
    pub fn from_json(universe_actions_json: &str) -> (r: Result<
        PermissionManager,
        PermissionError,
    >)
        ensures
            (r is Ok) == (spec_json_actions(universe_actions_json@) is Ok),
            r matches Ok(m) ==> spec_json_actions(universe_actions_json@) == Ok::<
                Set<Seq<char>>,
                ErrorModel,
            >(m@.universe_actions),
            r matches Err(e) ==> spec_json_actions(universe_actions_json@) == Err::<
                Set<Seq<char>>,
                ErrorModel,
            >(e@),
    {
        let id = ScopeId::fresh();
        match Permission::from_json(universe_actions_json, &Some(id)) {
            Ok(universe) => Ok(PermissionManager { universe, id }),
            Err(e) => Err(e),
        }
    }

    /// A copy of the universe permission, carrying this manager's scope.
    /// A copy, so no caller can reach into the manager's own state.
    pub fn get_universe(&self) -> (r: Permission)
        ensures
            r@.actions == self@.universe_actions,
            r@.manager_id == Some(self@.id),
    {
        proof {
            use_type_invariant(self);
        }
        self.universe.clone()
    }

    /// The single authority check: the permission carries this manager's
    /// scope and its actions are contained in the universe.
    pub fn validate_perm(&self, perm: &Permission) -> (r: bool)
        ensures
            r == (perm@.manager_id == Some(self@.id) && perm@.actions.subset_of(
                self@.universe_actions,
            )),
    {
        proof {
            use_type_invariant(self);
        }
        if !self.universe.has_same_manager(perm) {
            return false;
        }
        match self.universe.contains(perm) {
            Ok(b) => b,
            Err(_) => {
                proof {
                    assert(false);
                }
                false
            },
        }
    }

    /// Mints a permission over the given actions, tagged with this
    /// manager's scope. Fails with `ActionsNotInUniverse` iff the actions
    /// are not all in the universe; the manager itself is left untouched.
    pub fn perm_from_actions(&self, actions: ActionSet) -> (r: Result<
        Permission,
        PermissionError,
    >)
        ensures
            (r is Ok) == actions@.subset_of(self@.universe_actions),
            r matches Ok(p) ==> p@.actions == actions@ && p@.manager_id == Some(self@.id),
            r matches Err(e) ==> e@ == ErrorModel::ActionsNotInUniverse,
    {
        let perm = Permission::from_actions(&actions, &Some(self.id));
        if !self.validate_perm(&perm) {
            return Err(PermissionError::ActionsNotInUniverse);
        }
        Ok(perm)
    }

    /// Mints a permission decoded from a JSON document, tagged with this
    /// manager's scope. Fails as `Permission::from_json` does on a bad
    /// document, and with `ActionsNotInUniverse` iff the decoded actions
    /// are not all in the universe.
    pub fn perm_from_json(&self, actions_json: &str) -> (r: Result<Permission, PermissionError>)
        ensures
            (r is Ok) == (spec_json_actions(actions_json@) matches Ok(acts) && acts.subset_of(
                self@.universe_actions,
            )),
            r matches Ok(p) ==> spec_json_actions(actions_json@) == Ok::<
                Set<Seq<char>>,
                ErrorModel,
            >(p@.actions) && p@.manager_id == Some(self@.id),
            r matches Err(e) ==> match spec_json_actions(actions_json@) {
                Ok(acts) => !acts.subset_of(self@.universe_actions) && e@
                    == ErrorModel::ActionsNotInUniverse,
                Err(em) => e@ == em,
            },
    {
        match Permission::from_json(actions_json, &Some(self.id)) {
            Ok(perm) => {
                if !self.validate_perm(&perm) {
                    return Err(PermissionError::ActionsNotInUniverse);
                }
                Ok(perm)
            },
            Err(e) => Err(e),
        }
    }
}

} // verus!
