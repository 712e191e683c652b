use crate::action_serialization::deserialize_actions;
use crate::action_serialization::group_has_leaf;
use crate::action_serialization::seg_conflict;
use crate::action_serialization::serialize_actions;
use crate::action_serialization::spec_decode;
use crate::action_serialization::tree_ok;
use crate::action_serialization::JsonTree;
use crate::action_set::ActionSet;
use crate::errors::ErrorModel;
use crate::errors::PermissionError;
use crate::json::json_text_of;
use crate::json::json_tree_of;
use crate::json::parse_json_tree;
use crate::json::tree_json_string;
use crate::scope::ScopeId;
use crate::segments::split_on_divider;
use vstd::prelude::*;

verus! {

/// Ghost state of a permission: the set of its actions' character
/// sequences, and the scope identifier of the manager that minted it
/// (`None` for an unscoped permission).
#[verifier::ext_equal]
pub struct PermissionModel {
    pub actions: Set<Seq<char>>,
    pub manager_id: Option<ScopeId>,
}

/// The model of a union: both action sets united under the left scope.
pub open spec fn spec_union(a: PermissionModel, b: PermissionModel) -> PermissionModel {
    PermissionModel { actions: a.actions.union(b.actions), manager_id: a.manager_id }
}

/// The model of a difference: the left actions without the right ones,
/// under the left scope.
pub open spec fn spec_difference(a: PermissionModel, b: PermissionModel) -> PermissionModel {
    PermissionModel { actions: a.actions.difference(b.actions), manager_id: a.manager_id }
}

/// The model of containment: the right actions are a subset of the left
/// ones.
pub open spec fn spec_contains(a: PermissionModel, b: PermissionModel) -> bool {
    b.actions.subset_of(a.actions)
}

/// The action set a JSON document carries: the document must parse, its
/// root must be an object, and decoding must stay within the depth bound.
pub open spec fn spec_json_actions(s: Seq<char>) -> Result<Set<Seq<char>>, ErrorModel> {
    match json_tree_of(s) {
        Option::None => Err(ErrorModel::InvalidJson),
        Option::Some(t) => match t {
            JsonTree::Group(es) => spec_decode(es@, Seq::<char>::empty(), 0),
            JsonTree::Flag(b) => Err(
                ErrorModel::MalformedTree {
                    key: Seq::<char>::empty(),
                    value: if b {
                        "true"@
                    } else {
                        "false"@
                    },
                },
            ),
            JsonTree::Other(s2) => Err(
                ErrorModel::MalformedTree { key: Seq::<char>::empty(), value: s2@ },
            ),
        },
    }
}

/// The string `s` is the JSON rendering of a well-formed tree whose leaf
/// paths are exactly the segment runs of `actions`.
pub open spec fn renders_actions(
    es: Vec<(String, JsonTree)>,
    actions: Set<Seq<char>>,
    s: Seq<char>,
) -> bool {
    &&& tree_ok(es@)
    &&& (forall|p: Seq<Seq<char>>| #[trigger]
        group_has_leaf(es@, p) <==> exists|a: Seq<char>|
            #[trigger] actions.contains(a) && p == split_on_divider(a))
    &&& s == json_text_of(JsonTree::Group(es))
}

/// What `to_json` guarantees: failure exactly on a conflicting set, with
/// the conflict named; success hands back the rendering of a tree whose
/// leaf paths are exactly the actions' segment runs.
pub open spec fn to_json_post(
    actions: Set<Seq<char>>,
    r: Result<String, PermissionError>,
) -> bool {
    &&& (r is Err) == seg_conflict(actions)
    &&& (r matches Ok(s) ==> exists|es: Vec<(String, JsonTree)>|
        #[trigger] renders_actions(es, actions, s@))
    &&& (r matches Err(e) ==> e@ is ConflictingPath)
}

/// A permission: an immutable, deduplicated set of action identifiers plus
/// an optional scope identifier. Every algebra operation returns a new
/// permission and fails fast when the two scopes differ; two permissions
/// may be combined iff their scope fields are equal, both absent included.
#[derive(Debug)]
pub struct Permission {
    actions: ActionSet,
    manager_id: Option<ScopeId>,
}

impl View for Permission {
    type V = PermissionModel;

    closed spec fn view(&self) -> PermissionModel {
        PermissionModel { actions: self.actions@, manager_id: self.manager_id }
    }
}

impl Clone for Permission {
    /// Cloning keeps the actions and the scope.
    fn clone(&self) -> (r: Self)
        ensures
            r@ == self@,
    {
        Permission { actions: self.actions.clone(), manager_id: self.manager_id }
    }
}

impl Permission {
    /// A permission over a copy of the given action set. Pass `None` as
    /// `manager_id` when using permissions without a manager; only
    /// `PermissionManager` has a reason to pass a scope.
    pub fn from_actions(actions: &ActionSet, manager_id: &Option<ScopeId>) -> (r: Permission)
        ensures
            r@.actions == actions@,
            r@.manager_id == *manager_id,
    {
        Permission { actions: actions.clone(), manager_id: *manager_id }
    }

    /// A permission decoded from a JSON document: the root object is a
    /// tree of groups whose `true` leaves name the granted actions. Fails
    /// with `InvalidJson` where the string does not parse, `MalformedTree`
    /// where the root is no object or a value is neither object nor
    /// boolean, and `TooDeep` past the nesting bound.
    pub fn from_json(actions_json: &str, manager_id: &Option<ScopeId>) -> (r: Result<
        Permission,
        PermissionError,
    >)
        ensures
            (r is Ok) == (spec_json_actions(actions_json@) is Ok),
            r matches Ok(p) ==> spec_json_actions(actions_json@) == Ok::<
                Set<Seq<char>>,
                ErrorModel,
            >(p@.actions) && p@.manager_id == *manager_id,
            r matches Err(e) ==> spec_json_actions(actions_json@) == Err::<
                Set<Seq<char>>,
                ErrorModel,
            >(e@),
    {
        match parse_json_tree(actions_json) {
            Option::None => Err(PermissionError::InvalidJson),
            Option::Some(t) => match t {
                JsonTree::Group(es) => {
                    proof {
                        reveal_strlit("");
                        assert(""@ =~= Seq::<char>::empty());
                    }
                    match deserialize_actions(0, "", &es) {
                        Ok(set) => Ok(Permission { actions: set, manager_id: *manager_id }),
                        Err(e) => Err(e),
                    }
                },
                JsonTree::Flag(b) => {
                    let rendering = if b {
                        "true".to_owned()
                    } else {
                        "false".to_owned()
                    };
                    Err(PermissionError::MalformedTree { key: String::new(), value: rendering })
                },
                JsonTree::Other(s2) => Err(
                    PermissionError::MalformedTree { key: String::new(), value: s2 },
                ),
            },
        }
    }

    /// The actions rendered as a JSON document: a tree of groups with a
    /// `true` leaf for every action, serialized as text. Fails with
    /// `ConflictingPath` iff one action is, segment for segment, a strict
    /// prefix of another.
    pub fn to_json(&self) -> (r: Result<String, PermissionError>)
        ensures
            to_json_post(self@.actions, r),
    {
        match serialize_actions(&self.actions) {
            Ok(es) => {
                let t = JsonTree::Group(es);
                let s = tree_json_string(&t);
                let ghost sview = s@;
                let res: Result<String, PermissionError> = Ok(s);
                proof {
                    let w = t->Group_0;
                    assert(tree_ok(w@));
                    assert(sview == json_text_of(JsonTree::Group(w)));
                    assert forall|p: Seq<Seq<char>>| #[trigger]
                        group_has_leaf(w@, p) <==> exists|a: Seq<char>|
                            #[trigger] self@.actions.contains(a) && p == split_on_divider(a) by {
                        if group_has_leaf(w@, p) {
                            let a = choose|a: Seq<char>|
                                #[trigger] (self.actions)@.contains(a) && p == split_on_divider(a);
                            assert(self@.actions.contains(a) && p == split_on_divider(a));
                        }
                        if exists|a: Seq<char>|
                            #[trigger] self@.actions.contains(a) && p == split_on_divider(a) {
                            let a = choose|a: Seq<char>|
                                #[trigger] self@.actions.contains(a) && p == split_on_divider(a);
                            assert((self.actions)@.contains(a) && p == split_on_divider(a));
                            assert(group_has_leaf(w@, p));
                        }
                    }
                    assert(renders_actions(w, self@.actions, sview));
                    assert(!seg_conflict(self@.actions));
                    assert(res matches Ok(s2) && s2@ == sview);
                    assert(exists|es: Vec<(String, JsonTree)>|
                        renders_actions(es, self@.actions, sview));
                    assert(to_json_post(self@.actions, res));
                }
                res
            },
            Err(e) => Err(e),
        }
    }

    /// A read-only view of the action set.
    pub fn get_actions(&self) -> (r: &ActionSet)
        ensures
            r@ == self@.actions,
    {
        &self.actions
    }

    /// True iff the permission carries a scope, that is, was minted by a
    /// manager.
    pub fn is_managed(&self) -> (r: bool)
        ensures
            r == (self@.manager_id is Some),
    {
        self.manager_id.is_some()
    }

    /// True iff the two scope fields are equal — both absent counts as
    /// equal, one absent and one present never does.
    pub fn has_same_manager(&self, other: &Permission) -> (r: bool)
        ensures
            r == (self@.manager_id == other@.manager_id),
    {
        match (self.manager_id, other.manager_id) {
            (Option::None, Option::None) => true,
            (Option::Some(a), Option::Some(b)) => a == b,
            _ => false,
        }
    }

    /// The union of the two action sets, under the shared scope. Fails
    /// with `IncompatibleScope` iff the scopes differ.
    pub fn union(&self, other: &Permission) -> (r: Result<Permission, PermissionError>)
        ensures
            (r is Ok) == (self@.manager_id == other@.manager_id),
            r matches Ok(p) ==> p@ == spec_union(self@, other@),
            r matches Err(e) ==> e@ == ErrorModel::IncompatibleScope,
    {
        if !self.has_same_manager(other) {
            return Err(PermissionError::IncompatibleScope);
        }
        let actions_union = self.actions.union(&other.actions);
        let p = Permission::from_actions(&actions_union, &self.manager_id);
        proof {
            assert(p@ =~= spec_union(self@, other@));
        }
        Ok(p)
    }

    /// The actions of `self` that are not in `other`, under the shared
    /// scope. Fails with `IncompatibleScope` iff the scopes differ.
    pub fn difference(&self, other: &Permission) -> (r: Result<Permission, PermissionError>)
        ensures
            (r is Ok) == (self@.manager_id == other@.manager_id),
            r matches Ok(p) ==> p@ == spec_difference(self@, other@),
            r matches Err(e) ==> e@ == ErrorModel::IncompatibleScope,
    {
        if !self.has_same_manager(other) {
            return Err(PermissionError::IncompatibleScope);
        }
        let actions_diff = self.actions.difference(&other.actions);
        let p = Permission::from_actions(&actions_diff, &self.manager_id);
        proof {
            assert(p@ =~= spec_difference(self@, other@));
        }
        Ok(p)
    }

    /// True iff `self` holds at least every action of `other`. Fails with
    /// `IncompatibleScope` iff the scopes differ.
    pub fn contains(&self, other: &Permission) -> (r: Result<bool, PermissionError>)
        ensures
            (r is Ok) == (self@.manager_id == other@.manager_id),
            r matches Ok(b) ==> b == spec_contains(self@, other@),
            r matches Err(e) ==> e@ == ErrorModel::IncompatibleScope,
    {
        if !self.has_same_manager(other) {
            return Err(PermissionError::IncompatibleScope);
        }
        Ok(other.actions.subset_of(&self.actions))
    }

    /// True iff the single action is a member of the set; never fails,
    /// whatever the scopes.
    pub fn contains_action(&self, action_str: &str) -> (r: bool)
        ensures
            r == self@.actions.contains(action_str@),
    {
        self.actions.contains(action_str)
    }
}

/// Union is idempotent: for any permission, the union of the permission
/// with itself is the permission again (a permission is always
/// scope-compatible with itself).
pub proof fn lemma_union_idempotent(p: PermissionModel)
    ensures
        spec_union(p, p) == p,
{
    assert(p.actions.union(p.actions) =~= p.actions);
    assert(spec_union(p, p) =~= p);
}

/// Containment is reflexive: every permission contains itself.
pub proof fn lemma_contains_reflexive(p: PermissionModel)
    ensures
        spec_contains(p, p),
{
}

/// A union contains both of its parts, for any two compatible permissions.
pub proof fn lemma_union_contains_parts(a: PermissionModel, b: PermissionModel)
    requires
        a.manager_id == b.manager_id,
    ensures
        spec_contains(spec_union(a, b), a),
        spec_contains(spec_union(a, b), b),
{
}

/// For compatible permissions, the difference a \ b never contains b,
/// unless b has no actions at all.
pub proof fn lemma_difference_excludes(a: PermissionModel, b: PermissionModel)
    requires
        a.manager_id == b.manager_id,
        b.actions != Set::<Seq<char>>::empty(),
    ensures
        !spec_contains(spec_difference(a, b), b),
{
    if !(exists|x: Seq<char>| b.actions.contains(x)) {
        assert(b.actions =~= Set::<Seq<char>>::empty());
    }
    let x = choose|x: Seq<char>| b.actions.contains(x);
    assert(!spec_difference(a, b).actions.contains(x));
}

} // verus!
