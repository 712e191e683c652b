use crate::action_set::ActionSet;
use crate::errors::ErrorModel;
use crate::errors::PermissionError;
use crate::segments::split_action;
use vstd::prelude::*;

verus! {

/// Maximum nesting allowed in a JSON document when decoding. Decoding is
/// recursive, so this bounds stack use against adversarial input.
pub const MAX_JSON_DEPTH_ALLOWED: u8 = 20;

/// The character that divides the segments of an action identifier. Chosen
/// once per build; segments must not contain it (no escaping is provided).
pub const ACTION_DIVIDER: char = ':';

/// A JSON document reduced to what the codec reads: an object is a group of
/// key/value entries in document order, a boolean is a leaf decision, and
/// any other JSON value (number, string, array, null) is kept only as its
/// rendering, so decoding can report it.
#[derive(Debug)]
pub enum JsonTree {
    /// A boolean leaf: `true` grants the action ending here, `false` omits
    /// it.
    Flag(bool),
    /// An object: a subgroup of actions, entries in document order.
    Group(Vec<(String, JsonTree)>),
    /// Any other JSON value, rendered as text; decoding rejects it.
    Other(String),
}

/// The full path of `key` under the accumulated `prefix`: the key itself at
/// the root, divider-joined below it.
pub open spec fn joined(prefix: Seq<char>, key: Seq<char>) -> Seq<char> {
    if prefix.len() == 0 {
        key
    } else {
        prefix + seq![ACTION_DIVIDER] + key
    }
}

/// What decoding one entry's value contributes: a `true` leaf grants its
/// path, a `false` leaf grants nothing, a subgroup is decoded one level
/// deeper, and anything else is a malformed tree.
pub open spec fn spec_decode_value(
    key: Seq<char>,
    t: JsonTree,
    path: Seq<char>,
    depth: int,
) -> Result<Set<Seq<char>>, ErrorModel>
    decreases t, 2int,
{
    match t {
        JsonTree::Flag(b) => if b {
            Ok(Set::empty().insert(path))
        } else {
            Ok(Set::<Seq<char>>::empty())
        },
        JsonTree::Group(g) => spec_decode(g@, path, depth + 1),
        JsonTree::Other(s) => Err(ErrorModel::MalformedTree { key, value: s@ }),
    }
}

/// Decodes entries left to right; the first failure wins, and the granted
/// paths of all entries are united.
pub open spec fn spec_decode_entries(
    es: Seq<(String, JsonTree)>,
    prefix: Seq<char>,
    depth: int,
) -> Result<Set<Seq<char>>, ErrorModel>
    decreases es, 0int,
{
    if es.len() == 0 {
        Ok(Set::<Seq<char>>::empty())
    } else {
        let key = es[0].0@;
        let path = joined(prefix, key);
        match spec_decode_value(key, es[0].1, path, depth) {
            Err(e) => Err(e),
            Ok(hs) => match spec_decode_entries(es.drop_first(), prefix, depth) {
                Err(e) => Err(e),
                Ok(rs) => Ok(hs.union(rs)),
            },
        }
    }
}

/// What decoding a group of entries yields, entered at recursion depth
/// `depth` with the accumulated path `prefix`: too deep a nesting fails,
/// otherwise the entries are decoded in order.
pub open spec fn spec_decode(
    es: Seq<(String, JsonTree)>,
    prefix: Seq<char>,
    depth: int,
) -> Result<Set<Seq<char>>, ErrorModel>
    decreases es, 1int,
{
    if depth >= MAX_JSON_DEPTH_ALLOWED as int {
        Err(ErrorModel::TooDeep)
    } else {
        spec_decode_entries(es, prefix, depth)
    }
}

/// The executable result `r` agrees with the specified result `s`.
pub open spec fn decode_result_is(
    r: Result<ActionSet, PermissionError>,
    s: Result<Set<Seq<char>>, ErrorModel>,
) -> bool {
    match r {
        Ok(a) => s == Ok::<Set<Seq<char>>, ErrorModel>(a@),
        Err(e) => s == Err::<Set<Seq<char>>, ErrorModel>(e@),
    }
}

/// Folds a decoded remainder into the actions accumulated so far.
pub open spec fn with_acc(
    acc: Set<Seq<char>>,
    r: Result<Set<Seq<char>>, ErrorModel>,
) -> Result<Set<Seq<char>>, ErrorModel> {
    match r {
        Ok(s) => Ok(acc.union(s)),
        Err(e) => Err(e),
    }
}

/// Decodes a group of JSON entries into the flat set of granted action
/// identifiers: depth-first, each `true` leaf grants the divider-joined
/// path from the root to it. `current_depth` is the depth this group sits
/// at; pass 0 for a document root.
pub fn deserialize_actions(
    current_depth: u8,
    prefix: &str,
    entries: &Vec<(String, JsonTree)>,
) -> (r: Result<ActionSet, PermissionError>)
    ensures
        decode_result_is(r, spec_decode(entries@, prefix@, current_depth as int)),
    decreases entries@,
{
    if current_depth >= MAX_JSON_DEPTH_ALLOWED {
        return Err(PermissionError::TooDeep);
    }
    let ghost depth = current_depth as int;
    let mut actions = ActionSet::new();
    let mut i: usize = 0;
    proof {
        assert(entries@.skip(0) =~= entries@);
        match spec_decode_entries(entries@, prefix@, depth) {
            Ok(s) => {
                assert(Set::empty().union(s) =~= s);
            },
            Err(_) => {},
        }
    }
    while i < entries.len()
        invariant
            current_depth < MAX_JSON_DEPTH_ALLOWED,
            0 <= i <= entries@.len(),
            depth == current_depth as int,
            with_acc(actions@, spec_decode_entries(entries@.skip(i as int), prefix@, depth))
                == spec_decode_entries(entries@, prefix@, depth),
        decreases entries@.len() - i,
    {
        let ghost es_i = entries@.skip(i as int);
        proof {
            assert(es_i[0] == entries@[i as int]);
            assert(es_i.drop_first() =~= entries@.skip(i as int + 1));
        }
        let key: &String = &entries[i].0;
        let path: String = if prefix.is_empty() {
            key.clone()
        } else {
            let mut p = prefix.to_owned();
            p.append(":");
            p.append(key.as_str());
            proof {
                reveal_strlit(":");
                assert(":"@ =~= seq![ACTION_DIVIDER]);
            }
            p
        };
        assert(path@ == joined(prefix@, key@));
        let ghost prev = actions@;
        let ghost head = spec_decode_value(key@, entries@[i as int].1, path@, depth);
        match &entries[i].1 {
            JsonTree::Flag(b) => {
                if *b {
                    actions = actions.insert(path);
                    proof {
                        assert(prev.insert(path@) =~= prev.union(Set::empty().insert(path@)));
                    }
                } else {
                    proof {
                        assert(prev =~= prev.union(Set::<Seq<char>>::empty()));
                    }
                }
            },
            JsonTree::Group(g) => {
                let sub = deserialize_actions(current_depth + 1, path.as_str(), g);
                match sub {
                    Ok(sub_set) => {
                        actions = actions.union(&sub_set);
                    },
                    Err(e) => {
                        return Err(e);
                    },
                }
            },
            JsonTree::Other(s) => {
                return Err(
                    PermissionError::MalformedTree { key: key.clone(), value: s.clone() },
                );
            },
        }
        proof {
            let hs = head->Ok_0;
            let rest = spec_decode_entries(entries@.skip(i as int + 1), prefix@, depth);
            assert(actions@ == prev.union(hs));
            match rest {
                Ok(rs) => {
                    assert(prev.union(hs).union(rs) =~= prev.union(hs.union(rs)));
                },
                Err(_) => {},
            }
        }
        i += 1;
    }
    proof {
        assert(entries@.skip(entries@.len() as int) =~= Seq::<(String, JsonTree)>::empty());
        assert(actions@.union(Set::<Seq<char>>::empty()) =~= actions@);
    }
    Ok(actions)
}

/// The value of a well-formed encoded entry: a `true` leaf, or a nonempty
/// well-formed subgroup. Encoding never emits `false` leaves or non-tree
/// values, and never an empty subgroup.
pub open spec fn entry_ok(t: JsonTree) -> bool
    decreases t, 1int,
{
    match t {
        JsonTree::Flag(b) => b,
        JsonTree::Group(g) => g@.len() > 0 && tree_ok(g@),
        JsonTree::Other(_) => false,
    }
}

/// A well-formed encoded tree: keys unique at every level, every value
/// well formed. Such a tree is the trie of its leaf paths.
pub open spec fn tree_ok(es: Seq<(String, JsonTree)>) -> bool
    decreases es, 0int,
{
    &&& (forall|i: int, j: int| 0 <= i < j < es.len() ==> es[i].0@ != es[j].0@)
    &&& (forall|i: int| 0 <= i < es.len() ==> entry_ok(#[trigger] es[i].1))
}

/// `p` continues to a `true` leaf inside the value `t`.
pub open spec fn value_has_leaf(t: JsonTree, p: Seq<Seq<char>>) -> bool
    decreases t, 1int,
{
    match t {
        JsonTree::Flag(b) => b && p.len() == 0,
        JsonTree::Group(g) => group_has_leaf(g@, p),
        JsonTree::Other(_) => false,
    }
}

/// `p` is the key path from this group down to a `true` leaf.
pub open spec fn group_has_leaf(es: Seq<(String, JsonTree)>, p: Seq<Seq<char>>) -> bool
    decreases es, 0int,
{
    &&& p.len() > 0
    &&& exists|i: int|
        0 <= i < es.len() && es[i].0@ == p[0] && value_has_leaf(#[trigger] es[i].1, p.drop_first())
}

/// The identifier decoding builds for the leaf path `p` reached under the
/// accumulated `prefix`.
pub open spec fn joined_path(prefix: Seq<char>, p: Seq<Seq<char>>) -> Seq<char>
    decreases p.len(),
{
    if p.len() == 0 {
        prefix
    } else {
        joined_path(joined(prefix, p[0]), p.drop_first())
    }
}

/// `a` is an initial run of `b`'s elements.
pub open spec fn is_prefix_of(a: Seq<Seq<char>>, b: Seq<Seq<char>>) -> bool {
    a.len() <= b.len() && a == b.take(a.len() as int)
}

/// One of the two is an initial run of the other (equality included).
pub open spec fn prefix_related(a: Seq<Seq<char>>, b: Seq<Seq<char>>) -> bool {
    is_prefix_of(a, b) || is_prefix_of(b, a)
}

/// Two distinct actions of the set collide: segment for segment, one is a
/// strict prefix of the other, so no tree of boolean leaves can hold both.
pub open spec fn seg_conflict(actions: Set<Seq<char>>) -> bool {
    exists|a: Seq<char>, b: Seq<char>|
        actions.contains(a) && actions.contains(b) && a != b && is_prefix_of(
            crate::segments::split_on_divider(a),
            crate::segments::split_on_divider(b),
        )
}

/// Putting the same head on two paths neither makes nor breaks a prefix.
pub proof fn lemma_prefix_cons(k: Seq<char>, a: Seq<Seq<char>>, b: Seq<Seq<char>>)
    ensures
        is_prefix_of(seq![k] + a, seq![k] + b) == is_prefix_of(a, b),
{
    let ka = seq![k] + a;
    let kb = seq![k] + b;
    if is_prefix_of(a, b) {
        assert(ka.len() <= kb.len());
        assert forall|x: int| 0 <= x < ka.len() implies ka[x] == kb.take(ka.len() as int)[x] by {
            if x > 0 {
                assert(b.take(a.len() as int)[x - 1] == a[x - 1]);
            }
        }
        assert(ka =~= kb.take(ka.len() as int));
    }
    if is_prefix_of(ka, kb) {
        assert(a.len() <= b.len());
        assert forall|x: int| 0 <= x < a.len() implies a[x] == b.take(a.len() as int)[x] by {
            assert(kb.take(ka.len() as int)[x + 1] == ka[x + 1]);
        }
        assert(a =~= b.take(a.len() as int));
    }
}

/// Every nonempty well-formed tree holds at least one leaf.
pub proof fn lemma_trie_nonempty_has_leaf(es: Seq<(String, JsonTree)>)
    requires
        tree_ok(es),
        es.len() > 0,
    ensures
        exists|p: Seq<Seq<char>>| group_has_leaf(es, p),
    decreases es,
{
    assert(entry_ok(es[0].1));
    match es[0].1 {
        JsonTree::Flag(b) => {
            let p = seq![es[0].0@];
            assert(p.drop_first() =~= Seq::<Seq<char>>::empty());
            assert(value_has_leaf(es[0].1, p.drop_first()));
            assert(group_has_leaf(es, p));
        },
        JsonTree::Group(g) => {
            lemma_trie_nonempty_has_leaf(g@);
            let p0 = choose|p0: Seq<Seq<char>>| group_has_leaf(g@, p0);
            let p = seq![es[0].0@] + p0;
            assert(p[0] == es[0].0@);
            assert(p.drop_first() =~= p0);
            assert(value_has_leaf(es[0].1, p.drop_first()));
            assert(group_has_leaf(es, p));
        },
        JsonTree::Other(_) => {
            assert(false);
        },
    }
}

/// Unfolding `joined_path` by one segment.
pub proof fn lemma_joined_path_cons(prefix: Seq<char>, k: Seq<char>, p: Seq<Seq<char>>)
    ensures
        joined_path(prefix, seq![k] + p) == joined_path(joined(prefix, k), p),
{
    let q = seq![k] + p;
    assert(q[0] == k);
    assert(q.drop_first() =~= p);
}

/// Under a nonempty prefix, a leaf path contributes the prefix, the
/// divider, and its joined segments.
pub proof fn lemma_joined_path_under(prefix: Seq<char>, p: Seq<Seq<char>>)
    requires
        prefix.len() > 0,
    ensures
        joined_path(prefix, p) == if p.len() == 0 {
            prefix
        } else {
            prefix + seq![ACTION_DIVIDER] + crate::segments::join_segments(p)
        },
    decreases p.len(),
{
    if p.len() > 0 {
        let pre2 = joined(prefix, p[0]);
        assert(pre2 == prefix + seq![ACTION_DIVIDER] + p[0]);
        assert(pre2.len() > 0);
        lemma_joined_path_under(pre2, p.drop_first());
        if p.len() == 1 {
            assert(p.drop_first().len() == 0);
            assert(crate::segments::join_segments(p) == p[0]);
            assert(joined_path(prefix, p) == pre2);
        } else {
            assert(p.drop_first().len() > 0);
            assert(crate::segments::join_segments(p) == p[0] + seq![ACTION_DIVIDER]
                + crate::segments::join_segments(p.drop_first()));
            assert((prefix + seq![ACTION_DIVIDER] + p[0]) + seq![ACTION_DIVIDER]
                + crate::segments::join_segments(p.drop_first()) =~= prefix + seq![ACTION_DIVIDER]
                + crate::segments::join_segments(p));
        }
    }
}

/// At the root the joined leaf path is the joined segments, provided a
/// multi-segment path does not begin with an empty segment (an identifier
/// beginning with the divider has no faithful tree form).
pub proof fn lemma_joined_path_root(p: Seq<Seq<char>>)
    requires
        p.len() > 0,
        p.len() > 1 ==> p[0].len() > 0,
    ensures
        joined_path(Seq::<char>::empty(), p) == crate::segments::join_segments(p),
{
    let pre2 = joined(Seq::<char>::empty(), p[0]);
    assert(pre2 == p[0]);
    if p.len() == 1 {
        assert(p.drop_first().len() == 0);
        assert(joined_path(pre2, p.drop_first()) == pre2);
        assert(joined_path(Seq::<char>::empty(), p) == p[0]);
    } else {
        lemma_joined_path_under(pre2, p.drop_first());
        assert(crate::segments::join_segments(p) == p[0] + seq![ACTION_DIVIDER]
            + crate::segments::join_segments(p.drop_first()));
    }
}

/// Decoding a well-formed tree whose leaves all sit within the depth
/// budget succeeds and yields exactly the joined leaf paths.
pub proof fn lemma_decode_of_trie(es: Seq<(String, JsonTree)>, prefix: Seq<char>, depth: int)
    requires
        tree_ok(es),
        0 <= depth < MAX_JSON_DEPTH_ALLOWED as int,
        forall|p: Seq<Seq<char>>| #[trigger]
            group_has_leaf(es, p) ==> depth + p.len() <= MAX_JSON_DEPTH_ALLOWED as int,
    ensures
        spec_decode(es, prefix, depth) == Ok::<Set<Seq<char>>, ErrorModel>(
            Set::new(
                |a: Seq<char>|
                    exists|p: Seq<Seq<char>>|
                        #[trigger] group_has_leaf(es, p) && a == joined_path(prefix, p),
            ),
        ),
    decreases es,
{
    let target = Set::new(
        |a: Seq<char>|
            exists|p: Seq<Seq<char>>|
                #[trigger] group_has_leaf(es, p) && a == joined_path(prefix, p),
    );
    if es.len() == 0 {
        assert(spec_decode(es, prefix, depth) == Ok::<Set<Seq<char>>, ErrorModel>(
            Set::<Seq<char>>::empty(),
        ));
        assert forall|a: Seq<char>| !target.contains(a) by {}
        assert(target =~= Set::<Seq<char>>::empty());
    } else {
        let key = es[0].0@;
        let path = joined(prefix, key);
        let v = es[0].1;
        assert(entry_ok(v));
        let tail = es.drop_first();
        // The tail is also a well-formed tree, and its leaves are leaves of `es`.
        assert(tree_ok(tail)) by {
            assert forall|i: int| 0 <= i < tail.len() implies entry_ok(#[trigger] tail[i].1) by {
                assert(tail[i] == es[i + 1]);
                assert(entry_ok(es[i + 1].1));
            }
            assert forall|i: int, j: int| 0 <= i < j < tail.len() implies tail[i].0@
                != tail[j].0@ by {
                assert(tail[i] == es[i + 1]);
                assert(tail[j] == es[j + 1]);
            }
        }
        assert forall|p: Seq<Seq<char>>| #[trigger]
            group_has_leaf(tail, p) implies group_has_leaf(es, p) by {
            let i = choose|i: int|
                0 <= i < tail.len() && tail[i].0@ == p[0] && value_has_leaf(
                    #[trigger] tail[i].1,
                    p.drop_first(),
                );
            assert(tail[i] == es[i + 1]);
            assert(es[i + 1].0@ == p[0] && value_has_leaf(es[i + 1].1, p.drop_first()));
        }
        lemma_decode_of_trie(tail, prefix, depth);
        let rest_set = Set::new(
            |a: Seq<char>|
                exists|p: Seq<Seq<char>>|
                    #[trigger] group_has_leaf(tail, p) && a == joined_path(prefix, p),
        );
        let head = spec_decode_value(key, v, path, depth);
        match v {
            JsonTree::Flag(b) => {
                assert(b);
                assert(head == Ok::<Set<Seq<char>>, ErrorModel>(Set::empty().insert(path)));
                assert(spec_decode_entries(es, prefix, depth) == Ok::<Set<Seq<char>>, ErrorModel>(
                    Set::empty().insert(path).union(rest_set),
                ));
                assert forall|a: Seq<char>| target.contains(a) <==> Set::empty().insert(
                    path,
                ).union(rest_set).contains(a) by {
                    if target.contains(a) {
                        let p = choose|p: Seq<Seq<char>>|
                            #[trigger] group_has_leaf(es, p) && a == joined_path(prefix, p);
                        let i = choose|i: int|
                            0 <= i < es.len() && es[i].0@ == p[0] && value_has_leaf(
                                #[trigger] es[i].1,
                                p.drop_first(),
                            );
                        if i == 0 {
                            assert(p.drop_first().len() == 0);
                            assert(p =~= seq![key]);
                            assert(joined_path(prefix, p) == joined_path(path, p.drop_first()))
                                by {
                                lemma_joined_path_cons(prefix, key, p.drop_first());
                                assert(seq![key] + p.drop_first() =~= p);
                            }
                            assert(a == path);
                        } else {
                            assert(tail[i - 1] == es[i]);
                            assert(group_has_leaf(tail, p));
                            assert(rest_set.contains(a));
                        }
                    }
                    if a == path {
                        let p = seq![key];
                        assert(p.drop_first() =~= Seq::<Seq<char>>::empty());
                        assert(value_has_leaf(es[0].1, p.drop_first()));
                        assert(group_has_leaf(es, p));
                        lemma_joined_path_cons(prefix, key, p.drop_first());
                        assert(seq![key] + p.drop_first() =~= p);
                        assert(joined_path(prefix, p) == path);
                        assert(target.contains(a));
                    }
                    if rest_set.contains(a) {
                        let p = choose|p: Seq<Seq<char>>|
                            #[trigger] group_has_leaf(tail, p) && a == joined_path(prefix, p);
                        assert(group_has_leaf(es, p));
                        assert(target.contains(a));
                    }
                }
                assert(target =~= Set::empty().insert(path).union(rest_set));
            },
            JsonTree::Group(g) => {
                assert(g@.len() > 0 && tree_ok(g@));
                // Leaves of the subgroup, one level down, stay in budget.
                assert forall|q: Seq<Seq<char>>| #[trigger]
                    group_has_leaf(g@, q) implies (depth + 1) + q.len()
                    <= MAX_JSON_DEPTH_ALLOWED as int by {
                    let p = seq![key] + q;
                    assert(p[0] == key);
                    assert(p.drop_first() =~= q);
                    assert(value_has_leaf(es[0].1, p.drop_first()));
                    assert(group_has_leaf(es, p));
                    assert(p.len() == 1 + q.len());
                }
                // The subgroup is nonempty, so it has a leaf, so there is room.
                lemma_trie_nonempty_has_leaf(g@);
                let q0 = choose|q0: Seq<Seq<char>>| group_has_leaf(g@, q0);
                assert(q0.len() > 0);
                assert((depth + 1) + q0.len() <= MAX_JSON_DEPTH_ALLOWED as int);
                assert(depth + 1 < MAX_JSON_DEPTH_ALLOWED as int);
                lemma_decode_of_trie(g@, path, depth + 1);
                let sub_set = Set::new(
                    |a: Seq<char>|
                        exists|q: Seq<Seq<char>>|
                            #[trigger] group_has_leaf(g@, q) && a == joined_path(path, q),
                );
                assert(head == Ok::<Set<Seq<char>>, ErrorModel>(sub_set));
                assert(spec_decode_entries(es, prefix, depth) == Ok::<Set<Seq<char>>, ErrorModel>(
                    sub_set.union(rest_set),
                ));
                assert forall|a: Seq<char>| target.contains(a) <==> sub_set.union(
                    rest_set,
                ).contains(a) by {
                    if target.contains(a) {
                        let p = choose|p: Seq<Seq<char>>|
                            #[trigger] group_has_leaf(es, p) && a == joined_path(prefix, p);
                        let i = choose|i: int|
                            0 <= i < es.len() && es[i].0@ == p[0] && value_has_leaf(
                                #[trigger] es[i].1,
                                p.drop_first(),
                            );
                        if i == 0 {
                            assert(group_has_leaf(g@, p.drop_first()));
                            lemma_joined_path_cons(prefix, key, p.drop_first());
                            assert(seq![key] + p.drop_first() =~= p);
                            assert(a == joined_path(path, p.drop_first()));
                            assert(sub_set.contains(a));
                        } else {
                            assert(tail[i - 1] == es[i]);
                            assert(group_has_leaf(tail, p));
                            assert(rest_set.contains(a));
                        }
                    }
                    if sub_set.contains(a) {
                        let q = choose|q: Seq<Seq<char>>|
                            #[trigger] group_has_leaf(g@, q) && a == joined_path(path, q);
                        let p = seq![key] + q;
                        assert(p[0] == key);
                        assert(p.drop_first() =~= q);
                        assert(value_has_leaf(es[0].1, p.drop_first()));
                        assert(group_has_leaf(es, p));
                        lemma_joined_path_cons(prefix, key, q);
                        assert(a == joined_path(prefix, p));
                        assert(target.contains(a));
                    }
                    if rest_set.contains(a) {
                        let p = choose|p: Seq<Seq<char>>|
                            #[trigger] group_has_leaf(tail, p) && a == joined_path(prefix, p);
                        assert(group_has_leaf(es, p));
                        assert(target.contains(a));
                    }
                }
                assert(target =~= sub_set.union(rest_set));
            },
            JsonTree::Other(_) => {
                assert(false);
            },
        }
    }
}

/// The segment views of an action still to be inserted, from position `j`
/// on.
pub open spec fn suffix_of(segs: Seq<String>, j: int) -> Seq<Seq<char>> {
    crate::action_set::views_of(segs).skip(j)
}

/// The position of `key` among the entries, if it appears.
fn find_key(entries: &Vec<(String, JsonTree)>, key: &String) -> (r: Option<usize>)
    ensures
        match r {
            Some(i) => 0 <= i < entries@.len() && entries@[i as int].0@ == key@,
            None => forall|i: int| 0 <= i < entries@.len() ==> entries@[i].0@ != key@,
        },
{
    let mut i: usize = 0;
    while i < entries.len()
        invariant
            0 <= i <= entries@.len(),
            forall|j: int| 0 <= j < i ==> entries@[j].0@ != key@,
        decreases entries@.len() - i,
    {
        if entries[i].0 == *key {
            return Some(i);
        }
        i += 1;
    }
    None
}

/// A chain of single-entry groups for the segments from position `k` on,
/// ending in a `true` leaf. Its only leaf path is that segment run.
fn build_chain(segs: &Vec<String>, k: usize) -> (r: JsonTree)
    requires
        k <= segs@.len(),
    ensures
        entry_ok(r),
        forall|p: Seq<Seq<char>>| #[trigger]
            value_has_leaf(r, p) <==> p == suffix_of(segs@, k as int),
    decreases segs@.len() - k,
{
    if k == segs.len() {
        let r = JsonTree::Flag(true);
        proof {
            assert(suffix_of(segs@, k as int) =~= Seq::<Seq<char>>::empty());
            assert forall|p: Seq<Seq<char>>| #[trigger]
                value_has_leaf(r, p) <==> p == suffix_of(segs@, k as int) by {
                if p.len() == 0 {
                    assert(p =~= suffix_of(segs@, k as int));
                }
            }
        }
        r
    } else {
        let sub = build_chain(segs, k + 1);
        let mut inner: Vec<(String, JsonTree)> = Vec::new();
        inner.push((segs[k].clone(), sub));
        let r = JsonTree::Group(inner);
        proof {
            let suf = suffix_of(segs@, k as int);
            assert(suf[0] == segs@[k as int]@);
            assert(suf.drop_first() =~= suffix_of(segs@, k as int + 1));
            assert(tree_ok(inner@));
            assert forall|p: Seq<Seq<char>>| #[trigger]
                value_has_leaf(r, p) <==> p == suf by {
                if value_has_leaf(r, p) {
                    assert(group_has_leaf(inner@, p));
                    let i = choose|i: int|
                        0 <= i < inner@.len() && inner@[i].0@ == p[0] && value_has_leaf(
                            #[trigger] inner@[i].1,
                            p.drop_first(),
                        );
                    assert(i == 0);
                    assert(p.drop_first() == suffix_of(segs@, k as int + 1));
                    assert(p =~= seq![p[0]] + p.drop_first());
                    assert(p =~= suf);
                }
                if p == suf {
                    assert(p.len() > 0);
                    assert(inner@[0].0@ == p[0]);
                    assert(value_has_leaf(inner@[0].1, p.drop_first()));
                    assert(group_has_leaf(inner@, p));
                }
            }
        }
        r
    }
}

/// What a successful or failed insertion guarantees: on success the tree
/// stays a trie, gains exactly the inserted leaf path, and no existing
/// leaf was prefix-related to it; on failure some existing leaf was, and
/// the error names the action.
pub open spec fn insert_outcome(
    old_es: Seq<(String, JsonTree)>,
    segs: Seq<String>,
    j: int,
    action: Seq<char>,
    r: Result<Vec<(String, JsonTree)>, PermissionError>,
) -> bool {
    match r {
        Ok(es2) => {
            &&& tree_ok(es2@)
            &&& es2@.len() > 0
            &&& (forall|p: Seq<Seq<char>>| #[trigger]
                group_has_leaf(es2@, p) <==> (group_has_leaf(old_es, p) || p == suffix_of(
                    segs,
                    j,
                )))
            &&& (forall|p: Seq<Seq<char>>| #[trigger]
                group_has_leaf(old_es, p) ==> !prefix_related(p, suffix_of(segs, j)))
        },
        Err(e) => {
            &&& e@ == (ErrorModel::ConflictingPath { action })
            &&& exists|p: Seq<Seq<char>>|
                #[trigger] group_has_leaf(old_es, p) && prefix_related(p, suffix_of(segs, j))
        },
    }
}

/// Inserts the leaf path `segs[j..]` of `action` into the trie, creating
/// the groups along it as needed; a collision with an existing leaf or
/// group is a conflicting path.
fn insert_path(
    entries: Vec<(String, JsonTree)>,
    segs: &Vec<String>,
    j: usize,
    action: &String,
) -> (r: Result<Vec<(String, JsonTree)>, PermissionError>)
    requires
        tree_ok(entries@),
        j < segs@.len(),
    ensures
        insert_outcome(entries@, segs@, j as int, action@, r),
    decreases segs@.len() - j,
{
    let ghost old_es = entries@;
    let ghost suffix = suffix_of(segs@, j as int);
    let total = segs.len();
    assert(j < total);
    proof {
        assert(suffix.len() == segs@.len() - j);
        assert(suffix[0] == segs@[j as int]@);
        assert(suffix.drop_first() =~= suffix_of(segs@, j as int + 1));
    }
    let key: &String = &segs[j];
    match find_key(&entries, key) {
        None => {
            let node = build_chain(segs, j + 1);
            let mut entries = entries;
            entries.push((key.clone(), node));
            proof {
                let es2 = entries@;
                assert(es2[es2.len() - 1].0@ == key@);
                assert(es2[es2.len() - 1].1 == node);
                assert(tree_ok(es2)) by {
                    assert forall|i: int, m: int| 0 <= i < m < es2.len() implies es2[i].0@
                        != es2[m].0@ by {
                        if m < es2.len() - 1 {
                            assert(es2[i] == old_es[i] && es2[m] == old_es[m]);
                        } else {
                            assert(es2[i] == old_es[i]);
                            assert(old_es[i].0@ != key@);
                        }
                    }
                    assert forall|i: int| 0 <= i < es2.len() implies entry_ok(
                        #[trigger] es2[i].1,
                    ) by {
                        if i < es2.len() - 1 {
                            assert(es2[i] == old_es[i]);
                            assert(entry_ok(old_es[i].1));
                        }
                    }
                }
                assert(suffix =~= seq![key@] + suffix.drop_first());
                assert forall|p: Seq<Seq<char>>| #[trigger]
                    group_has_leaf(es2, p) <==> (group_has_leaf(old_es, p) || p == suffix) by {
                    if group_has_leaf(es2, p) {
                        let i = choose|i: int|
                            0 <= i < es2.len() && es2[i].0@ == p[0] && value_has_leaf(
                                #[trigger] es2[i].1,
                                p.drop_first(),
                            );
                        if i < es2.len() - 1 {
                            assert(es2[i] == old_es[i]);
                            assert(group_has_leaf(old_es, p));
                        } else {
                            assert(value_has_leaf(node, p.drop_first()));
                            assert(p.drop_first() == suffix.drop_first());
                            assert(p[0] == key@);
                            assert(p =~= seq![p[0]] + p.drop_first());
                            assert(p =~= suffix);
                        }
                    }
                    if group_has_leaf(old_es, p) {
                        let i = choose|i: int|
                            0 <= i < old_es.len() && old_es[i].0@ == p[0] && value_has_leaf(
                                #[trigger] old_es[i].1,
                                p.drop_first(),
                            );
                        assert(es2[i] == old_es[i]);
                        assert(group_has_leaf(es2, p));
                    }
                    if p == suffix {
                        assert(value_has_leaf(node, suffix.drop_first()));
                        assert(es2[es2.len() - 1].0@ == p[0]);
                        assert(group_has_leaf(es2, p));
                    }
                }
                assert forall|p: Seq<Seq<char>>| #[trigger]
                    group_has_leaf(old_es, p) implies !prefix_related(p, suffix) by {
                    let i = choose|i: int|
                        0 <= i < old_es.len() && old_es[i].0@ == p[0] && value_has_leaf(
                            #[trigger] old_es[i].1,
                            p.drop_first(),
                        );
                    assert(p[0] != key@);
                    if is_prefix_of(p, suffix) {
                        assert(p[0] == suffix.take(p.len() as int)[0]);
                    }
                    if is_prefix_of(suffix, p) {
                        assert(suffix[0] == p.take(suffix.len() as int)[0]);
                    }
                }
            }
            Ok(entries)
        },
        Some(idx) => {
            let mut entries = entries;
            let entry = entries.remove(idx);
            let ghost removed = entries@;
            proof {
                assert(entry == old_es[idx as int]);
                assert(entry_ok(entry.1));
            }
            let (k_found, node) = entry;
            match node {
                JsonTree::Flag(_b) => {
                    proof {
                        let p = seq![key@];
                        assert(p.drop_first() =~= Seq::<Seq<char>>::empty());
                        assert(value_has_leaf(old_es[idx as int].1, p.drop_first()));
                        assert(group_has_leaf(old_es, p));
                        assert(p =~= suffix.take(1));
                        assert(is_prefix_of(p, suffix));
                    }
                    Err(PermissionError::ConflictingPath { action: action.clone() })
                },
                JsonTree::Group(g) => {
                    if j + 1 == segs.len() {
                        proof {
                            lemma_trie_nonempty_has_leaf(g@);
                            let q = choose|q: Seq<Seq<char>>| group_has_leaf(g@, q);
                            let p = seq![key@] + q;
                            assert(p[0] == key@);
                            assert(p.drop_first() =~= q);
                            assert(value_has_leaf(old_es[idx as int].1, p.drop_first()));
                            assert(group_has_leaf(old_es, p));
                            assert(suffix.len() == 1);
                            assert(suffix =~= p.take(1));
                            assert(is_prefix_of(suffix, p));
                        }
                        Err(PermissionError::ConflictingPath { action: action.clone() })
                    } else {
                        match insert_path(g, segs, j + 1, action) {
                            Err(e) => {
                                proof {
                                    let q = choose|q: Seq<Seq<char>>|
                                        #[trigger] group_has_leaf(g@, q) && prefix_related(
                                            q,
                                            suffix_of(segs@, j as int + 1),
                                        );
                                    let p = seq![key@] + q;
                                    assert(p[0] == key@);
                                    assert(p.drop_first() =~= q);
                                    assert(value_has_leaf(old_es[idx as int].1, p.drop_first()));
                                    assert(group_has_leaf(old_es, p));
                                    lemma_prefix_cons(key@, q, suffix.drop_first());
                                    lemma_prefix_cons(key@, suffix.drop_first(), q);
                                    assert(seq![key@] + suffix.drop_first() =~= suffix);
                                    assert(prefix_related(p, suffix));
                                }
                                Err(e)
                            },
                            Ok(g2) => {
                                let ghost sub2 = g2@;
                                entries.insert(idx, (k_found, JsonTree::Group(g2)));
                                proof {
                                    let es2 = entries@;
                                    let newv = JsonTree::Group(g2);
                                    assert(es2 =~= old_es.update(
                                        idx as int,
                                        (k_found, newv),
                                    )) by {
                                        assert(removed =~= old_es.remove(idx as int));
                                        assert forall|m: int|
                                            0 <= m < es2.len() implies es2[m] == old_es.update(
                                            idx as int,
                                            (k_found, newv),
                                        )[m] by {
                                            if m < idx {
                                                assert(es2[m] == removed[m]);
                                                assert(removed[m] == old_es[m]);
                                            } else if m > idx {
                                                assert(es2[m] == removed[m - 1]);
                                                assert(removed[m - 1] == old_es[m]);
                                            }
                                        }
                                    }
                                    assert(k_found@ == key@);
                                    assert(entry_ok(newv));
                                    assert(tree_ok(es2)) by {
                                        assert forall|i: int, m: int|
                                            0 <= i < m < es2.len() implies es2[i].0@
                                            != es2[m].0@ by {
                                            assert(es2[i].0@ == old_es[i].0@);
                                            assert(es2[m].0@ == old_es[m].0@);
                                        }
                                        assert forall|i: int| 0 <= i < es2.len() implies entry_ok(
                                            #[trigger] es2[i].1,
                                        ) by {
                                            if i != idx {
                                                assert(es2[i] == old_es[i]);
                                                assert(entry_ok(old_es[i].1));
                                            }
                                        }
                                    }
                                    let suf2 = suffix_of(segs@, j as int + 1);
                                    assert(seq![key@] + suf2 =~= suffix);
                                    // keys are unique, so a path through `key` goes through `idx`
                                    assert forall|p: Seq<Seq<char>>| #[trigger]
                                        group_has_leaf(es2, p) <==> (group_has_leaf(old_es, p) || p
                                        == suffix) by {
                                        if group_has_leaf(es2, p) {
                                            let i = choose|i: int|
                                                0 <= i < es2.len() && es2[i].0@ == p[0]
                                                    && value_has_leaf(
                                                    #[trigger] es2[i].1,
                                                    p.drop_first(),
                                                );
                                            if i != idx {
                                                assert(es2[i] == old_es[i]);
                                                assert(group_has_leaf(old_es, p));
                                            } else {
                                                assert(group_has_leaf(sub2, p.drop_first()));
                                                if group_has_leaf(g@, p.drop_first()) {
                                                    assert(value_has_leaf(
                                                        old_es[idx as int].1,
                                                        p.drop_first(),
                                                    ));
                                                    assert(group_has_leaf(old_es, p));
                                                } else {
                                                    assert(p.drop_first() == suf2);
                                                    assert(p =~= seq![p[0]] + p.drop_first());
                                                    assert(p =~= suffix);
                                                }
                                            }
                                        }
                                        if group_has_leaf(old_es, p) {
                                            let i = choose|i: int|
                                                0 <= i < old_es.len() && old_es[i].0@ == p[0]
                                                    && value_has_leaf(
                                                    #[trigger] old_es[i].1,
                                                    p.drop_first(),
                                                );
                                            if i != idx {
                                                assert(es2[i] == old_es[i]);
                                                assert(group_has_leaf(es2, p));
                                            } else {
                                                assert(group_has_leaf(g@, p.drop_first()));
                                                assert(group_has_leaf(sub2, p.drop_first()));
                                                assert(es2[idx as int].0@ == p[0]);
                                                assert(value_has_leaf(
                                                    es2[idx as int].1,
                                                    p.drop_first(),
                                                ));
                                                assert(group_has_leaf(es2, p));
                                            }
                                        }
                                        if p == suffix {
                                            assert(suffix.drop_first() =~= suf2);
                                            assert(group_has_leaf(sub2, suf2));
                                            assert(es2[idx as int].0@ == key@);
                                            assert(value_has_leaf(
                                                es2[idx as int].1,
                                                p.drop_first(),
                                            ));
                                            assert(group_has_leaf(es2, p));
                                        }
                                    }
                                    assert forall|p: Seq<Seq<char>>| #[trigger]
                                        group_has_leaf(old_es, p) implies !prefix_related(
                                        p,
                                        suffix,
                                    ) by {
                                        let i = choose|i: int|
                                            0 <= i < old_es.len() && old_es[i].0@ == p[0]
                                                && value_has_leaf(
                                                #[trigger] old_es[i].1,
                                                p.drop_first(),
                                            );
                                        if i == idx {
                                            assert(group_has_leaf(g@, p.drop_first()));
                                            assert(!prefix_related(p.drop_first(), suf2));
                                            lemma_prefix_cons(key@, p.drop_first(), suf2);
                                            lemma_prefix_cons(key@, suf2, p.drop_first());
                                            assert(seq![key@] + p.drop_first() =~= p);
                                            assert(!prefix_related(p, suffix));
                                        } else {
                                            assert(p[0] != key@);
                                            if is_prefix_of(p, suffix) {
                                                assert(p[0] == suffix.take(p.len() as int)[0]);
                                            }
                                            if is_prefix_of(suffix, p) {
                                                assert(suffix[0] == p.take(
                                                    suffix.len() as int,
                                                )[0]);
                                            }
                                        }
                                    }
                                }
                                Ok(entries)
                            },
                        }
                    }
                },
                JsonTree::Other(_) => {
                    proof {
                        assert(false);
                    }
                    Err(PermissionError::ConflictingPath { action: action.clone() })
                },
            }
        },
    }
}

/// Encodes a set of actions as a tree of boolean leaves: every action is
/// split at the divider and its path of groups is created, ending in a
/// `true` leaf. The tree is a trie whose leaf paths are exactly the
/// actions' segment runs, so decoding it gives the set back (the round
/// trip); a set in which one action is, segment for segment, a strict
/// prefix of another has no such tree and is rejected.
pub fn serialize_actions(actions: &ActionSet) -> (r: Result<
    Vec<(String, JsonTree)>,
    PermissionError,
>)
    ensures
        (r is Err) == seg_conflict(actions@),
        r matches Ok(es) ==> {
            &&& tree_ok(es@)
            &&& (forall|p: Seq<Seq<char>>| #[trigger]
                group_has_leaf(es@, p) <==> exists|a: Seq<char>|
                    #[trigger] actions@.contains(a) && p == crate::segments::split_on_divider(a))
            &&& ((forall|a: Seq<char>| #[trigger]
                actions@.contains(a) ==> crate::segments::split_on_divider(a).len()
                    <= MAX_JSON_DEPTH_ALLOWED as int && (a.len() == 0 || a[0] != ACTION_DIVIDER))
                ==> spec_decode(es@, Seq::<char>::empty(), 0) == Ok::<
                Set<Seq<char>>,
                ErrorModel,
            >(actions@))
        },
        r matches Err(e) ==> exists|b: Seq<char>|
            {
                &&& e@ == (ErrorModel::ConflictingPath { action: b })
                &&& #[trigger] actions@.contains(b)
                &&& exists|c: Seq<char>|
                    #[trigger] actions@.contains(c) && c != b && prefix_related(
                        crate::segments::split_on_divider(c),
                        crate::segments::split_on_divider(b),
                    )
            },
{
    proof {
        use_type_invariant(actions);
    }
    let n = actions.count();
    let mut tree: Vec<(String, JsonTree)> = Vec::new();
    let mut i: usize = 0;
    while i < n
        invariant
            actions.inv(),
            n == actions.seq_view().len(),
            0 <= i <= n,
            tree_ok(tree@),
            forall|p: Seq<Seq<char>>| #[trigger]
                group_has_leaf(tree@, p) <==> exists|jj: int|
                    0 <= jj < i && p == crate::segments::split_on_divider(
                        #[trigger] actions.seq_view()[jj],
                    ),
            forall|j1: int, j2: int|
                0 <= j1 < j2 < i ==> !prefix_related(
                    crate::segments::split_on_divider(#[trigger] actions.seq_view()[j1]),
                    crate::segments::split_on_divider(#[trigger] actions.seq_view()[j2]),
                ),
        decreases n - i,
    {
        let action: &String = actions.get(i);
        let segs = split_action(action.as_str());
        let ghost splits = crate::segments::split_on_divider(action@);
        proof {
            crate::segments::lemma_split_nonempty(action@);
            assert(crate::action_set::views_of(segs@).skip(0) =~= crate::action_set::views_of(
                segs@,
            ));
            assert(suffix_of(segs@, 0) == splits);
        }
        let ghost old_tree = tree@;
        match insert_path(tree, &segs, 0, action) {
            Ok(t2) => {
                tree = t2;
                proof {
                    assert forall|p: Seq<Seq<char>>| #[trigger]
                        group_has_leaf(tree@, p) <==> exists|jj: int|
                            0 <= jj < i + 1 && p == crate::segments::split_on_divider(
                                #[trigger] actions.seq_view()[jj],
                            ) by {
                        if group_has_leaf(tree@, p) {
                            if group_has_leaf(old_tree, p) {
                                let jj = choose|jj: int|
                                    0 <= jj < i && p == crate::segments::split_on_divider(
                                        #[trigger] actions.seq_view()[jj],
                                    );
                                assert(0 <= jj < i + 1 && p == crate::segments::split_on_divider(
                                    actions.seq_view()[jj],
                                ));
                            } else {
                                assert(p == splits);
                                assert(p == crate::segments::split_on_divider(
                                    actions.seq_view()[i as int],
                                ));
                            }
                        }
                        if exists|jj: int|
                            0 <= jj < i + 1 && p == crate::segments::split_on_divider(
                                #[trigger] actions.seq_view()[jj],
                            ) {
                            let jj = choose|jj: int|
                                0 <= jj < i + 1 && p == crate::segments::split_on_divider(
                                    #[trigger] actions.seq_view()[jj],
                                );
                            if jj < i {
                                assert(group_has_leaf(old_tree, p));
                                assert(group_has_leaf(tree@, p));
                            } else {
                                assert(p == splits);
                                assert(group_has_leaf(tree@, p));
                            }
                        }
                    }
                    assert forall|j1: int, j2: int|
                        0 <= j1 < j2 < i + 1 implies !prefix_related(
                        crate::segments::split_on_divider(#[trigger] actions.seq_view()[j1]),
                        crate::segments::split_on_divider(#[trigger] actions.seq_view()[j2]),
                    ) by {
                        if j2 == i {
                            let p = crate::segments::split_on_divider(actions.seq_view()[j1]);
                            assert(group_has_leaf(old_tree, p));
                            assert(!prefix_related(p, splits));
                        }
                    }
                }
            },
            Err(e) => {
                proof {
                    let p = choose|p: Seq<Seq<char>>|
                        #[trigger] group_has_leaf(old_tree, p) && prefix_related(
                            p,
                            suffix_of(segs@, 0),
                        );
                    let jj = choose|jj: int|
                        0 <= jj < i && p == crate::segments::split_on_divider(
                            #[trigger] actions.seq_view()[jj],
                        );
                    let b = action@;
                    let c = actions.seq_view()[jj];
                    assert(b == actions.seq_view()[i as int]);
                    assert(c != b);
                    assert(actions.seq_view().contains(c));
                    assert(actions.seq_view().contains(b));
                    assert(actions@.contains(c));
                    assert(actions@.contains(b));
                    assert(prefix_related(
                        crate::segments::split_on_divider(c),
                        crate::segments::split_on_divider(b),
                    ));
                    if is_prefix_of(
                        crate::segments::split_on_divider(c),
                        crate::segments::split_on_divider(b),
                    ) {
                        assert(seg_conflict(actions@));
                    } else {
                        assert(is_prefix_of(
                            crate::segments::split_on_divider(b),
                            crate::segments::split_on_divider(c),
                        ));
                        assert(seg_conflict(actions@));
                    }
                    assert(e@ == (ErrorModel::ConflictingPath { action: b }));
                }
                return Err(e);
            },
        }
        i += 1;
    }
    proof {
        // Every leaf is the segment run of a member, and conversely.
        assert forall|p: Seq<Seq<char>>| #[trigger]
            group_has_leaf(tree@, p) <==> exists|a: Seq<char>|
                #[trigger] actions@.contains(a) && p == crate::segments::split_on_divider(a) by {
            if group_has_leaf(tree@, p) {
                let jj = choose|jj: int|
                    0 <= jj < n && p == crate::segments::split_on_divider(
                        #[trigger] actions.seq_view()[jj],
                    );
                let a = actions.seq_view()[jj];
                assert(actions.seq_view().contains(a));
                assert(actions@.contains(a));
            }
            if exists|a: Seq<char>|
                #[trigger] actions@.contains(a) && p == crate::segments::split_on_divider(a) {
                let a = choose|a: Seq<char>|
                    #[trigger] actions@.contains(a) && p == crate::segments::split_on_divider(a);
                let jj = choose|jj: int|
                    0 <= jj < actions.seq_view().len() && actions.seq_view()[jj] == a;
                assert(group_has_leaf(tree@, p));
            }
        }
        // No two members collide: the loop would have stopped.
        if seg_conflict(actions@) {
            let (a, b): (Seq<char>, Seq<char>) = choose|a: Seq<char>, b: Seq<char>|
                actions@.contains(a) && actions@.contains(b) && a != b && is_prefix_of(
                    crate::segments::split_on_divider(a),
                    crate::segments::split_on_divider(b),
                );
            let j1 = choose|j1: int|
                0 <= j1 < actions.seq_view().len() && actions.seq_view()[j1] == a;
            let j2 = choose|j2: int|
                0 <= j2 < actions.seq_view().len() && actions.seq_view()[j2] == b;
            assert(j1 != j2);
            if j1 < j2 {
                assert(!prefix_related(
                    crate::segments::split_on_divider(actions.seq_view()[j1]),
                    crate::segments::split_on_divider(actions.seq_view()[j2]),
                ));
            } else {
                assert(!prefix_related(
                    crate::segments::split_on_divider(actions.seq_view()[j2]),
                    crate::segments::split_on_divider(actions.seq_view()[j1]),
                ));
            }
            assert(false);
        }
        // The round trip: decoding the trie yields exactly the set.
        if forall|a: Seq<char>| #[trigger]
            actions@.contains(a) ==> crate::segments::split_on_divider(a).len()
                <= MAX_JSON_DEPTH_ALLOWED as int && (a.len() == 0 || a[0] != ACTION_DIVIDER) {
            assert forall|p: Seq<Seq<char>>| #[trigger]
                group_has_leaf(tree@, p) implies 0 + p.len()
                <= MAX_JSON_DEPTH_ALLOWED as int by {
                let a = choose|a: Seq<char>|
                    #[trigger] actions@.contains(a) && p == crate::segments::split_on_divider(a);
                assert(crate::segments::split_on_divider(a).len()
                    <= MAX_JSON_DEPTH_ALLOWED as int);
            }
            assert(0 < MAX_JSON_DEPTH_ALLOWED as int);
            lemma_decode_of_trie(tree@, Seq::<char>::empty(), 0);
            let target = Set::new(
                |x: Seq<char>|
                    exists|p: Seq<Seq<char>>|
                        #[trigger] group_has_leaf(tree@, p) && x == joined_path(
                            Seq::<char>::empty(),
                            p,
                        ),
            );
            assert forall|x: Seq<char>| target.contains(x) <==> actions@.contains(x) by {
                if target.contains(x) {
                    let p = choose|p: Seq<Seq<char>>|
                        #[trigger] group_has_leaf(tree@, p) && x == joined_path(
                            Seq::<char>::empty(),
                            p,
                        );
                    let a = choose|a: Seq<char>|
                        #[trigger] actions@.contains(a) && p == crate::segments::split_on_divider(
                            a,
                        );
                    crate::segments::lemma_split_nonempty(a);
                    if p.len() > 1 {
                        assert(a.len() == 0 || a[0] != ACTION_DIVIDER);
                        assert(p[0].len() > 0) by {
                            if a.len() > 0 {
                                assert(crate::segments::split_on_divider(a)[0] == seq![a[0]]
                                    + crate::segments::split_on_divider(a.drop_first())[0]);
                            }
                        }
                    }
                    lemma_joined_path_root(p);
                    crate::segments::lemma_join_of_split(a);
                    assert(x == a);
                }
                if actions@.contains(x) {
                    let p = crate::segments::split_on_divider(x);
                    assert(group_has_leaf(tree@, p));
                    crate::segments::lemma_split_nonempty(x);
                    if p.len() > 1 {
                        assert(x.len() == 0 || x[0] != ACTION_DIVIDER);
                        assert(p[0].len() > 0) by {
                            if x.len() > 0 {
                                assert(crate::segments::split_on_divider(x)[0] == seq![x[0]]
                                    + crate::segments::split_on_divider(x.drop_first())[0]);
                            }
                        }
                    }
                    lemma_joined_path_root(p);
                    crate::segments::lemma_join_of_split(x);
                    assert(joined_path(Seq::<char>::empty(), p) == x);
                    assert(target.contains(x));
                }
            }
            assert(target =~= actions@);
        }
    }
    Ok(tree)
}

} // verus!
