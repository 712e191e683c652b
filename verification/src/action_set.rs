use vstd::prelude::*;

verus! {

/// The views, in order, of a sequence of strings.
pub open spec fn views_of(items: Seq<String>) -> Seq<Seq<char>> {
    items.map_values(|s: String| s@)
}

/// A deduplicated set of action identifiers. This is the entire state of a
/// permission: unique strings, order irrelevant. The view of an `ActionSet`
/// is the mathematical set of its members' character sequences.
#[derive(Debug)]
pub struct ActionSet {
    items: Vec<String>,
}

impl View for ActionSet {
    type V = Set<Seq<char>>;

    open spec fn view(&self) -> Set<Seq<char>> {
        self.seq_view().to_set()
    }
}

impl ActionSet {
    /// The members' character sequences, in the order they are stored.
    pub closed spec fn seq_view(&self) -> Seq<Seq<char>> {
        views_of(self.items@)
    }

    /// No two stored members read the same: the set is deduplicated.
    #[verifier::type_invariant]
    pub open spec fn inv(&self) -> bool {
        forall|i: int, j: int|
            0 <= i < j < self.seq_view().len() ==> self.seq_view()[i] != self.seq_view()[j]
    }

    /// The empty action set.
    pub fn new() -> (r: ActionSet)
        ensures
            r@ == Set::<Seq<char>>::empty(),
            r.seq_view() == Seq::<Seq<char>>::empty(),
    {
        let r = ActionSet { items: Vec::new() };
        proof {
            assert(r.seq_view() =~= Seq::<Seq<char>>::empty());
            assert(r@ =~= Set::<Seq<char>>::empty());
        }
        r
    }

    /// How many actions the set holds.
    pub fn count(&self) -> (n: usize)
        ensures
            n == self.seq_view().len(),
    {
        self.items.len()
    }

    /// The stored action at position `i`.
    pub fn get(&self, i: usize) -> (r: &String)
        requires
            i < self.seq_view().len(),
        ensures
            r@ == self.seq_view()[i as int],
    {
        &self.items[i]
    }

    /// Membership test: true iff `action` reads the same as some member.
    pub fn contains(&self, action: &str) -> (r: bool)
        ensures
            r == self@.contains(action@),
    {
        let owned: String = action.to_owned();
        let mut i: usize = 0;
        while i < self.items.len()
            invariant
                0 <= i <= self.items@.len(),
                owned@ == action@,
                forall|j: int| 0 <= j < i ==> self.seq_view()[j] != action@,
            decreases self.items@.len() - i,
        {
            if self.items[i] == owned {
                assert(self.seq_view()[i as int] == action@);
                return true;
            }
            i += 1;
        }
        assert(!self.seq_view().contains(action@));
        false
    }

    /// A set with `action` added; a member already present is not
    /// duplicated.
    pub fn insert(self, action: String) -> (r: ActionSet)
        ensures
            r@ == self@.insert(action@),
            self@.contains(action@) ==> r.seq_view() == self.seq_view(),
            !self@.contains(action@) ==> r.seq_view() == self.seq_view().push(action@),
    {
        proof {
            use_type_invariant(&self);
        }
        let present = self.contains(action.as_str());
        let ghost orig = self;
        let ActionSet { mut items } = self;
        if present {
            let r = ActionSet { items };
            proof {
                assert(r@ =~= orig@.insert(action@));
            }
            r
        } else {
            items.push(action);
            proof {
                assert(views_of(items@) =~= orig.seq_view().push(action@));
                assert forall|i: int, j: int|
                    0 <= i < j < views_of(items@).len() implies views_of(items@)[i] != views_of(
                    items@,
                )[j] by {
                    if j < orig.seq_view().len() {
                        assert(orig.seq_view()[i] != orig.seq_view()[j]);
                    } else {
                        assert(views_of(items@)[j] == action@);
                        assert(orig.seq_view()[i] == views_of(items@)[i]);
                        assert(orig.seq_view().contains(orig.seq_view()[i]));
                    }
                }
            }
            let r = ActionSet { items };
            proof {
                assert(r.seq_view() =~= orig.seq_view().push(action@));
                assert forall|a: Seq<char>| r@.contains(a) <==> orig@.insert(action@).contains(
                    a,
                ) by {
                    if r.seq_view().contains(a) {
                        let i = choose|i: int| 0 <= i < r.seq_view().len() && r.seq_view()[i] == a;
                        if i < orig.seq_view().len() {
                            assert(orig.seq_view().contains(a));
                        }
                    }
                    if orig.seq_view().contains(a) {
                        let i = choose|i: int|
                            0 <= i < orig.seq_view().len() && orig.seq_view()[i] == a;
                        assert(r.seq_view()[i] == a);
                    }
                    if a == action@ {
                        assert(r.seq_view()[r.seq_view().len() - 1] == a);
                    }
                }
                assert(r@ =~= orig@.insert(action@));
            }
            r
        }
    }

    /// Builds a set from a list of actions, deduplicating.
    pub fn from_vec(items: Vec<String>) -> (r: ActionSet)
        ensures
            r@ == views_of(items@).to_set(),
    {
        let mut r = ActionSet::new();
        let mut i: usize = 0;
        while i < items.len()
            invariant
                0 <= i <= items@.len(),
                r@ == views_of(items@.take(i as int)).to_set(),
            decreases items@.len() - i,
        {
            let ghost prev = r@;
            r = r.insert(items[i].clone());
            proof {
                assert forall|a: Seq<char>| prev.insert(items@[i as int]@).contains(a) <==> views_of(
                    items@.take(i as int + 1),
                ).to_set().contains(a) by {
                    let taken = views_of(items@.take(i as int + 1));
                    if prev.contains(a) {
                        let j = choose|j: int|
                            0 <= j < views_of(items@.take(i as int)).len() && views_of(
                                items@.take(i as int),
                            )[j] == a;
                        assert(taken[j] == a);
                    }
                    if a == items@[i as int]@ {
                        assert(taken[i as int] == a);
                    }
                    if taken.contains(a) {
                        let j = choose|j: int| 0 <= j < taken.len() && taken[j] == a;
                        if j < i {
                            assert(views_of(items@.take(i as int))[j] == a);
                        }
                    }
                }
                assert(r@ =~= views_of(items@.take(i as int + 1)).to_set());
            }
            i += 1;
        }
        proof {
            assert(items@.take(items@.len() as int) =~= items@);
        }
        r
    }

    /// A new set holding every member of `self` and of `other`.
    pub fn union(&self, other: &ActionSet) -> (r: ActionSet)
        ensures
            r@ == self@.union(other@),
    {
        let mut r = self.clone();
        let mut i: usize = 0;
        while i < other.items.len()
            invariant
                0 <= i <= other.items@.len(),
                r@ == self@.union(other.seq_view().take(i as int).to_set()),
            decreases other.items@.len() - i,
        {
            let ghost prev = r@;
            r = r.insert(other.items[i].clone());
            proof {
                assert(other.seq_view()[i as int] == other.items@[i as int]@);
                assert(other.seq_view().take(i as int + 1) =~= other.seq_view().take(
                    i as int,
                ).push(other.seq_view()[i as int]));
                assert forall|a: Seq<char>|
                    other.seq_view().take(i as int + 1).to_set().contains(a) <==> (other.seq_view()
                        .take(i as int)
                        .to_set()
                        .contains(a) || a == other.seq_view()[i as int]) by {
                    let s1 = other.seq_view().take(i as int + 1);
                    if s1.contains(a) {
                        let j = choose|j: int| 0 <= j < s1.len() && s1[j] == a;
                        if j < i {
                            assert(other.seq_view().take(i as int)[j] == a);
                        }
                    }
                    if other.seq_view().take(i as int).contains(a) {
                        let j = choose|j: int|
                            0 <= j < i && other.seq_view().take(i as int)[j] == a;
                        assert(s1[j] == a);
                    }
                    if a == other.seq_view()[i as int] {
                        assert(s1[i as int] == a);
                    }
                }
                assert(r@ =~= self@.union(other.seq_view().take(i as int + 1).to_set()));
            }
            i += 1;
        }
        proof {
            assert(other.seq_view().take(other.items@.len() as int) =~= other.seq_view());
            assert(r@ =~= self@.union(other@));
        }
        r
    }

    /// A new set holding every member of `self` that is not in `other`.
    pub fn difference(&self, other: &ActionSet) -> (r: ActionSet)
        ensures
            r@ == self@.difference(other@),
    {
        let mut r = ActionSet::new();
        let mut i: usize = 0;
        while i < self.items.len()
            invariant
                0 <= i <= self.items@.len(),
                r@ == self.seq_view().take(i as int).to_set().difference(other@),
            decreases self.items@.len() - i,
        {
            let ghost prev = r@;
            let keep = !other.contains(self.items[i].as_str());
            if keep {
                r = r.insert(self.items[i].clone());
            }
            proof {
                assert(self.seq_view()[i as int] == self.items@[i as int]@);
                assert forall|a: Seq<char>|
                    self.seq_view().take(i as int + 1).to_set().contains(a) <==> (self.seq_view()
                        .take(i as int)
                        .to_set()
                        .contains(a) || a == self.seq_view()[i as int]) by {
                    let s1 = self.seq_view().take(i as int + 1);
                    if s1.contains(a) {
                        let j = choose|j: int| 0 <= j < s1.len() && s1[j] == a;
                        if j < i {
                            assert(self.seq_view().take(i as int)[j] == a);
                        }
                    }
                    if self.seq_view().take(i as int).contains(a) {
                        let j = choose|j: int| 0 <= j < i && self.seq_view().take(i as int)[j] == a;
                        assert(s1[j] == a);
                    }
                    if a == self.seq_view()[i as int] {
                        assert(s1[i as int] == a);
                    }
                }
                assert(r@ =~= self.seq_view().take(i as int + 1).to_set().difference(other@));
            }
            i += 1;
        }
        proof {
            assert(self.seq_view().take(self.items@.len() as int) =~= self.seq_view());
            assert(r@ =~= self@.difference(other@));
        }
        r
    }

    /// True iff every member of `self` is a member of `other`.
    pub fn subset_of(&self, other: &ActionSet) -> (r: bool)
        ensures
            r == self@.subset_of(other@),
    {
        let mut i: usize = 0;
        while i < self.items.len()
            invariant
                0 <= i <= self.items@.len(),
                forall|j: int| 0 <= j < i ==> other@.contains(self.seq_view()[j]),
            decreases self.items@.len() - i,
        {
            if !other.contains(self.items[i].as_str()) {
                assert(self@.contains(self.seq_view()[i as int]));
                return false;
            }
            i += 1;
        }
        assert forall|a: Seq<char>| self@.contains(a) implies other@.contains(a) by {
            let j = choose|j: int| 0 <= j < self.seq_view().len() && self.seq_view()[j] == a;
            assert(other@.contains(self.seq_view()[j]));
        }
        true
    }
}

impl Clone for ActionSet {
    /// Cloning copies the members: the clone reads as the same set.
    fn clone(&self) -> (r: Self)
        ensures
            r@ == self@,
            r.seq_view() == self.seq_view(),
    {
        proof {
            use_type_invariant(self);
        }
        let items = self.items.clone();
        proof {
            assert forall|i: int| 0 <= i < items@.len() implies items@[i] == self.items@[i] by {
                assert(cloned::<String>(self.items@[i], items@[i]));
            }
            assert(items@ =~= self.items@);
            assert(items@ == self.items@);
            assert(views_of(items@) == self.seq_view());
            assert((ActionSet { items }).inv());
        }
        ActionSet { items }
    }
}

impl PartialEq for ActionSet {
    /// Two action sets are equal iff they hold the same members, whatever
    /// the stored order.
    fn eq(&self, other: &ActionSet) -> (r: bool) {
        let r = self.subset_of(other) && other.subset_of(self);
        proof {
            if r {
                assert(self@ =~= other@);
            }
        }
        r
    }
}

impl vstd::std_specs::cmp::PartialEqSpecImpl for ActionSet {
    open spec fn obeys_eq_spec() -> bool {
        true
    }

    open spec fn eq_spec(&self, other: &ActionSet) -> bool {
        self@ == other@
    }
}

} // verus!
