//! A set of strings that keeps one copy of each member.

use crate::text::{ends_with, prefix_of, starts_with, str_eq, suffix_of};
use vstd::prelude::*;

verus! {

/// A finite set of strings. Each member is held once, in the order in which it was first
/// inserted.
#[derive(Debug)]
pub struct StringSet {
    items: Vec<String>,
}

/// The characters of each string, in order.
pub open spec fn views_of(items: Seq<String>) -> Seq<Seq<char>> {
    items.map_values(|s: String| s@)
}

impl View for StringSet {
    type V = Set<Seq<char>>;

    closed spec fn view(&self) -> Set<Seq<char>> {
        self.members().to_set()
    }
}

impl StringSet {
    /// The members, in the order of first insertion.
    pub closed spec fn members(&self) -> Seq<Seq<char>> {
        views_of(self.items@)
    }

    #[verifier::type_invariant]
    closed spec fn no_copies(&self) -> bool {
        self.members().no_duplicates()
    }

    /// The number of members; each member is held once, so this is the size of the set.
    pub fn len(&self) -> (n: usize)
        ensures
            n == self@.len(),
            n == self.members().len(),
    {
        proof {
            use_type_invariant(self);
            self.members().unique_seq_to_set();
        }
        self.items.len()
    }

    /// The empty set.
    pub fn new() -> (r: StringSet)
        ensures
            r@ == Set::<Seq<char>>::empty(),
            r.members() == Seq::<Seq<char>>::empty(),
    {
        let r = StringSet { items: Vec::new() };
        assert(r.members() =~= Seq::<Seq<char>>::empty());
        r
    }

    /// Whether `s` is a member.
    pub fn contains(&self, s: &str) -> (r: bool)
        ensures
            r == self@.contains(s@),
    {
        let mut i: usize = 0;
        while i < self.items.len()
            invariant
                0 <= i <= self.items@.len(),
                forall|j: int| 0 <= j < i ==> self.items@[j]@ != s@,
            decreases self.items@.len() - i,
        {
            if str_eq(self.items[i].as_str(), s) {
                assert(self.members()[i as int] == s@);
                return true;
            }
            i = i + 1;
        }
        assert(!self.members().contains(s@));
        false
    }

    /// Adds `s`; returns whether it was not a member before. A member is never held twice.
    pub fn insert(&mut self, s: String) -> (r: bool)
        ensures
            r == !old(self)@.contains(s@),
            final(self)@ == old(self)@.insert(s@),
            r ==> final(self).members() == old(self).members().push(s@),
            !r ==> final(self).members() == old(self).members(),
    {
        proof {
            use_type_invariant(&*self);
        }
        if self.contains(s.as_str()) {
            return false;
        }
        let ghost old_members = self.members();
        let ghost sv = s@;
        let mut items: Vec<String> = Vec::new();
        std::mem::swap(&mut items, &mut self.items);
        items.push(s);
        proof {
            assert(views_of(items@) =~= old_members.push(sv));
            assert(!old_members.contains(sv));
            assert(views_of(items@).no_duplicates()) by {
                assert forall|a: int, b: int|
                    0 <= a < views_of(items@).len() && 0 <= b < views_of(items@).len() && a != b
                    implies views_of(items@)[a] != views_of(items@)[b] by {
                    if a < old_members.len() && b < old_members.len() {
                    } else if a == old_members.len() {
                        assert(views_of(items@)[b] == old_members[b]);
                    } else {
                        assert(views_of(items@)[a] == old_members[a]);
                    }
                }
            }
        }
        self.items = items;
        proof {
            assert(self.members().to_set() =~= old_members.to_set().insert(sv)) by {
                assert forall|x: Seq<char>| self.members().contains(x) <==> (old_members.contains(x) || x == sv) by {
                    if old_members.contains(x) {
                        let k = choose|k: int| 0 <= k < old_members.len() && old_members[k] == x;
                        assert(self.members()[k] == x);
                    }
                    if x == sv {
                        assert(self.members()[old_members.len() as int] == sv);
                    }
                    if self.members().contains(x) && x != sv {
                        let k = choose|k: int| 0 <= k < self.members().len() && self.members()[k] == x;
                        assert(old_members[k] == x);
                    }
                }
            }
        }
        true
    }

    /// The set of the given strings; a string given twice is held once.
    pub fn from_iter(items: Vec<String>) -> (r: StringSet)
        ensures
            r@ == views_of(items@).to_set(),
    {
        let mut r = StringSet::new();
        let mut i: usize = 0;
        let mut items = items;
        let ghost all = views_of(items@);
        while i < items.len()
            invariant
                0 <= i <= items@.len(),
                views_of(items@) == all,
                r@ == all.take(i as int).to_set(),
            decreases items@.len() - i,
        {
            let s = items[i].clone();
            r.insert(s);
            assert(all.take(i + 1).to_set() =~= all.take(i as int).to_set().insert(all[i as int])) by {
                assert(all.take(i + 1) =~= all.take(i as int).push(all[i as int]));
                all.take(i as int).lemma_push_to_set_commute(all[i as int]);
            }
            i = i + 1;
        }
        assert(all.take(items@.len() as int) =~= all);
        r
    }

    /// Whether some member is a prefix of `name`.
    pub fn has_prefix_of(&self, name: &str) -> (r: bool)
        ensures
            r == exists|p: Seq<char>| self@.contains(p) && #[trigger] prefix_of(p, name@),
    {
        let mut i: usize = 0;
        while i < self.items.len()
            invariant
                0 <= i <= self.items@.len(),
                forall|j: int| 0 <= j < i ==> !prefix_of(#[trigger] self.members()[j], name@),
            decreases self.items@.len() - i,
        {
            if starts_with(name, self.items[i].as_str()) {
                assert(self.members().contains(self.members()[i as int]));
                return true;
            }
            i = i + 1;
        }
        assert forall|p: Seq<char>| self@.contains(p) implies !#[trigger] prefix_of(p, name@) by {
            let k = choose|k: int| 0 <= k < self.members().len() && self.members()[k] == p;
        }
        false
    }

    /// Whether some member is a suffix of `name`.
    pub fn has_suffix_of(&self, name: &str) -> (r: bool)
        ensures
            r == exists|p: Seq<char>| self@.contains(p) && #[trigger] suffix_of(p, name@),
    {
        let mut i: usize = 0;
        while i < self.items.len()
            invariant
                0 <= i <= self.items@.len(),
                forall|j: int| 0 <= j < i ==> !suffix_of(#[trigger] self.members()[j], name@),
            decreases self.items@.len() - i,
        {
            if ends_with(name, self.items[i].as_str()) {
                assert(self.members().contains(self.members()[i as int]));
                return true;
            }
            i = i + 1;
        }
        assert forall|p: Seq<char>| self@.contains(p) implies !#[trigger] suffix_of(p, name@) by {
            let k = choose|k: int| 0 <= k < self.members().len() && self.members()[k] == p;
        }
        false
    }
}

impl StringSet {
    /// Whether every member of `self` is a member of `other`.
    fn is_subset_of(&self, other: &StringSet) -> (r: bool)
        ensures
            r == self@.subset_of(other@),
    {
        let mut i: usize = 0;
        while i < self.items.len()
            invariant
                0 <= i <= self.items@.len(),
                forall|j: int| 0 <= j < i ==> other@.contains(#[trigger] self.members()[j]),
            decreases self.items@.len() - i,
        {
            if !other.contains(self.items[i].as_str()) {
                assert(self@.contains(self.members()[i as int]));
                return false;
            }
            i = i + 1;
        }
        assert forall|x: Seq<char>| self@.contains(x) implies other@.contains(x) by {
            let k = choose|k: int| 0 <= k < self.members().len() && self.members()[k] == x;
        }
        true
    }
}

impl PartialEq for StringSet {
    /// Two sets are equal when they have the same members.
    fn eq(&self, other: &StringSet) -> (r: bool) {
        let r = self.is_subset_of(other) && other.is_subset_of(self);
        proof {
            if r {
                assert(self@ =~= other@);
            }
        }
        r
    }
}

impl vstd::std_specs::cmp::PartialEqSpecImpl for StringSet {
    open spec fn obeys_eq_spec() -> bool {
        true
    }

    open spec fn eq_spec(&self, other: &StringSet) -> bool {
        self@ == other@
    }
}

} // verus!
