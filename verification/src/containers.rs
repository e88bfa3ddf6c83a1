//! Duplicate-free vector-backed sets and name-keyed association maps. They
//! stand in for hash sets and hash maps: their mathematical views are `Set`
//! and `Map`, and every operation is specified against those views.

use vstd::prelude::*;
use crate::types::Property;
use crate::strutil::str_eq;

verus! {

broadcast use vstd::seq_lib::group_seq_properties, vstd::set::group_set_axioms;

/// A set of class ids.
#[derive(Debug, PartialEq)]
pub struct IdSet {
    pub ids: Vec<u32>,
}

impl View for IdSet {
    type V = Set<u32>;

    open spec fn view(&self) -> Set<u32> {
        self.ids@.to_set()
    }
}

impl IdSet {
    /// The member ids in insertion order.
    pub open spec fn seq(&self) -> Seq<u32> {
        self.ids@
    }

    /// No id occurs twice.
    pub open spec fn wf(&self) -> bool {
        self.ids@.no_duplicates()
    }

    /// The empty set.
    pub fn new() -> (r: IdSet)
        ensures
            r.wf(),
            r@ == Set::<u32>::empty(),
            r.seq() == Seq::<u32>::empty(),
    {
        proof {
            assert(Seq::<u32>::empty().to_set() =~= Set::<u32>::empty());
        }
        IdSet { ids: Vec::new() }
    }

    /// Membership test.
    pub fn contains(&self, x: u32) -> (r: bool)
        ensures
            r == self@.contains(x),
    {
        let n = self.ids.len();
        let mut i: usize = 0;
        while i < n
            invariant
                n == self.ids@.len(),
                i <= n,
                forall|j: int| 0 <= j < i ==> self.ids@[j] != x,
            decreases n - i,
        {
            if self.ids[i] == x {
                return true;
            }
            i = i + 1;
        }
        proof {
            assert(!self.ids@.contains(x));
        }
        false
    }

    /// Adds `x`; a no-op when it is already a member.
    pub fn insert(&mut self, x: u32)
        requires
            old(self).wf(),
        ensures
            final(self).wf(),
            final(self)@ == old(self)@.insert(x),
            final(self).seq() == if old(self)@.contains(x) {
                old(self).seq()
            } else {
                old(self).seq().push(x)
            },
    {
        if !self.contains(x) {
            self.ids.push(x);
            proof {
                assert(self.ids@.to_set() =~= old(self).ids@.to_set().insert(x));
            }
        } else {
            proof {
                assert(self.ids@.to_set() =~= old(self).ids@.to_set().insert(x));
            }
        }
    }

    /// Adds every member of `other`.
    pub fn union_with(&mut self, other: &IdSet)
        requires
            old(self).wf(),
        ensures
            final(self).wf(),
            final(self)@ == old(self)@ + other@,
    {
        let n = other.ids.len();
        let mut i: usize = 0;
        while i < n
            invariant
                n == other.ids@.len(),
                i <= n,
                self.wf(),
                self@ == old(self)@ + other.ids@.take(i as int).to_set(),
            decreases n - i,
        {
            let x = other.ids[i];
            self.insert(x);
            proof {
                assert(other.ids@.take(i + 1).drop_last() =~= other.ids@.take(i as int));
                assert(other.ids@.take(i + 1).to_set() =~= other.ids@.take(i as int).to_set().insert(
                    other.ids@[i as int],
                ));
                assert(self@ =~= old(self)@ + other.ids@.take(i + 1).to_set());
            }
            i = i + 1;
        }
        proof {
            assert(other.ids@.take(n as int) =~= other.ids@);
            assert(self@ =~= old(self)@ + other@);
        }
    }

    /// Number of members.
    pub fn len(&self) -> (r: usize)
        requires
            self.wf(),
        ensures
            r == self@.len(),
    {
        proof {
            self.ids@.unique_seq_to_set();
        }
        self.ids.len()
    }

    /// True when there are no members.
    pub fn is_empty(&self) -> (r: bool)
        requires
            self.wf(),
        ensures
            r == (self@ =~= Set::<u32>::empty()),
    {
        proof {
            self.ids@.unique_seq_to_set();
            vstd::seq_lib::seq_to_set_is_finite(self.ids@);
            if self.ids@.len() == 0 {
                assert(self@ =~= Set::<u32>::empty());
            } else {
                assert(self@.contains(self.ids@[0]));
            }
        }
        self.ids.len() == 0
    }

    /// The id at position `i` of the insertion order.
    pub fn index(&self, i: usize) -> (r: u32)
        requires
            i < self.seq().len(),
        ensures
            r == self.seq()[i as int],
            self@.contains(r),
    {
        self.ids[i]
    }

    /// An independent copy.
    pub fn duplicate(&self) -> (r: IdSet)
        ensures
            r.wf() == self.wf(),
            r@ == self@,
            r.seq() == self.seq(),
    {
        let n = self.ids.len();
        let mut ids: Vec<u32> = Vec::new();
        let mut i: usize = 0;
        while i < n
            invariant
                n == self.ids@.len(),
                i <= n,
                ids@ == self.ids@.take(i as int),
            decreases n - i,
        {
            ids.push(self.ids[i]);
            proof {
                assert(self.ids@.take(i + 1) =~= self.ids@.take(i as int).push(self.ids@[i as int]));
            }
            i = i + 1;
        }
        proof {
            assert(self.ids@.take(n as int) =~= self.ids@);
        }
        IdSet { ids }
    }
}

/// A set of property records.
#[derive(Debug, PartialEq)]
pub struct PropSet {
    pub props: Vec<Property>,
}

impl View for PropSet {
    type V = Set<Property>;

    open spec fn view(&self) -> Set<Property> {
        self.props@.to_set()
    }
}

impl PropSet {
    /// The members in insertion order.
    pub open spec fn seq(&self) -> Seq<Property> {
        self.props@
    }

    /// No record occurs twice.
    pub open spec fn wf(&self) -> bool {
        self.props@.no_duplicates()
    }

    /// The empty set.
    pub fn new() -> (r: PropSet)
        ensures
            r.wf(),
            r@ == Set::<Property>::empty(),
    {
        proof {
            assert(Seq::<Property>::empty().to_set() =~= Set::<Property>::empty());
        }
        PropSet { props: Vec::new() }
    }

    /// Membership test.
    pub fn contains(&self, p: &Property) -> (r: bool)
        ensures
            r == self@.contains(*p),
    {
        let n = self.props.len();
        let mut i: usize = 0;
        while i < n
            invariant
                n == self.props@.len(),
                i <= n,
                forall|j: int| 0 <= j < i ==> self.props@[j] != *p,
            decreases n - i,
        {
            if self.props[i] == *p {
                return true;
            }
            i = i + 1;
        }
        proof {
            assert(!self.props@.contains(*p));
        }
        false
    }

    /// Adds `p`; a no-op when it is already a member.
    pub fn insert(&mut self, p: Property)
        requires
            old(self).wf(),
        ensures
            final(self).wf(),
            final(self)@ == old(self)@.insert(p),
    {
        if !self.contains(&p) {
            self.props.push(p);
        }
        proof {
            assert(self.props@.to_set() =~= old(self).props@.to_set().insert(p));
        }
    }

    /// Adds every member of `other`.
    pub fn union_with(&mut self, other: &PropSet)
        requires
            old(self).wf(),
        ensures
            final(self).wf(),
            final(self)@ == old(self)@ + other@,
    {
        let n = other.props.len();
        let mut i: usize = 0;
        while i < n
            invariant
                n == other.props@.len(),
                i <= n,
                self.wf(),
                self@ == old(self)@ + other.props@.take(i as int).to_set(),
            decreases n - i,
        {
            let p = other.props[i];
            self.insert(p);
            proof {
                assert(other.props@.take(i + 1).drop_last() =~= other.props@.take(i as int));
                assert(other.props@.take(i + 1).to_set() =~= other.props@.take(
                    i as int,
                ).to_set().insert(other.props@[i as int]));
                assert(self@ =~= old(self)@ + other.props@.take(i + 1).to_set());
            }
            i = i + 1;
        }
        proof {
            assert(other.props@.take(n as int) =~= other.props@);
            assert(self@ =~= old(self)@ + other@);
        }
    }

    /// Number of members.
    pub fn len(&self) -> (r: usize)
        requires
            self.wf(),
        ensures
            r == self@.len(),
    {
        proof {
            self.props@.unique_seq_to_set();
        }
        self.props.len()
    }

    /// True when there are no members.
    pub fn is_empty(&self) -> (r: bool)
        requires
            self.wf(),
        ensures
            r == (self@ =~= Set::<Property>::empty()),
    {
        proof {
            self.props@.unique_seq_to_set();
            vstd::seq_lib::seq_to_set_is_finite(self.props@);
            if self.props@.len() == 0 {
                assert(self@ =~= Set::<Property>::empty());
            } else {
                assert(self@.contains(self.props@[0]));
            }
        }
        self.props.len() == 0
    }

    /// The record at position `i` of the insertion order.
    pub fn index(&self, i: usize) -> (r: Property)
        requires
            i < self.seq().len(),
        ensures
            r == self.seq()[i as int],
            self@.contains(r),
    {
        self.props[i]
    }

}

} // verus!

verus! {

/// A map from property names to single property records, backed by an
/// association list with unique keys.
#[derive(Debug, PartialEq)]
pub struct PropMap {
    pub entries: Vec<(String, Property)>,
}

impl View for PropMap {
    type V = Map<Seq<char>, Property>;

    open spec fn view(&self) -> Map<Seq<char>, Property> {
        Map::new(
            |k: Seq<char>| self.keys().contains(k),
            |k: Seq<char>| self.entries@[self.index_of(k)].1,
        )
    }
}

impl PropMap {
    /// The keys in insertion order.
    pub open spec fn keys(&self) -> Seq<Seq<char>> {
        self.entries@.map_values(|e: (String, Property)| e.0@)
    }

    /// The position of key `k` in the entry list.
    pub open spec fn index_of(&self, k: Seq<char>) -> int {
        choose|i: int| 0 <= i < self.entries@.len() && self.entries@[i].0@ == k
    }

    /// Keys are unique.
    pub open spec fn wf(&self) -> bool {
        self.keys().no_duplicates()
    }

    /// Relates the entry at position `i` to the map view.
    pub proof fn lemma_entry(&self, i: int)
        requires
            self.wf(),
            0 <= i < self.entries@.len(),
        ensures
            self@.dom().contains(self.entries@[i].0@),
            self@[self.entries@[i].0@] == self.entries@[i].1,
    {
        assert(self.keys()[i] == self.entries@[i].0@);
        let k = self.entries@[i].0@;
        let j = self.index_of(k);
        assert(self.keys()[j] == self.entries@[j].0@);
        assert(j == i);
    }

    /// The domain of the view is the key set.
    pub proof fn lemma_dom(&self)
        ensures
            self@.dom() =~= self.keys().to_set(),
    {
    }

    /// The empty map.
    pub fn new() -> (r: PropMap)
        ensures
            r.wf(),
            r@ == Map::<Seq<char>, Property>::empty(),
            r.keys() == Seq::<Seq<char>>::empty(),
    {
        let r = PropMap { entries: Vec::new() };
        proof {
            assert(r.keys() =~= Seq::<Seq<char>>::empty());
            assert(r@ =~= Map::<Seq<char>, Property>::empty());
        }
        r
    }

    /// The position of `name` in the entry list, if present.
    fn find(&self, name: &str) -> (r: Option<usize>)
        requires
            self.wf(),
        ensures
            match r {
                Some(i) => {
                    &&& i < self.entries@.len()
                    &&& self.entries@[i as int].0@ == name@
                    &&& self@.dom().contains(name@)
                    &&& self@[name@] == self.entries@[i as int].1
                },
                None => !self@.dom().contains(name@),
            },
    {
        let n = self.entries.len();
        let mut i: usize = 0;
        while i < n
            invariant
                self.wf(),
                n == self.entries@.len(),
                i <= n,
                forall|j: int| 0 <= j < i ==> self.entries@[j].0@ != name@,
            decreases n - i,
        {
            if str_eq(name, self.entries[i].0.as_str()) {
                proof {
                    self.lemma_entry(i as int);
                }
                return Some(i);
            }
            i = i + 1;
        }
        proof {
            assert(forall|j: int| 0 <= j < n ==> self.keys()[j] != name@);
            assert(!self.keys().contains(name@));
        }
        None
    }

    /// Whether `name` is a key.
    pub fn contains_key(&self, name: &str) -> (r: bool)
        requires
            self.wf(),
        ensures
            r == self@.dom().contains(name@),
    {
        self.find(name).is_some()
    }

    /// The record under `name`, if present.
    pub fn get(&self, name: &str) -> (r: Option<Property>)
        requires
            self.wf(),
        ensures
            match r {
                Some(p) => self@.dom().contains(name@) && p == self@[name@],
                None => !self@.dom().contains(name@),
            },
    {
        match self.find(name) {
            Some(i) => Some(self.entries[i].1),
            None => None,
        }
    }

    /// Binds `name`, which must be absent, to `p`.
    pub fn insert(&mut self, name: String, p: Property)
        requires
            old(self).wf(),
            !old(self)@.dom().contains(name@),
        ensures
            final(self).wf(),
            final(self)@ == old(self)@.insert(name@, p),
            final(self).keys() == old(self).keys().push(name@),
    {
        proof {
            assert(!old(self).keys().contains(name@));
        }
        let ghost k = name@;
        self.entries.push((name, p));
        proof {
            assert(self.keys() =~= old(self).keys().push(k));
            assert forall|q: Seq<char>| self.keys().contains(q) implies self@[q] == old(
                self,
            )@.insert(k, p)[q] by {
                let i = self.index_of(q);
                assert(self.keys()[i] == q);
                if i < old(self).entries@.len() {
                    assert(old(self).keys()[i] == q);
                    old(self).lemma_entry(i);
                    self.lemma_entry(i);
                } else {
                    assert(q == k);
                    self.lemma_entry(self.entries@.len() - 1);
                }
            }
            assert(self@ =~= old(self)@.insert(k, p));
        }
    }

    /// Removes the binding of `name`, which must be present.
    pub fn remove(&mut self, name: &str) -> (r: Property)
        requires
            old(self).wf(),
            old(self)@.dom().contains(name@),
        ensures
            final(self).wf(),
            final(self)@ == old(self)@.remove(name@),
            r == old(self)@[name@],
    {
        let io = self.find(name);
        let i = io.unwrap();
        let e = self.entries.remove(i);
        proof {
            let ghost k = name@;
            assert(self.keys() =~= old(self).keys().remove(i as int));
            old(self).keys().remove_ensures(i as int);
            assert(self.keys().no_duplicates());
            assert forall|q: Seq<char>| self.keys().contains(q) implies old(self).keys().contains(q)
                && q != k && self@[q] == old(self)@[q] by {
                let j = self.index_of(q);
                assert(self.keys()[j] == q);
                let jo = if j < i { j } else { j + 1 };
                assert(old(self).keys()[jo] == q);
                if q == k {
                    assert(old(self).keys()[i as int] == k);
                    assert(jo != i);
                }
                old(self).lemma_entry(jo);
                self.lemma_entry(j);
            }
            assert forall|q: Seq<char>| old(self).keys().contains(q) && q != k implies self.keys().contains(
                q,
            ) by {
                let j = choose|j: int| 0 <= j < old(self).keys().len() && old(self).keys()[j] == q;
                assert(j != i);
                let jn = if j < i { j } else { j - 1 };
                assert(self.keys()[jn] == q);
            }
            assert(self@ =~= old(self)@.remove(k));
        }
        e.1
    }

    /// Number of bindings.
    pub fn len(&self) -> (r: usize)
        requires
            self.wf(),
        ensures
            r == self@.dom().len(),
    {
        proof {
            self.lemma_dom();
            self.keys().unique_seq_to_set();
        }
        self.entries.len()
    }

    /// True when there are no bindings.
    pub fn is_empty(&self) -> (r: bool)
        requires
            self.wf(),
        ensures
            r == (self@.dom() =~= Set::<Seq<char>>::empty()),
    {
        proof {
            self.lemma_dom();
            if self.entries@.len() == 0 {
                assert(self@.dom() =~= Set::<Seq<char>>::empty());
            } else {
                assert(self.keys().contains(self.keys()[0]));
                assert(self@.dom().contains(self.keys()[0]));
            }
        }
        self.entries.len() == 0
    }

    /// Number of entries in the backing list.
    pub fn entry_count(&self) -> (r: usize)
        ensures
            r == self.keys().len(),
    {
        self.entries.len()
    }

    /// The key of the entry at position `i`.
    pub fn key_at(&self, i: usize) -> (r: &String)
        requires
            i < self.keys().len(),
        ensures
            r@ == self.keys()[i as int],
            self.wf() ==> self@.dom().contains(r@) && self@[r@] == self.entries@[i as int].1,
    {
        proof {
            if self.wf() {
                self.lemma_entry(i as int);
            }
        }
        &self.entries[i].0
    }

    /// The record of the entry at position `i`.
    pub fn val_at(&self, i: usize) -> (r: Property)
        requires
            i < self.keys().len(),
        ensures
            r == self.entries@[i as int].1,
            self.wf() ==> self@[self.keys()[i as int]] == r,
    {
        proof {
            if self.wf() {
                self.lemma_entry(i as int);
            }
        }
        self.entries[i].1
    }
}

} // verus!

verus! {

/// A map from property names to sets of property records, backed by an
/// association list with unique keys.
#[derive(Debug, PartialEq)]
pub struct PropSetMap {
    pub entries: Vec<(String, PropSet)>,
}

impl View for PropSetMap {
    type V = Map<Seq<char>, Set<Property>>;

    open spec fn view(&self) -> Map<Seq<char>, Set<Property>> {
        Map::new(
            |k: Seq<char>| self.keys().contains(k),
            |k: Seq<char>| self.entries@[self.index_of(k)].1@,
        )
    }
}

impl PropSetMap {
    /// The keys in insertion order.
    pub open spec fn keys(&self) -> Seq<Seq<char>> {
        self.entries@.map_values(|e: (String, PropSet)| e.0@)
    }

    /// The position of key `k` in the entry list.
    pub open spec fn index_of(&self, k: Seq<char>) -> int {
        choose|i: int| 0 <= i < self.entries@.len() && self.entries@[i].0@ == k
    }

    /// Keys are unique and every member set is duplicate-free.
    pub open spec fn wf(&self) -> bool {
        &&& self.keys().no_duplicates()
        &&& forall|i: int| 0 <= i < self.entries@.len() ==> (#[trigger] self.entries@[i].1).wf()
    }

    /// Relates the entry at position `i` to the map view.
    pub proof fn lemma_entry(&self, i: int)
        requires
            self.wf(),
            0 <= i < self.entries@.len(),
        ensures
            self@.dom().contains(self.entries@[i].0@),
            self@[self.entries@[i].0@] == self.entries@[i].1@,
    {
        assert(self.keys()[i] == self.entries@[i].0@);
        let k = self.entries@[i].0@;
        let j = self.index_of(k);
        assert(self.keys()[j] == self.entries@[j].0@);
        assert(j == i);
    }

    /// The domain of the view is the key set.
    pub proof fn lemma_dom(&self)
        ensures
            self@.dom() =~= self.keys().to_set(),
    {
    }

    /// The empty map.
    pub fn new() -> (r: PropSetMap)
        ensures
            r.wf(),
            r@ == Map::<Seq<char>, Set<Property>>::empty(),
            r.keys() == Seq::<Seq<char>>::empty(),
    {
        let r = PropSetMap { entries: Vec::new() };
        proof {
            assert(r.keys() =~= Seq::<Seq<char>>::empty());
            assert(r@ =~= Map::<Seq<char>, Set<Property>>::empty());
        }
        r
    }

    /// The position of `name` in the entry list, if present.
    fn find(&self, name: &str) -> (r: Option<usize>)
        requires
            self.wf(),
        ensures
            match r {
                Some(i) => {
                    &&& i < self.entries@.len()
                    &&& self.entries@[i as int].0@ == name@
                    &&& self@.dom().contains(name@)
                    &&& self@[name@] == self.entries@[i as int].1@
                },
                None => !self@.dom().contains(name@),
            },
    {
        let n = self.entries.len();
        let mut i: usize = 0;
        while i < n
            invariant
                self.wf(),
                n == self.entries@.len(),
                i <= n,
                forall|j: int| 0 <= j < i ==> self.entries@[j].0@ != name@,
            decreases n - i,
        {
            if str_eq(name, self.entries[i].0.as_str()) {
                proof {
                    self.lemma_entry(i as int);
                }
                return Some(i);
            }
            i = i + 1;
        }
        proof {
            assert(forall|j: int| 0 <= j < n ==> self.keys()[j] != name@);
            assert(!self.keys().contains(name@));
        }
        None
    }

    /// Whether `name` is a key.
    pub fn contains_key(&self, name: &str) -> (r: bool)
        requires
            self.wf(),
        ensures
            r == self@.dom().contains(name@),
    {
        self.find(name).is_some()
    }

    /// The set under `name`, if present.
    pub fn get(&self, name: &str) -> (r: Option<&PropSet>)
        requires
            self.wf(),
        ensures
            match r {
                Some(s) => {
                    &&& self@.dom().contains(name@)
                    &&& s@ == self@[name@]
                    &&& s.wf()
                },
                None => !self@.dom().contains(name@),
            },
    {
        match self.find(name) {
            Some(i) => Some(&self.entries[i].1),
            None => None,
        }
    }

    /// The set bound to `name`, or the empty set when `name` is absent.
    pub open spec fn at_or_empty(&self, k: Seq<char>) -> Set<Property> {
        if self@.dom().contains(k) {
            self@[k]
        } else {
            Set::empty()
        }
    }

    /// Adds `p` to the set under `name`, creating the entry if needed.
    pub fn add_prop(&mut self, name: &str, p: Property)
        requires
            old(self).wf(),
        ensures
            final(self).wf(),
            final(self)@ == old(self)@.insert(name@, old(self).at_or_empty(name@).insert(p)),
    {
        let mut s = PropSet::new();
        s.insert(p);
        self.union_at(name, &s);
        proof {
            assert(old(self).at_or_empty(name@) + Set::empty().insert(p) =~= old(self).at_or_empty(
                name@,
            ).insert(p));
            assert(self@ =~= old(self)@.insert(name@, old(self).at_or_empty(name@).insert(p)));
        }
    }

    /// Unions `other` into the set under `name`, creating the entry if needed.
    pub fn union_at(&mut self, name: &str, other: &PropSet)
        requires
            old(self).wf(),
            other.wf(),
        ensures
            final(self).wf(),
            final(self)@ == old(self)@.insert(name@, old(self).at_or_empty(name@) + other@),
    {
        let io = self.find(name);
        match io {
            Some(i) => {
                let mut e = self.entries.remove(i);
                e.1.union_with(other);
                self.entries.insert(i, e);
                proof {
                    let k = name@;
                    assert(self.entries@ =~= old(self).entries@.update(
                        i as int,
                        (old(self).entries@[i as int].0, e.1),
                    ));
                    assert(self.keys() =~= old(self).keys());
                    assert forall|q: Seq<char>| self.keys().contains(q) implies self@[q] == old(
                        self,
                    )@.insert(k, old(self).at_or_empty(k) + other@)[q] by {
                        let j = self.index_of(q);
                        assert(self.keys()[j] == q);
                        assert(old(self).keys()[j] == q);
                        old(self).lemma_entry(j);
                        self.lemma_entry(j);
                        if q == k {
                            assert(old(self).keys()[i as int] == k);
                            assert(j == i);
                        } else {
                            assert(j != i);
                            assert(self.entries@[j] == old(self).entries@[j]);
                        }
                    }
                    assert(self@ =~= old(self)@.insert(k, old(self).at_or_empty(k) + other@));
                }
            },
            None => {
                let mut s = PropSet::new();
                s.union_with(other);
                let key = crate::strutil::str_to_owned(name);
                let ghost k = name@;
                self.entries.push((key, s));
                proof {
                    assert(self.keys() =~= old(self).keys().push(k));
                    assert(Set::empty() + other@ =~= s@);
                    assert forall|q: Seq<char>| self.keys().contains(q) implies self@[q] == old(
                        self,
                    )@.insert(k, old(self).at_or_empty(k) + other@)[q] by {
                        let j = self.index_of(q);
                        assert(self.keys()[j] == q);
                        if j < old(self).entries@.len() {
                            assert(old(self).keys()[j] == q);
                            old(self).lemma_entry(j);
                            self.lemma_entry(j);
                        } else {
                            assert(q == k);
                            self.lemma_entry(self.entries@.len() - 1);
                        }
                    }
                    assert(self@ =~= old(self)@.insert(k, old(self).at_or_empty(k) + other@));
                }
            },
        }
    }

    /// Number of bindings.
    pub fn len(&self) -> (r: usize)
        requires
            self.wf(),
        ensures
            r == self@.dom().len(),
    {
        proof {
            self.lemma_dom();
            self.keys().unique_seq_to_set();
        }
        self.entries.len()
    }

    /// True when there are no bindings.
    pub fn is_empty(&self) -> (r: bool)
        requires
            self.wf(),
        ensures
            r == (self@.dom() =~= Set::<Seq<char>>::empty()),
    {
        proof {
            self.lemma_dom();
            if self.entries@.len() == 0 {
                assert(self@.dom() =~= Set::<Seq<char>>::empty());
            } else {
                assert(self.keys().contains(self.keys()[0]));
                assert(self@.dom().contains(self.keys()[0]));
            }
        }
        self.entries.len() == 0
    }

    /// Number of entries in the backing list.
    pub fn entry_count(&self) -> (r: usize)
        ensures
            r == self.keys().len(),
    {
        self.entries.len()
    }

    /// The key of the entry at position `i`.
    pub fn key_at(&self, i: usize) -> (r: &String)
        requires
            i < self.keys().len(),
        ensures
            r@ == self.keys()[i as int],
            self.wf() ==> self@.dom().contains(r@) && self@[r@] == self.entries@[i as int].1@,
    {
        proof {
            if self.wf() {
                self.lemma_entry(i as int);
            }
        }
        &self.entries[i].0
    }

    /// The set of the entry at position `i`.
    pub fn set_at(&self, i: usize) -> (r: &PropSet)
        requires
            i < self.keys().len(),
        ensures
            r == &self.entries@[i as int].1,
            self.wf() ==> r.wf() && self@[self.keys()[i as int]] == r@,
    {
        proof {
            if self.wf() {
                self.lemma_entry(i as int);
            }
        }
        &self.entries[i].1
    }
}

} // verus!
