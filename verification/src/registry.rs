//! The type registry: interning of class and property names to dense ids,
//! definition of class metadata and property records, and lookups.

use vstd::prelude::*;
use crate::meta::{ClassMeta, MetaModel};
use crate::strutil::{str_eq, str_to_owned};
use crate::types::{DuplicateDef, Property, Type, reserved_property};
use vstd::pervasive::VecAdditionalExecFns;

verus! {

broadcast use vstd::seq_lib::group_seq_properties, vstd::set::group_set_axioms;

/// What `get_type` resolves a name to: one of the three primitive names, a
/// known class, or nothing.
pub open spec fn spec_get_type(ids: Map<Seq<char>, u32>, name: Seq<char>) -> Option<Type> {
    if name == "int"@ {
        Some(Type::Int)
    } else if name == "float"@ {
        Some(Type::Float)
    } else if name == "string"@ {
        Some(Type::String)
    } else if ids.dom().contains(name) {
        Some(Type::Class(ids[name]))
    } else {
        None
    }
}

/// A store of classes and properties. Class and property ids are dense and
/// minted sequentially starting at 1; id 0 is reserved. Interning a name and
/// defining its metadata are separate steps.
pub trait TypeRegistery: Sized {
    /// Interned class names to their ids.
    spec fn class_ids(&self) -> Map<Seq<char>, u32>;

    /// Interned class ids to their names.
    spec fn class_names_of(&self) -> Map<u32, Seq<char>>;

    /// Defined class metadata by id.
    spec fn class_metas(&self) -> Map<u32, MetaModel>;

    /// Reserved property slots by id: the record, its name, and the class
    /// that declared it.
    spec fn props(&self) -> Map<u32, (Property, Seq<char>, u32)>;

    /// Internal consistency of the store.
    spec fn wf(&self) -> bool;

    /// Whether a further class id can be minted.
    spec fn can_intern_class(&self) -> bool;

    /// Whether a further property id can be minted.
    spec fn can_intern_property(&self) -> bool;

    /// The metadata of a defined class.
    fn get_class(&self, id: u32) -> (r: Option<&ClassMeta>)
        requires
            self.wf(),
        ensures
            match r {
                Some(m) => self.class_metas().dom().contains(id) && m@ == self.class_metas()[id]
                    && m.wf(),
                None => !self.class_metas().dom().contains(id),
            },
    {
        match self.get_class_and_name(id) {
            Some(p) => Some(p.0),
            None => None,
        }
    }

    /// Resolves a type name: the primitives `int`, `float` and `string`, or
    /// a known class name.
    fn get_type(&self, name: &str) -> (r: Option<Type>)
        requires
            self.wf(),
        ensures
            r == spec_get_type(self.class_ids(), name@),
    ;

    /// The record of a reserved or defined property.
    fn get_property(&self, id: u32) -> (r: Option<&Property>)
        requires
            self.wf(),
        ensures
            match r {
                Some(p) => self.props().dom().contains(id) && *p == self.props()[id].0,
                None => !self.props().dom().contains(id),
            },
    {
        match self.get_property_and_name(id) {
            Some(p) => Some(p.0),
            None => None,
        }
    }

    /// The id of an interned class name.
    fn get_class_id(&self, name: &str) -> (r: Option<u32>)
        requires
            self.wf(),
        ensures
            match r {
                Some(id) => self.class_ids().dom().contains(name@) && id == self.class_ids()[name@],
                None => !self.class_ids().dom().contains(name@),
            },
    ;

    /// The id of the property `name` declared by `class`.
    fn get_property_id(&self, name: &str, class: u32) -> (r: Option<u32>)
        requires
            self.wf(),
        ensures
            match r {
                Some(id) => self.props().dom().contains(id) && self.props()[id].1 == name@
                    && self.props()[id].2 == class,
                None => forall|id: u32|
                    self.props().dom().contains(id) ==> !((#[trigger] self.props()[id]).1 == name@
                        && self.props()[id].2 == class),
            },
    ;

    /// Interns a class name: returns the existing id, or mints the next one.
    fn add_class_id(&mut self, name: &str) -> (id: u32)
        requires
            old(self).wf(),
            old(self).can_intern_class(),
        ensures
            final(self).wf(),
            old(self).class_ids().dom().contains(name@) ==> {
                &&& id == old(self).class_ids()[name@]
                &&& final(self).class_ids() == old(self).class_ids()
                &&& final(self).class_names_of() == old(self).class_names_of()
                &&& final(self).class_metas() == old(self).class_metas()
                &&& final(self).props() == old(self).props()
            },
            !old(self).class_ids().dom().contains(name@) ==> {
                &&& id != 0
                &&& !old(self).class_names_of().dom().contains(id)
                &&& final(self).class_ids() == old(self).class_ids().insert(name@, id)
                &&& final(self).class_names_of() == old(self).class_names_of().insert(id, name@)
                &&& final(self).class_metas() == old(self).class_metas()
                &&& final(self).props() == old(self).props()
            },
    ;

    /// Reserves a fresh property id for `name` declared by `class`, filling
    /// the slot with the sentinel record. The pair must not already exist and
    /// the class must be interned.
    fn add_property_id(&mut self, name: &str, class: u32) -> (id: u32)
        requires
            old(self).wf(),
            old(self).can_intern_property(),
            old(self).class_names_of().dom().contains(class),
            forall|q: u32|
                old(self).props().dom().contains(q) ==> !((#[trigger] old(self).props()[q]).1
                    == name@ && old(self).props()[q].2 == class),
        ensures
            final(self).wf(),
            id != 0,
            !old(self).props().dom().contains(id),
            final(self).props() == old(self).props().insert(
                id,
                (reserved_property(id), name@, class),
            ),
            final(self).class_ids() == old(self).class_ids(),
            final(self).class_names_of() == old(self).class_names_of(),
            final(self).class_metas() == old(self).class_metas(),
    ;

    /// Defines the metadata of an interned class; fails with `DuplicateDef`
    /// when the id already has metadata.
    fn add_class(&mut self, id: u32, value: ClassMeta) -> (r: Result<(), DuplicateDef>)
        requires
            old(self).wf(),
            value.wf(),
            old(self).class_names_of().dom().contains(id),
        ensures
            final(self).wf(),
            match r {
                Ok(()) => {
                    &&& !old(self).class_metas().dom().contains(id)
                    &&& final(self).class_metas() == old(self).class_metas().insert(id, value@)
                },
                Err(_) => {
                    &&& old(self).class_metas().dom().contains(id)
                    &&& final(self).class_metas() == old(self).class_metas()
                },
            },
            final(self).class_ids() == old(self).class_ids(),
            final(self).class_names_of() == old(self).class_names_of(),
            final(self).props() == old(self).props(),
    ;

    /// Fills a reserved property slot; fails with `DuplicateDef` when the
    /// slot already holds a non-sentinel record.
    fn add_property(&mut self, id: u32, value: Property) -> (r: Result<(), DuplicateDef>)
        requires
            old(self).wf(),
            old(self).props().dom().contains(id),
        ensures
            final(self).wf(),
            match r {
                Ok(()) => {
                    &&& old(self).props()[id].0.inner_type == Type::Invalid
                    &&& final(self).props() == old(self).props().insert(
                        id,
                        (value, old(self).props()[id].1, old(self).props()[id].2),
                    )
                },
                Err(_) => {
                    &&& old(self).props()[id].0.inner_type != Type::Invalid
                    &&& final(self).props() == old(self).props()
                },
            },
            final(self).class_ids() == old(self).class_ids(),
            final(self).class_names_of() == old(self).class_names_of(),
            final(self).class_metas() == old(self).class_metas(),
    ;

    /// The metadata and the name of a defined class.
    fn get_class_and_name(&self, id: u32) -> (r: Option<(&ClassMeta, &str)>)
        requires
            self.wf(),
        ensures
            match r {
                Some(p) => {
                    &&& self.class_metas().dom().contains(id)
                    &&& p.0@ == self.class_metas()[id]
                    &&& p.0.wf()
                    &&& self.class_names_of().dom().contains(id)
                    &&& p.1@ == self.class_names_of()[id]
                },
                None => !self.class_metas().dom().contains(id),
            },
    ;

    /// The record and the name of a reserved or defined property.
    fn get_property_and_name(&self, id: u32) -> (r: Option<(&Property, &str)>)
        requires
            self.wf(),
        ensures
            match r {
                Some(p) => {
                    &&& self.props().dom().contains(id)
                    &&& *p.0 == self.props()[id].0
                    &&& p.1@ == self.props()[id].1
                },
                None => !self.props().dom().contains(id),
            },
    ;
}

/// A registry backed by in-memory vectors indexed by id.
#[derive(Debug)]
pub struct InMemoryRegistry {
    /// Interned class names; the class with id `i + 1` sits at index `i`.
    pub class_names: Vec<String>,
    /// Defined class metadata, parallel to `class_names`.
    pub classes: Vec<Option<ClassMeta>>,
    /// Reserved property slots; the property with id `i + 1` sits at index
    /// `i`, with its name and declaring class.
    pub properties: Vec<(Property, String, u32)>,
}

impl InMemoryRegistry {
    /// The interned class names in minting order.
    pub open spec fn cnames(&self) -> Seq<Seq<char>> {
        self.class_names@.map_values(|s: String| s@)
    }

    /// The index of class name `k`.
    pub open spec fn cname_index(&self, k: Seq<char>) -> int {
        choose|i: int| 0 <= i < self.cnames().len() && self.cnames()[i] == k
    }

    /// Relates the interned name at index `i` to the lookup maps.
    pub proof fn lemma_cname(&self, i: int)
        requires
            self.wf(),
            0 <= i < self.cnames().len(),
        ensures
            self.class_ids().dom().contains(self.cnames()[i]),
            self.class_ids()[self.cnames()[i]] == (i + 1) as u32,
    {
        let k = self.cnames()[i];
        let j = self.cname_index(k);
        assert(self.cnames()[j] == k);
        assert(j == i);
    }

    /// Creates a new empty registry.
    pub fn new() -> (r: InMemoryRegistry)
        ensures
            r.wf(),
            r.class_ids() == Map::<Seq<char>, u32>::empty(),
            r.class_names_of() == Map::<u32, Seq<char>>::empty(),
            r.class_metas() == Map::<u32, MetaModel>::empty(),
            r.props() == Map::<u32, (Property, Seq<char>, u32)>::empty(),
    {
        let r = InMemoryRegistry { class_names: Vec::new(), classes: Vec::new(), properties: Vec::new() };
        proof {
            assert(r.class_ids() =~= Map::<Seq<char>, u32>::empty());
            assert(r.class_names_of() =~= Map::<u32, Seq<char>>::empty());
            assert(r.class_metas() =~= Map::<u32, MetaModel>::empty());
            assert(r.props() =~= Map::<u32, (Property, Seq<char>, u32)>::empty());
        }
        r
    }
}

impl Default for InMemoryRegistry {
    /// Same as `InMemoryRegistry::new`.
    fn default() -> (r: Self)
        ensures
            r.wf(),
            r.class_ids() == Map::<Seq<char>, u32>::empty(),
            r.class_names_of() == Map::<u32, Seq<char>>::empty(),
            r.class_metas() == Map::<u32, MetaModel>::empty(),
            r.props() == Map::<u32, (Property, Seq<char>, u32)>::empty(),
    {
        InMemoryRegistry::new()
    }
}

impl TypeRegistery for InMemoryRegistry {
    open spec fn class_ids(&self) -> Map<Seq<char>, u32> {
        Map::new(
            |k: Seq<char>| self.cnames().contains(k),
            |k: Seq<char>| (self.cname_index(k) + 1) as u32,
        )
    }

    open spec fn class_names_of(&self) -> Map<u32, Seq<char>> {
        Map::new(
            |id: u32| 1 <= id <= self.class_names@.len(),
            |id: u32| self.cnames()[id - 1],
        )
    }

    open spec fn class_metas(&self) -> Map<u32, MetaModel> {
        Map::new(
            |id: u32| 1 <= id <= self.classes@.len() && self.classes@[id - 1] is Some,
            |id: u32| (self.classes@[id - 1]->Some_0)@,
        )
    }

    open spec fn props(&self) -> Map<u32, (Property, Seq<char>, u32)> {
        Map::new(
            |id: u32| 1 <= id <= self.properties@.len(),
            |id: u32| (self.properties@[id - 1].0, self.properties@[id - 1].1@, self.properties@[id - 1].2),
        )
    }

    open spec fn wf(&self) -> bool {
        &&& self.classes@.len() == self.class_names@.len()
        &&& self.class_names@.len() < u32::MAX
        &&& self.properties@.len() < u32::MAX
        &&& self.cnames().no_duplicates()
        &&& forall|i: int| 0 <= i < self.classes@.len() && self.classes@[i] is Some
            ==> (#[trigger] self.classes@[i]->Some_0).wf()
        &&& forall|i: int, j: int| 0 <= i < j < self.properties@.len()
            ==> !((#[trigger] self.properties@[i]).1@ == (#[trigger] self.properties@[j]).1@
                && self.properties@[i].2 == self.properties@[j].2)
    }

    open spec fn can_intern_class(&self) -> bool {
        self.class_names@.len() + 1 < u32::MAX
    }

    open spec fn can_intern_property(&self) -> bool {
        self.properties@.len() + 1 < u32::MAX
    }

    fn get_type(&self, name: &str) -> (r: Option<Type>) {
        if str_eq(name, "int") {
            Some(Type::Int)
        } else if str_eq(name, "float") {
            Some(Type::Float)
        } else if str_eq(name, "string") {
            Some(Type::String)
        } else {
            match self.get_class_id(name) {
                Some(id) => Some(Type::Class(id)),
                None => None,
            }
        }
    }

    fn get_class_id(&self, name: &str) -> (r: Option<u32>) {
        let n = self.class_names.len();
        let mut i: usize = 0;
        while i < n
            invariant
                self.wf(),
                n == self.class_names@.len(),
                i <= n,
                forall|j: int| 0 <= j < i ==> self.cnames()[j] != name@,
            decreases n - i,
        {
            if str_eq(name, self.class_names[i].as_str()) {
                proof {
                    self.lemma_cname(i as int);
                }
                let r = (i as u32) + 1;
                return Some(r);
            }
            i = i + 1;
        }
        proof {
            assert(!self.cnames().contains(name@));
        }
        None
    }

    fn get_property_id(&self, name: &str, class: u32) -> (r: Option<u32>) {
        let n = self.properties.len();
        let mut i: usize = 0;
        while i < n
            invariant
                self.wf(),
                n == self.properties@.len(),
                i <= n,
                forall|j: int| 0 <= j < i ==> !((#[trigger] self.properties@[j]).1@ == name@
                    && self.properties@[j].2 == class),
            decreases n - i,
        {
            if self.properties[i].2 == class && str_eq(name, self.properties[i].1.as_str()) {
                let r = (i as u32) + 1;
                proof {
                    assert(self.props().dom().contains(r));
                    assert(self.props()[r].1 == name@);
                }
                return Some(r);
            }
            i = i + 1;
        }
        proof {
            assert forall|id: u32| self.props().dom().contains(id) implies !((
            #[trigger] self.props()[id]).1 == name@ && self.props()[id].2 == class) by {
                assert(self.properties@[id - 1] == self.properties@[id as int - 1]);
            }
        }
        None
    }

    fn add_class_id(&mut self, name: &str) -> (id: u32) {
        match self.get_class_id(name) {
            Some(id) => id,
            None => {
                let id = (self.class_names.len() as u32) + 1;
                self.class_names.push(str_to_owned(name));
                self.classes.push(None);
                proof {
                    let k = name@;
                    assert(self.cnames() =~= old(self).cnames().push(k));
                    assert forall|q: Seq<char>| self.cnames().contains(q) implies self.class_ids()[q]
                        == old(self).class_ids().insert(k, id)[q] by {
                        let j = self.cname_index(q);
                        assert(self.cnames()[j] == q);
                        if j < old(self).cnames().len() {
                            assert(old(self).cnames()[j] == q);
                            old(self).lemma_cname(j);
                            self.lemma_cname(j);
                        } else {
                            assert(q == k);
                            self.lemma_cname(self.cnames().len() - 1);
                        }
                    }
                    assert(self.class_ids() =~= old(self).class_ids().insert(k, id));
                    assert forall|q: u32| 1 <= q <= self.class_names@.len() implies self.class_names_of()[q]
                        == old(self).class_names_of().insert(id, k)[q] by {}
                    assert(self.class_names_of() =~= old(self).class_names_of().insert(id, k));
                    assert(self.class_metas() =~= old(self).class_metas());
                    assert(self.props() =~= old(self).props());
                }
                id
            },
        }
    }

    fn add_property_id(&mut self, name: &str, class: u32) -> (id: u32) {
        let id = (self.properties.len() as u32) + 1;
        let sentinel = Property { id: id, inner_type: Type::Invalid, source: 0 };
        self.properties.push((sentinel, str_to_owned(name), class));
        proof {
            assert forall|a: int, b: int| 0 <= a < b < self.properties@.len() implies !((
            #[trigger] self.properties@[a]).1@ == (#[trigger] self.properties@[b]).1@
                && self.properties@[a].2 == self.properties@[b].2) by {
                if b == self.properties@.len() - 1 {
                    let q = (a + 1) as u32;
                    assert(old(self).props().dom().contains(q));
                    assert(old(self).props()[q].1 == old(self).properties@[a].1@);
                }
            }
            assert(self.props() =~= old(self).props().insert(
                id,
                (reserved_property(id), name@, class),
            ));
            assert(self.class_ids() =~= old(self).class_ids());
            assert(self.class_names_of() =~= old(self).class_names_of());
            assert(self.class_metas() =~= old(self).class_metas());
        }
        id
    }

    fn add_class(&mut self, id: u32, value: ClassMeta) -> (r: Result<(), DuplicateDef>) {
        let i = (id as usize) - 1;
        if self.classes[i].is_some() {
            proof {
                assert(self.class_metas().dom().contains(id));
            }
            Err(DuplicateDef)
        } else {
            self.classes.set(i, Some(value));
            proof {
                assert(self.class_metas() =~= old(self).class_metas().insert(id, value@));
                assert(self.class_ids() =~= old(self).class_ids());
                assert(self.class_names_of() =~= old(self).class_names_of());
                assert(self.props() =~= old(self).props());
            }
            Ok(())
        }
    }

    fn add_property(&mut self, id: u32, value: Property) -> (r: Result<(), DuplicateDef>) {
        let i = (id as usize) - 1;
        let cur = self.properties[i].0;
        if cur.inner_type.is_valid() {
            Err(DuplicateDef)
        } else {
            let e = self.properties.remove(i);
            self.properties.insert(i, (value, e.1, e.2));
            proof {
                assert(self.properties@ =~= old(self).properties@.update(
                    i as int,
                    (value, old(self).properties@[i as int].1, old(self).properties@[i as int].2),
                ));
                assert(self.props() =~= old(self).props().insert(
                    id,
                    (value, old(self).props()[id].1, old(self).props()[id].2),
                ));
                assert(self.class_ids() =~= old(self).class_ids());
                assert(self.class_names_of() =~= old(self).class_names_of());
                assert(self.class_metas() =~= old(self).class_metas());
            }
            Ok(())
        }
    }

    fn get_class_and_name(&self, id: u32) -> (r: Option<(&ClassMeta, &str)>) {
        if id >= 1 && (id as usize) <= self.classes.len() {
            let i = (id as usize) - 1;
            match &self.classes[i] {
                Some(m) => {
                    proof {
                        assert(self.classes@[i as int] is Some);
                        assert((self.classes@[i as int]->Some_0).wf());
                        assert(self.class_metas().dom().contains(id));
                        assert(self.class_names_of().dom().contains(id));
                        assert(self.cnames()[i as int] == self.class_names@[i as int]@);
                        assert(self.class_names_of()[id] == self.class_names@[i as int]@);
                    }
                    Some((m, self.class_names[i].as_str()))
                },
                None => None,
            }
        } else {
            None
        }
    }

    fn get_property_and_name(&self, id: u32) -> (r: Option<(&Property, &str)>) {
        if id >= 1 && (id as usize) <= self.properties.len() {
            let i = (id as usize) - 1;
            Some((&self.properties[i].0, self.properties[i].1.as_str()))
        } else {
            None
        }
    }
}

} // verus!
