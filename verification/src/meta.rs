//! Per-class metadata and the property-resolution merge: when a class is
//! created over a set of parents, every visible property name is partitioned
//! into accessible, clashing and shadowed entries.

use vstd::prelude::*;
use crate::containers::{IdSet, PropMap, PropSet, PropSetMap};
use crate::registry::TypeRegistery;
use crate::types::Property;

verus! {

broadcast use vstd::seq_lib::group_seq_properties, vstd::set::group_set_axioms;

/// The mathematical value of a `ClassMeta`.
#[verifier::ext_equal]
pub ghost struct MetaModel {
    pub parents: Set<u32>,
    pub ancestors: Set<u32>,
    pub accessible: Map<Seq<char>, Property>,
    pub clashing: Map<Seq<char>, Set<Property>>,
    pub shadowed: Map<Seq<char>, Set<Property>>,
}

/// The set bound to `k`, or the empty set when `k` is absent.
pub open spec fn set_at(m: Map<Seq<char>, Set<Property>>, k: Seq<char>) -> Set<Property> {
    if m.dom().contains(k) {
        m[k]
    } else {
        Set::empty()
    }
}

/// Whether the class being built already resolves `k` to its own declaration.
pub open spec fn overridden(m: MetaModel, id: u32, k: Seq<char>) -> bool {
    m.accessible.dom().contains(k) && m.accessible[k].source == id
}

/// Shadowed carry-over: a parent's shadowed sets are unioned in name-wise.
/// Once a definition is hidden it stays hidden.
pub open spec fn carry_shadowed(m: MetaModel, psh: Map<Seq<char>, Set<Property>>) -> MetaModel {
    MetaModel {
        shadowed: Map::new(
            |k: Seq<char>| m.shadowed.dom().contains(k) || psh.dom().contains(k),
            |k: Seq<char>|
                if psh.dom().contains(k) {
                    set_at(m.shadowed, k) + psh[k]
                } else {
                    m.shadowed[k]
                },
        ),
        ..m
    }
}

/// Clashing merge: a parent's clash set for `k` is shadowed when the class
/// overrides `k`, displaces an inherited accessible entry into the clash set
/// otherwise, and is unioned into the clash set when `k` is not accessible.
pub open spec fn merge_clashing(m: MetaModel, id: u32, pc: Map<Seq<char>, Set<Property>>) -> MetaModel {
    MetaModel {
        accessible: Map::new(
            |k: Seq<char>| m.accessible.dom().contains(k) && !(pc.dom().contains(k)
                && m.accessible[k].source != id),
            |k: Seq<char>| m.accessible[k],
        ),
        clashing: Map::new(
            |k: Seq<char>| (pc.dom().contains(k) && !overridden(m, id, k))
                || m.clashing.dom().contains(k),
            |k: Seq<char>|
                if pc.dom().contains(k) && !overridden(m, id, k) {
                    if m.accessible.dom().contains(k) {
                        (set_at(m.clashing, k) + pc[k]).insert(m.accessible[k])
                    } else {
                        set_at(m.clashing, k) + pc[k]
                    }
                } else {
                    m.clashing[k]
                },
        ),
        shadowed: Map::new(
            |k: Seq<char>| m.shadowed.dom().contains(k) || (pc.dom().contains(k)
                && overridden(m, id, k)),
            |k: Seq<char>|
                if pc.dom().contains(k) && overridden(m, id, k) {
                    set_at(m.shadowed, k) + pc[k]
                } else {
                    m.shadowed[k]
                },
        ),
        ..m
    }
}

/// Whether a parent's accessible entry for `k` collides with an inherited
/// accessible entry of a different origin.
pub open spec fn acc_bump(m: MetaModel, id: u32, pa: Map<Seq<char>, Property>, k: Seq<char>) -> bool {
    m.accessible.dom().contains(k) && m.accessible[k].source != id && pa[k].source
        != m.accessible[k].source
}

/// Accessible merge: a parent's accessible entry for `k` is shadowed when the
/// class overrides `k`, unifies silently when it has the same origin as the
/// inherited entry (diamond), clashes with an inherited entry of a different
/// origin, and is adopted when `k` is new.
pub open spec fn merge_accessible(m: MetaModel, id: u32, pa: Map<Seq<char>, Property>) -> MetaModel {
    MetaModel {
        accessible: Map::new(
            |k: Seq<char>|
                if m.accessible.dom().contains(k) {
                    !(pa.dom().contains(k) && acc_bump(m, id, pa, k))
                } else {
                    pa.dom().contains(k)
                },
            |k: Seq<char>|
                if m.accessible.dom().contains(k) {
                    m.accessible[k]
                } else {
                    pa[k]
                },
        ),
        clashing: Map::new(
            |k: Seq<char>| m.clashing.dom().contains(k) || (pa.dom().contains(k) && acc_bump(
                m,
                id,
                pa,
                k,
            )),
            |k: Seq<char>|
                if pa.dom().contains(k) && acc_bump(m, id, pa, k) {
                    set_at(m.clashing, k).insert(pa[k]).insert(m.accessible[k])
                } else {
                    m.clashing[k]
                },
        ),
        shadowed: Map::new(
            |k: Seq<char>| m.shadowed.dom().contains(k) || (pa.dom().contains(k)
                && overridden(m, id, k)),
            |k: Seq<char>|
                if pa.dom().contains(k) && overridden(m, id, k) {
                    set_at(m.shadowed, k).insert(pa[k])
                } else {
                    m.shadowed[k]
                },
        ),
        ..m
    }
}

/// One parent's contribution to the class under construction.
pub open spec fn merge_parent(m: MetaModel, id: u32, p: MetaModel) -> MetaModel {
    let m1 = MetaModel { ancestors: m.ancestors + p.ancestors, ..m };
    merge_accessible(merge_clashing(carry_shadowed(m1, p.shadowed), id, p.clashing), id, p.accessible)
}

/// The state a new class starts from: its own declarations are accessible and
/// its ancestors are its parents.
pub open spec fn seed_meta(parents: Set<u32>, own: Map<Seq<char>, Property>) -> MetaModel {
    MetaModel {
        parents: parents,
        ancestors: parents,
        accessible: own,
        clashing: Map::empty(),
        shadowed: Map::empty(),
    }
}

/// Folds the parents' contributions, in order, into `m`.
pub open spec fn resolve_loop(
    classes: Map<u32, MetaModel>,
    id: u32,
    ps: Seq<u32>,
    m: MetaModel,
) -> MetaModel
    decreases ps.len(),
{
    if ps.len() == 0 {
        m
    } else {
        resolve_loop(classes, id, ps.drop_first(), merge_parent(m, id, classes[ps[0]]))
    }
}

/// The effective property table of class `id` declaring `own`, with parents
/// `ps` (in iteration order) looked up in `classes`.
pub open spec fn resolve(
    classes: Map<u32, MetaModel>,
    id: u32,
    ps: Seq<u32>,
    own: Map<Seq<char>, Property>,
) -> MetaModel {
    resolve_loop(classes, id, ps, seed_meta(ps.to_set(), own))
}

/// Per-class record: immediate parents, transitive ancestors, and the three
/// name partitions of every visible property.
#[derive(Debug, PartialEq)]
pub struct ClassMeta {
    pub parents: IdSet,
    /// All classes this one can be viewed as, not including itself.
    pub ancestors: IdSet,
    /// Properties that `obj.name` resolves to.
    pub accessible_properties: PropMap,
    /// Names with more than one surviving interpretation.
    pub clashing_properties: PropSetMap,
    /// Definitions hidden behind a closer definition of the same name.
    pub shadowed_properties: PropSetMap,
}

impl View for ClassMeta {
    type V = MetaModel;

    open spec fn view(&self) -> MetaModel {
        MetaModel {
            parents: self.parents@,
            ancestors: self.ancestors@,
            accessible: self.accessible_properties@,
            clashing: self.clashing_properties@,
            shadowed: self.shadowed_properties@,
        }
    }
}

impl ClassMeta {
    /// Every component is well formed.
    pub open spec fn wf(&self) -> bool {
        &&& self.parents.wf()
        &&& self.ancestors.wf()
        &&& self.accessible_properties.wf()
        &&& self.clashing_properties.wf()
        &&& self.shadowed_properties.wf()
    }
}

} // verus!

verus! {

/// `m` with its shadowed map replaced.
pub open spec fn with_shadowed(m: MetaModel, sh: Map<Seq<char>, Set<Property>>) -> MetaModel {
    MetaModel { shadowed: sh, ..m }
}

/// `m` with its clashing map replaced.
pub open spec fn with_clashing(m: MetaModel, cl: Map<Seq<char>, Set<Property>>) -> MetaModel {
    MetaModel { clashing: cl, ..m }
}

/// `m` with its accessible and clashing maps replaced.
pub open spec fn with_acc_clashing(
    m: MetaModel,
    acc: Map<Seq<char>, Property>,
    cl: Map<Seq<char>, Set<Property>>,
) -> MetaModel {
    MetaModel { accessible: acc, clashing: cl, ..m }
}

/// `m` with its accessible map replaced.
pub open spec fn with_accessible(m: MetaModel, acc: Map<Seq<char>, Property>) -> MetaModel {
    MetaModel { accessible: acc, ..m }
}

/// The shadowed carry-over commutes with restricting the parent map one key
/// at a time.
proof fn lemma_carry_step(
    m: MetaModel,
    psh: Map<Seq<char>, Set<Property>>,
    ks: Set<Seq<char>>,
    k: Seq<char>,
)
    requires
        psh.dom().contains(k),
        !ks.contains(k),
    ensures
        carry_shadowed(m, psh.restrict(ks.insert(k))) == ({
            let c = carry_shadowed(m, psh.restrict(ks));
            with_shadowed(c, c.shadowed.insert(k, set_at(c.shadowed, k) + psh[k]))
        }),
{
    let c = carry_shadowed(m, psh.restrict(ks));
    let lhs = carry_shadowed(m, psh.restrict(ks.insert(k)));
    let rhs = with_shadowed(c, c.shadowed.insert(k, set_at(c.shadowed, k) + psh[k]));
    assert forall|q: Seq<char>| #![auto] lhs.shadowed.dom().contains(q)
        == rhs.shadowed.dom().contains(q) && (lhs.shadowed.dom().contains(q)
        ==> lhs.shadowed[q] == rhs.shadowed[q]) by {
        if q == k && lhs.shadowed.dom().contains(q) {
            assert(set_at(c.shadowed, k) == set_at(m.shadowed, k));
            assert(lhs.shadowed[q] =~= rhs.shadowed[q]);
        }
    }
    assert(lhs.shadowed =~= rhs.shadowed);
    assert(lhs =~= rhs);
}

/// The clashing merge commutes with restricting the parent map one key at a
/// time; the update depends on how the class resolves `k` so far.
proof fn lemma_clash_step(
    m: MetaModel,
    id: u32,
    pc: Map<Seq<char>, Set<Property>>,
    ks: Set<Seq<char>>,
    k: Seq<char>,
)
    requires
        pc.dom().contains(k),
        !ks.contains(k),
    ensures
        merge_clashing(m, id, pc.restrict(ks.insert(k))) == ({
            let c = merge_clashing(m, id, pc.restrict(ks));
            if overridden(m, id, k) {
                with_shadowed(c, c.shadowed.insert(k, set_at(c.shadowed, k) + pc[k]))
            } else if m.accessible.dom().contains(k) {
                with_acc_clashing(
                    c,
                    c.accessible.remove(k),
                    c.clashing.insert(k, (set_at(c.clashing, k) + pc[k]).insert(m.accessible[k])),
                )
            } else {
                with_clashing(c, c.clashing.insert(k, set_at(c.clashing, k) + pc[k]))
            }
        }),
{
    let c = merge_clashing(m, id, pc.restrict(ks));
    let lhs = merge_clashing(m, id, pc.restrict(ks.insert(k)));
    let rhs = if overridden(m, id, k) {
        with_shadowed(c, c.shadowed.insert(k, set_at(c.shadowed, k) + pc[k]))
    } else if m.accessible.dom().contains(k) {
        with_acc_clashing(
            c,
            c.accessible.remove(k),
            c.clashing.insert(k, (set_at(c.clashing, k) + pc[k]).insert(m.accessible[k])),
        )
    } else {
        with_clashing(c, c.clashing.insert(k, set_at(c.clashing, k) + pc[k]))
    };
    assert(set_at(c.clashing, k) == set_at(m.clashing, k));
    assert(set_at(c.shadowed, k) == set_at(m.shadowed, k));
    assert forall|q: Seq<char>| #![auto] lhs.accessible.dom().contains(q)
        == rhs.accessible.dom().contains(q) && (lhs.accessible.dom().contains(q)
        ==> lhs.accessible[q] == rhs.accessible[q]) by {}
    assert(lhs.accessible =~= rhs.accessible);
    assert forall|q: Seq<char>| #![auto] lhs.clashing.dom().contains(q)
        == rhs.clashing.dom().contains(q) && (lhs.clashing.dom().contains(q)
        ==> lhs.clashing[q] == rhs.clashing[q]) by {
        if q == k && !overridden(m, id, k) && lhs.clashing.dom().contains(q) {
            assert(lhs.clashing[q] =~= rhs.clashing[q]);
        }
    }
    assert(lhs.clashing =~= rhs.clashing);
    assert forall|q: Seq<char>| #![auto] lhs.shadowed.dom().contains(q)
        == rhs.shadowed.dom().contains(q) && (lhs.shadowed.dom().contains(q)
        ==> lhs.shadowed[q] == rhs.shadowed[q]) by {
        if q == k && overridden(m, id, k) && lhs.shadowed.dom().contains(q) {
            assert(lhs.shadowed[q] =~= rhs.shadowed[q]);
        }
    }
    assert(lhs.shadowed =~= rhs.shadowed);
    assert(lhs =~= rhs);
}

/// The accessible merge commutes with restricting the parent map one key at
/// a time; the update depends on how the class resolves `k` so far.
proof fn lemma_acc_step(
    m: MetaModel,
    id: u32,
    pa: Map<Seq<char>, Property>,
    ks: Set<Seq<char>>,
    k: Seq<char>,
)
    requires
        pa.dom().contains(k),
        !ks.contains(k),
    ensures
        merge_accessible(m, id, pa.restrict(ks.insert(k))) == ({
            let c = merge_accessible(m, id, pa.restrict(ks));
            if overridden(m, id, k) {
                with_shadowed(c, c.shadowed.insert(k, set_at(c.shadowed, k).insert(pa[k])))
            } else if m.accessible.dom().contains(k) {
                if pa[k].source == m.accessible[k].source {
                    c
                } else {
                    with_acc_clashing(
                        c,
                        c.accessible.remove(k),
                        c.clashing.insert(
                            k,
                            set_at(c.clashing, k).insert(pa[k]).insert(m.accessible[k]),
                        ),
                    )
                }
            } else {
                with_accessible(c, c.accessible.insert(k, pa[k]))
            }
        }),
{
    let c = merge_accessible(m, id, pa.restrict(ks));
    let lhs = merge_accessible(m, id, pa.restrict(ks.insert(k)));
    let rhs = if overridden(m, id, k) {
        with_shadowed(c, c.shadowed.insert(k, set_at(c.shadowed, k).insert(pa[k])))
    } else if m.accessible.dom().contains(k) {
        if pa[k].source == m.accessible[k].source {
            c
        } else {
            with_acc_clashing(
                c,
                c.accessible.remove(k),
                c.clashing.insert(k, set_at(c.clashing, k).insert(pa[k]).insert(m.accessible[k])),
            )
        }
    } else {
        with_accessible(c, c.accessible.insert(k, pa[k]))
    };
    assert(set_at(c.clashing, k) == set_at(m.clashing, k));
    assert(set_at(c.shadowed, k) == set_at(m.shadowed, k));
    assert forall|q: Seq<char>| #![auto] lhs.accessible.dom().contains(q)
        == rhs.accessible.dom().contains(q) && (lhs.accessible.dom().contains(q)
        ==> lhs.accessible[q] == rhs.accessible[q]) by {}
    assert(lhs.accessible =~= rhs.accessible);
    assert forall|q: Seq<char>| #![auto] lhs.clashing.dom().contains(q)
        == rhs.clashing.dom().contains(q) && (lhs.clashing.dom().contains(q)
        ==> lhs.clashing[q] == rhs.clashing[q]) by {
        if q == k && lhs.clashing.dom().contains(q) {
            assert(lhs.clashing[q] =~= rhs.clashing[q]);
        }
    }
    assert(lhs.clashing =~= rhs.clashing);
    assert forall|q: Seq<char>| #![auto] lhs.shadowed.dom().contains(q)
        == rhs.shadowed.dom().contains(q) && (lhs.shadowed.dom().contains(q)
        ==> lhs.shadowed[q] == rhs.shadowed[q]) by {
        if q == k && overridden(m, id, k) && lhs.shadowed.dom().contains(q) {
            assert(lhs.shadowed[q] =~= rhs.shadowed[q]);
        }
    }
    assert(lhs.shadowed =~= rhs.shadowed);
    assert(lhs =~= rhs);
}

/// Restricting a phase input to no keys leaves the state unchanged, and
/// restricting it to its whole domain is the phase itself.
proof fn lemma_phase_bounds(m: MetaModel, id: u32, pm: Map<Seq<char>, Set<Property>>, pa: Map<Seq<char>, Property>)
    ensures
        carry_shadowed(m, pm.restrict(Set::empty())) == m,
        merge_clashing(m, id, pm.restrict(Set::empty())) == m,
        merge_accessible(m, id, pa.restrict(Set::empty())) == m,
        carry_shadowed(m, pm.restrict(pm.dom())) == carry_shadowed(m, pm),
        merge_clashing(m, id, pm.restrict(pm.dom())) == merge_clashing(m, id, pm),
        merge_accessible(m, id, pa.restrict(pa.dom())) == merge_accessible(m, id, pa),
{
    assert(carry_shadowed(m, pm.restrict(Set::empty())).shadowed =~= m.shadowed);
    assert(carry_shadowed(m, pm.restrict(Set::empty())) =~= m);
    assert(merge_clashing(m, id, pm.restrict(Set::empty())).accessible =~= m.accessible);
    assert(merge_clashing(m, id, pm.restrict(Set::empty())).clashing =~= m.clashing);
    assert(merge_clashing(m, id, pm.restrict(Set::empty())).shadowed =~= m.shadowed);
    assert(merge_clashing(m, id, pm.restrict(Set::empty())) =~= m);
    assert(merge_accessible(m, id, pa.restrict(Set::empty())).accessible =~= m.accessible);
    assert(merge_accessible(m, id, pa.restrict(Set::empty())).clashing =~= m.clashing);
    assert(merge_accessible(m, id, pa.restrict(Set::empty())).shadowed =~= m.shadowed);
    assert(merge_accessible(m, id, pa.restrict(Set::empty())) =~= m);
    assert(pm.restrict(pm.dom()) =~= pm);
    assert(pa.restrict(pa.dom()) =~= pa);
}

impl ClassMeta {
    /// Carries a parent's shadowed sets over: once hidden, always hidden.
    fn carry_shadowed_from(&mut self, psh: &PropSetMap)
        requires
            old(self).wf(),
            psh.wf(),
        ensures
            final(self).wf(),
            final(self)@ == carry_shadowed(old(self)@, psh@),
            final(self).parents == old(self).parents,
    {
        let n = psh.entry_count();
        let mut j: usize = 0;
        proof {
            lemma_phase_bounds(old(self)@, 0, psh@, Map::empty());
            assert(psh.keys().take(0).to_set() =~= Set::<Seq<char>>::empty());
        }
        while j < n
            invariant
                psh.wf(),
                n == psh.keys().len(),
                j <= n,
                self.wf(),
                self.parents == old(self).parents,
                self@ == carry_shadowed(old(self)@, psh@.restrict(psh.keys().take(j as int).to_set())),
            decreases n - j,
        {
            let ghost pre = self@;
            let ghost ks = psh.keys().take(j as int).to_set();
            let ghost k = psh.keys()[j as int];
            proof {
                lemma_take_set_step(psh.keys(), j as int);
                psh.lemma_dom();
                lemma_carry_step(old(self)@, psh@, ks, k);
            }
            let key = psh.key_at(j);
            let set = psh.set_at(j);
            self.shadowed_properties.union_at(key.as_str(), set);
            proof {
                assert(self@.shadowed =~= pre.shadowed.insert(k, set_at(pre.shadowed, k) + psh@[k]));
                assert(self@ =~= with_shadowed(pre, pre.shadowed.insert(k, set_at(pre.shadowed, k)
                    + psh@[k])));
            }
            j = j + 1;
        }
        proof {
            psh.lemma_dom();
            assert(psh.keys().take(n as int) =~= psh.keys());
            assert(psh.keys().to_set() == psh@.dom());
            lemma_phase_bounds(old(self)@, 0, psh@, Map::empty());
        }
    }
}

} // verus!

verus! {

/// Extending a key prefix by one position extends its key set by that key;
/// under unique keys the new key is fresh.
proof fn lemma_take_set_step(keys: Seq<Seq<char>>, j: int)
    requires
        0 <= j < keys.len(),
    ensures
        keys.take(j + 1).to_set() == keys.take(j).to_set().insert(keys[j]),
        keys.no_duplicates() ==> !keys.take(j).to_set().contains(keys[j]),
{
    assert forall|q: Seq<char>| keys.take(j + 1).to_set().contains(q) implies keys.take(
        j,
    ).to_set().insert(keys[j]).contains(q) by {
        let t = choose|t: int| 0 <= t < j + 1 && #[trigger] keys.take(j + 1)[t] == q;
        if t < j {
            assert(keys.take(j)[t] == q);
        }
    }
    assert forall|q: Seq<char>| keys.take(j).to_set().insert(keys[j]).contains(q) implies keys.take(
        j + 1,
    ).to_set().contains(q) by {
        if q == keys[j] {
            assert(keys.take(j + 1)[j] == q);
        } else {
            let t = choose|t: int| 0 <= t < j && #[trigger] keys.take(j)[t] == q;
            assert(keys.take(j + 1)[t] == q);
        }
    }
    assert(keys.take(j + 1).to_set() =~= keys.take(j).to_set().insert(keys[j]));
    if keys.no_duplicates() && keys.take(j).to_set().contains(keys[j]) {
        let t = choose|t: int| 0 <= t < j && #[trigger] keys.take(j)[t] == keys[j];
        assert(keys[t] == keys[j]);
    }
}

impl ClassMeta {
    /// Merges a parent's clashing entries: shadowed when this class overrides
    /// the name, displacing an inherited accessible entry otherwise, plain
    /// union when the name is not accessible.
    fn merge_clashing_from(&mut self, id: u32, pc: &PropSetMap)
        requires
            old(self).wf(),
            pc.wf(),
        ensures
            final(self).wf(),
            final(self)@ == merge_clashing(old(self)@, id, pc@),
            final(self).parents == old(self).parents,
    {
        let n = pc.entry_count();
        let mut j: usize = 0;
        proof {
            lemma_phase_bounds(old(self)@, id, pc@, Map::empty());
            assert(pc.keys().take(0).to_set() =~= Set::<Seq<char>>::empty());
        }
        while j < n
            invariant
                pc.wf(),
                n == pc.keys().len(),
                j <= n,
                self.wf(),
                self.parents == old(self).parents,
                self@ == merge_clashing(old(self)@, id, pc@.restrict(pc.keys().take(j as int).to_set())),
            decreases n - j,
        {
            let ghost m = old(self)@;
            let ghost pre = self@;
            let ghost ks = pc.keys().take(j as int).to_set();
            let ghost k = pc.keys()[j as int];
            proof {
                lemma_take_set_step(pc.keys(), j as int);
                pc.lemma_dom();
                lemma_clash_step(m, id, pc@, ks, k);
                assert(pre.accessible.dom().contains(k) == m.accessible.dom().contains(k));
                if m.accessible.dom().contains(k) {
                    assert(pre.accessible[k] == m.accessible[k]);
                }
            }
            let key = pc.key_at(j);
            let set = pc.set_at(j);
            match self.accessible_properties.get(key.as_str()) {
                Some(a) => {
                    if a.source == id {
                        self.shadowed_properties.union_at(key.as_str(), set);
                        proof {
                            assert(self@.shadowed =~= pre.shadowed.insert(k, set_at(pre.shadowed, k)
                                + pc@[k]));
                        }
                    } else {
                        let other = self.accessible_properties.remove(key.as_str());
                        self.clashing_properties.union_at(key.as_str(), set);
                        self.clashing_properties.add_prop(key.as_str(), other);
                        proof {
                            assert(self@.clashing =~= pre.clashing.insert(k, (set_at(pre.clashing, k)
                                + pc@[k]).insert(m.accessible[k])));
                        }
                    }
                },
                None => {
                    self.clashing_properties.union_at(key.as_str(), set);
                    proof {
                        assert(self@.clashing =~= pre.clashing.insert(k, set_at(pre.clashing, k)
                            + pc@[k]));
                    }
                },
            }
            proof {
                assert(self@ =~= merge_clashing(m, id, pc@.restrict(ks.insert(k))));
            }
            j = j + 1;
        }
        proof {
            pc.lemma_dom();
            assert(pc.keys().take(n as int) =~= pc.keys());
            lemma_phase_bounds(old(self)@, id, pc@, Map::empty());
        }
    }

    /// Merges a parent's accessible entries: shadowed when this class
    /// overrides the name, unified when the origin matches (diamond), a clash
    /// when the origins differ, adopted when the name is new.
    fn merge_accessible_from(&mut self, id: u32, pa: &PropMap)
        requires
            old(self).wf(),
            pa.wf(),
        ensures
            final(self).wf(),
            final(self)@ == merge_accessible(old(self)@, id, pa@),
            final(self).parents == old(self).parents,
    {
        let n = pa.entry_count();
        let mut j: usize = 0;
        proof {
            lemma_phase_bounds(old(self)@, id, Map::empty(), pa@);
            assert(pa.keys().take(0).to_set() =~= Set::<Seq<char>>::empty());
        }
        while j < n
            invariant
                pa.wf(),
                n == pa.keys().len(),
                j <= n,
                self.wf(),
                self.parents == old(self).parents,
                self@ == merge_accessible(old(self)@, id, pa@.restrict(pa.keys().take(j as int).to_set())),
            decreases n - j,
        {
            let ghost m = old(self)@;
            let ghost pre = self@;
            let ghost ks = pa.keys().take(j as int).to_set();
            let ghost k = pa.keys()[j as int];
            proof {
                lemma_take_set_step(pa.keys(), j as int);
                pa.lemma_dom();
                lemma_acc_step(m, id, pa@, ks, k);
                assert(pre.accessible.dom().contains(k) == m.accessible.dom().contains(k));
                if m.accessible.dom().contains(k) {
                    assert(pre.accessible[k] == m.accessible[k]);
                }
            }
            let key = pa.key_at(j);
            let v = pa.val_at(j);
            match self.accessible_properties.get(key.as_str()) {
                Some(a) => {
                    if a.source == id {
                        self.shadowed_properties.add_prop(key.as_str(), v);
                        proof {
                            assert(self@.shadowed =~= pre.shadowed.insert(k, set_at(pre.shadowed, k)
                                .insert(pa@[k])));
                        }
                    } else if v.source == a.source {
                        // The same originating definition reached through two
                        // paths: nothing changes.
                    } else {
                        let other = self.accessible_properties.remove(key.as_str());
                        self.clashing_properties.add_prop(key.as_str(), v);
                        self.clashing_properties.add_prop(key.as_str(), other);
                        proof {
                            assert(self@.clashing =~= pre.clashing.insert(k, set_at(pre.clashing, k)
                                .insert(pa@[k]).insert(m.accessible[k])));
                        }
                    }
                },
                None => {
                    let owned = crate::strutil::str_to_owned(key.as_str());
                    self.accessible_properties.insert(owned, v);
                },
            }
            proof {
                assert(self@ =~= merge_accessible(m, id, pa@.restrict(ks.insert(k))));
            }
            j = j + 1;
        }
        proof {
            pa.lemma_dom();
            assert(pa.keys().take(n as int) =~= pa.keys());
            lemma_phase_bounds(old(self)@, id, Map::empty(), pa@);
        }
    }
}

} // verus!

verus! {

impl ClassMeta {
    /// Builds the metadata of class `id` with immediate parents `parents`
    /// and own declarations `new_props`, merging each parent's view in turn:
    /// ancestors accumulate transitively, shadowed entries carry over,
    /// inherited clashes either stay, grow, or fall behind an overriding own
    /// declaration, and inherited accessible entries unify, clash or shadow
    /// as their origins dictate.
    pub fn new<R: TypeRegistery>(reg: &R, id: u32, parents: IdSet, new_props: PropMap) -> (r:
        ClassMeta)
        requires
            reg.wf(),
            parents.wf(),
            new_props.wf(),
            forall|j: int| 0 <= j < parents.seq().len() ==> reg.class_metas().dom().contains(
                #[trigger] parents.seq()[j],
            ),
        ensures
            r.wf(),
            r@ == resolve(reg.class_metas(), id, parents.seq(), new_props@),
    {
        let ghost classes = reg.class_metas();
        let ghost full = parents.seq();
        let ancestors = parents.duplicate();
        let mut ans = ClassMeta {
            parents,
            ancestors,
            accessible_properties: new_props,
            clashing_properties: PropSetMap::new(),
            shadowed_properties: PropSetMap::new(),
        };
        let ghost seed = seed_meta(full.to_set(), ans.accessible_properties@);
        proof {
            assert(ans@ =~= seed);
        }
        let n = ans.parents.len();
        proof {
            ans.parents.seq().unique_seq_to_set();
        }
        let mut i: usize = 0;
        while i < n
            invariant
                reg.wf(),
                ans.wf(),
                n == full.len(),
                i <= n,
                ans.parents.seq() == full,
                forall|j: int| 0 <= j < full.len() ==> classes.dom().contains(#[trigger] full[j]),
                classes == reg.class_metas(),
                resolve_loop(classes, id, full, seed) == resolve_loop(
                    classes,
                    id,
                    full.skip(i as int),
                    ans@,
                ),
            decreases n - i,
        {
            let pid = ans.parents.index(i);
            let ghost before = ans@;
            let p = match reg.get_class(pid) {
                Some(p) => p,
                None => {
                    proof {
                        assert(classes.dom().contains(full[i as int]));
                    }
                    unreached()
                },
            };
            ans.ancestors.union_with(&p.ancestors);
            let ghost m1 = ans@;
            proof {
                assert(m1 =~= (MetaModel { ancestors: before.ancestors + p@.ancestors, ..before }));
            }
            ans.carry_shadowed_from(&p.shadowed_properties);
            ans.merge_clashing_from(id, &p.clashing_properties);
            ans.merge_accessible_from(id, &p.accessible_properties);
            proof {
                assert(ans@ == merge_parent(before, id, p@));
                assert(full.skip(i as int).drop_first() =~= full.skip(i + 1));
                assert(full.skip(i as int)[0] == full[i as int]);
                assert(resolve_loop(classes, id, full.skip(i as int), before) == resolve_loop(
                    classes,
                    id,
                    full.skip(i + 1),
                    ans@,
                ));
            }
            i = i + 1;
        }
        proof {
            assert(full.skip(n as int) =~= Seq::<u32>::empty());
            assert(resolve_loop(classes, id, full.skip(n as int), ans@) == ans@);
        }
        ans
    }
}

} // verus!
