//! Statements the resolution algorithm is held to: how ancestors accumulate,
//! where every visible property's origin lies, and when the outcome is
//! independent of the order the parents are merged in.

use vstd::prelude::*;
use crate::meta::{
    MetaModel, acc_bump, carry_shadowed, merge_accessible, merge_clashing, merge_parent,
    overridden, resolve, resolve_loop, seed_meta, set_at,
};
use crate::types::Property;

verus! {

broadcast use vstd::seq_lib::group_seq_properties, vstd::set::group_set_axioms;

/// The ancestors contributed by the parents `ps` as looked up in `classes`.
pub open spec fn ancestors_union(classes: Map<u32, MetaModel>, ps: Seq<u32>) -> Set<u32> {
    Set::new(
        |a: u32| exists|j: int| 0 <= j < ps.len() && (#[trigger] classes[ps[j]]).ancestors.contains(a),
    )
}

/// The fold never changes the `parents` component.
pub proof fn lemma_resolve_parents(classes: Map<u32, MetaModel>, id: u32, ps: Seq<u32>, m: MetaModel)
    ensures
        resolve_loop(classes, id, ps, m).parents == m.parents,
    decreases ps.len(),
{
    if ps.len() > 0 {
        lemma_resolve_parents(classes, id, ps.drop_first(), merge_parent(m, id, classes[ps[0]]));
    }
}

/// Merging parents only adds their ancestor sets: the result's ancestors are
/// the starting ancestors together with every parent's ancestors.
pub proof fn lemma_resolve_ancestors(classes: Map<u32, MetaModel>, id: u32, ps: Seq<u32>, m: MetaModel)
    ensures
        resolve_loop(classes, id, ps, m).ancestors == m.ancestors + ancestors_union(classes, ps),
    decreases ps.len(),
{
    if ps.len() == 0 {
        assert(m.ancestors + ancestors_union(classes, ps) =~= m.ancestors);
    } else {
        let p = classes[ps[0]];
        let m1 = merge_parent(m, id, p);
        assert(m1.ancestors == m.ancestors + p.ancestors);
        lemma_resolve_ancestors(classes, id, ps.drop_first(), m1);
        assert forall|a: u32| ancestors_union(classes, ps.drop_first()).contains(a) implies ancestors_union(
            classes,
            ps,
        ).contains(a) by {
            let j = choose|j: int| 0 <= j < ps.drop_first().len() && (#[trigger] classes[ps.drop_first()[j]]).ancestors.contains(a);
            assert(ps[j + 1] == ps.drop_first()[j]);
            assert(classes[ps[j + 1]].ancestors.contains(a));
        }
        assert forall|a: u32| ancestors_union(classes, ps).contains(a) implies (p.ancestors
            + ancestors_union(classes, ps.drop_first())).contains(a) by {
            let j = choose|j: int| 0 <= j < ps.len() && (#[trigger] classes[ps[j]]).ancestors.contains(a);
            if j > 0 {
                assert(ps.drop_first()[j - 1] == ps[j]);
                assert(classes[ps.drop_first()[j - 1]].ancestors.contains(a));
            }
        }
        assert((m.ancestors + p.ancestors) + ancestors_union(classes, ps.drop_first())
            =~= m.ancestors + ancestors_union(classes, ps));
    }
}

/// A metadata record whose ancestor set is transitively closed with respect
/// to the registry: it covers its parents, and the parents and ancestors of
/// every ancestor that the registry knows.
pub open spec fn ancestors_closed(classes: Map<u32, MetaModel>, m: MetaModel) -> bool {
    &&& m.parents.subset_of(m.ancestors)
    &&& forall|b: u32|
        m.ancestors.contains(b) && classes.dom().contains(b) ==> (#[trigger] classes[b]).parents.subset_of(
            m.ancestors,
        ) && classes[b].ancestors.subset_of(m.ancestors)
}

/// The ancestor set of a resolved class contains its parents and is closed
/// under the parent relation, provided every already-defined class is.
pub proof fn lemma_ancestors_closed(
    classes: Map<u32, MetaModel>,
    id: u32,
    ps: Seq<u32>,
    own: Map<Seq<char>, Property>,
)
    requires
        forall|j: int| 0 <= j < ps.len() ==> classes.dom().contains(#[trigger] ps[j]),
        forall|b: u32| classes.dom().contains(b) ==> ancestors_closed(classes, #[trigger] classes[b]),
    ensures
        ancestors_closed(classes, resolve(classes, id, ps, own)),
{
    let r = resolve(classes, id, ps, own);
    lemma_resolve_ancestors(classes, id, ps, seed_meta(ps.to_set(), own));
    lemma_resolve_parents(classes, id, ps, seed_meta(ps.to_set(), own));
    assert(r.parents == ps.to_set());
    assert(r.ancestors == ps.to_set() + ancestors_union(classes, ps));
    assert forall|b: u32| r.ancestors.contains(b) && classes.dom().contains(b) implies (
    #[trigger] classes[b]).parents.subset_of(r.ancestors) && classes[b].ancestors.subset_of(
        r.ancestors,
    ) by {
        if ps.to_set().contains(b) {
            let j = choose|j: int| 0 <= j < ps.len() && ps[j] == b;
            assert forall|c: u32| classes[b].ancestors.contains(c) implies r.ancestors.contains(
                c,
            ) by {
                assert(classes[ps[j]].ancestors.contains(c));
                assert(ancestors_union(classes, ps).contains(c));
            }
            assert(classes[b].parents.subset_of(classes[b].ancestors));
        } else {
            let j = choose|j: int| 0 <= j < ps.len() && (#[trigger] classes[ps[j]]).ancestors.contains(b);
            let pm = classes[ps[j]];
            assert(ancestors_closed(classes, pm));
            assert(classes[b].parents.subset_of(pm.ancestors));
            assert(classes[b].ancestors.subset_of(pm.ancestors));
            assert forall|c: u32| pm.ancestors.contains(c) implies r.ancestors.contains(c) by {
                assert(ancestors_union(classes, ps).contains(c));
            }
        }
        assert(classes[b].parents.subset_of(classes[b].ancestors));
    }
}

/// Whether `q` occurs anywhere in the three property partitions of `m`.
pub open spec fn prop_in_maps(m: MetaModel, q: Property) -> bool {
    ||| exists|k: Seq<char>| #[trigger] m.accessible.dom().contains(k) && m.accessible[k] == q
    ||| exists|k: Seq<char>| #[trigger] m.clashing.dom().contains(k) && m.clashing[k].contains(q)
    ||| exists|k: Seq<char>| #[trigger] m.shadowed.dom().contains(k) && m.shadowed[k].contains(q)
}

/// Every property of the merged state was already present or came from the
/// parent being merged.
proof fn lemma_merge_parent_props(m: MetaModel, id: u32, p: MetaModel, q: Property)
    requires
        prop_in_maps(merge_parent(m, id, p), q),
    ensures
        prop_in_maps(m, q) || prop_in_maps(p, q),
{
    let m1 = MetaModel { ancestors: m.ancestors + p.ancestors, ..m };
    let m2 = carry_shadowed(m1, p.shadowed);
    let m3 = merge_clashing(m2, id, p.clashing);
    let m4 = merge_accessible(m3, id, p.accessible);
    assert(prop_in_maps(m4, q));
    // Trace q back through the accessible merge.
    if !(prop_in_maps(m3, q) || (exists|k: Seq<char>|
        #[trigger] p.accessible.dom().contains(k) && p.accessible[k] == q)) {
        if exists|k: Seq<char>| #[trigger] m4.accessible.dom().contains(k) && m4.accessible[k] == q {
            let k = choose|k: Seq<char>| #[trigger] m4.accessible.dom().contains(k)
                && m4.accessible[k] == q;
            if m3.accessible.dom().contains(k) {
                assert(prop_in_maps(m3, q));
            } else {
                assert(p.accessible.dom().contains(k) && p.accessible[k] == q);
            }
            assert(false);
        } else if exists|k: Seq<char>| #[trigger] m4.clashing.dom().contains(k)
            && m4.clashing[k].contains(q) {
            let k = choose|k: Seq<char>| #[trigger] m4.clashing.dom().contains(k)
                && m4.clashing[k].contains(q);
            if m3.clashing.dom().contains(k) && m3.clashing[k].contains(q) {
                assert(prop_in_maps(m3, q));
            } else if m3.accessible.dom().contains(k) && m3.accessible[k] == q {
                assert(prop_in_maps(m3, q));
            } else {
                assert(p.accessible.dom().contains(k) && p.accessible[k] == q);
            }
            assert(false);
        } else {
            let k = choose|k: Seq<char>| #[trigger] m4.shadowed.dom().contains(k)
                && m4.shadowed[k].contains(q);
            if m3.shadowed.dom().contains(k) && m3.shadowed[k].contains(q) {
                assert(prop_in_maps(m3, q));
            } else {
                assert(p.accessible.dom().contains(k) && p.accessible[k] == q);
            }
            assert(false);
        }
    }
    // Trace q back through the clashing merge.
    if prop_in_maps(m3, q) && !(prop_in_maps(m2, q) || (exists|k: Seq<char>|
        #[trigger] p.clashing.dom().contains(k) && p.clashing[k].contains(q))) {
        if exists|k: Seq<char>| #[trigger] m3.accessible.dom().contains(k) && m3.accessible[k] == q {
            let k = choose|k: Seq<char>| #[trigger] m3.accessible.dom().contains(k)
                && m3.accessible[k] == q;
            assert(m2.accessible.dom().contains(k) && m2.accessible[k] == q);
            assert(false);
        } else if exists|k: Seq<char>| #[trigger] m3.clashing.dom().contains(k)
            && m3.clashing[k].contains(q) {
            let k = choose|k: Seq<char>| #[trigger] m3.clashing.dom().contains(k)
                && m3.clashing[k].contains(q);
            if m2.clashing.dom().contains(k) && m2.clashing[k].contains(q) {
                assert(prop_in_maps(m2, q));
            } else if m2.accessible.dom().contains(k) && m2.accessible[k] == q {
                assert(prop_in_maps(m2, q));
            } else {
                assert(p.clashing.dom().contains(k) && p.clashing[k].contains(q));
            }
            assert(false);
        } else {
            let k = choose|k: Seq<char>| #[trigger] m3.shadowed.dom().contains(k)
                && m3.shadowed[k].contains(q);
            if m2.shadowed.dom().contains(k) && m2.shadowed[k].contains(q) {
                assert(prop_in_maps(m2, q));
            } else {
                assert(p.clashing.dom().contains(k) && p.clashing[k].contains(q));
            }
            assert(false);
        }
    }
    // Trace q back through the shadowed carry-over.
    if prop_in_maps(m2, q) && !(prop_in_maps(m1, q) || (exists|k: Seq<char>|
        #[trigger] p.shadowed.dom().contains(k) && p.shadowed[k].contains(q))) {
        if exists|k: Seq<char>| #[trigger] m2.accessible.dom().contains(k) && m2.accessible[k] == q {
            assert(prop_in_maps(m1, q));
        } else if exists|k: Seq<char>| #[trigger] m2.clashing.dom().contains(k)
            && m2.clashing[k].contains(q) {
            assert(prop_in_maps(m1, q));
        } else {
            let k = choose|k: Seq<char>| #[trigger] m2.shadowed.dom().contains(k)
                && m2.shadowed[k].contains(q);
            if m1.shadowed.dom().contains(k) && m1.shadowed[k].contains(q) {
                assert(prop_in_maps(m1, q));
            } else {
                assert(p.shadowed.dom().contains(k) && p.shadowed[k].contains(q));
            }
            assert(false);
        }
    }
    assert(prop_in_maps(m1, q) ==> prop_in_maps(m, q));
}

/// Every property of `m` has its origin among `m`'s ancestors or is `id`'s
/// own.
pub open spec fn sources_ok(m: MetaModel, id: u32) -> bool {
    forall|q: Property| #[trigger] prop_in_maps(m, q) ==> m.ancestors.contains(q.source) || q.source == id
}

proof fn lemma_resolve_sources_loop(classes: Map<u32, MetaModel>, id: u32, ps: Seq<u32>, m: MetaModel)
    requires
        forall|j: int| 0 <= j < ps.len() ==> classes.dom().contains(#[trigger] ps[j]),
        forall|j: int| 0 <= j < ps.len() ==> m.ancestors.contains(#[trigger] ps[j]),
        forall|j: int| 0 <= j < ps.len() ==> (#[trigger] classes[ps[j]]).ancestors.subset_of(
            resolve_loop(classes, id, ps, m).ancestors,
        ),
        sources_ok(m, id),
        forall|j: int| 0 <= j < ps.len() ==> sources_ok(#[trigger] classes[ps[j]], ps[j]),
        m.ancestors.subset_of(resolve_loop(classes, id, ps, m).ancestors),
    ensures
        sources_ok(resolve_loop(classes, id, ps, m), id),
    decreases ps.len(),
{
    if ps.len() == 0 {
    } else {
        let p = classes[ps[0]];
        let m1 = merge_parent(m, id, p);
        let r = resolve_loop(classes, id, ps, m);
        lemma_resolve_ancestors(classes, id, ps, m);
        lemma_resolve_ancestors(classes, id, ps.drop_first(), m1);
        assert(m1.ancestors == m.ancestors + p.ancestors);
        assert(r == resolve_loop(classes, id, ps.drop_first(), m1));
        assert(m1.ancestors.subset_of(r.ancestors)) by {
            assert(r.ancestors =~= m1.ancestors + ancestors_union(classes, ps.drop_first()));
        }
        assert(sources_ok(m1, id)) by {
            assert forall|q: Property| #[trigger] prop_in_maps(m1, q) implies m1.ancestors.contains(
                q.source,
            ) || q.source == id by {
                lemma_merge_parent_props(m, id, p, q);
                if prop_in_maps(m, q) {
                    assert(m.ancestors.contains(q.source) || q.source == id);
                } else {
                    assert(prop_in_maps(p, q));
                    assert(p.ancestors.contains(q.source) || q.source == ps[0]);
                    assert(m.ancestors.contains(ps[0]));
                }
            }
        }
        assert forall|j: int| 0 <= j < ps.drop_first().len() implies (#[trigger] classes[ps.drop_first()[j]]).ancestors.subset_of(
            resolve_loop(classes, id, ps.drop_first(), m1).ancestors,
        ) by {
            assert(ps.drop_first()[j] == ps[j + 1]);
        }
        assert forall|j: int| 0 <= j < ps.drop_first().len() implies classes.dom().contains(
            #[trigger] ps.drop_first()[j],
        ) && m1.ancestors.contains(ps.drop_first()[j]) && sources_ok(
            classes[ps.drop_first()[j]],
            ps.drop_first()[j],
        ) by {
            assert(ps.drop_first()[j] == ps[j + 1]);
        }
        lemma_resolve_sources_loop(classes, id, ps.drop_first(), m1);
    }
}

/// Every property reachable in the accessible, clashing or shadowed maps of
/// a resolved class has its origin among the class's ancestors or is the
/// class's own declaration, provided the same holds of every parent and the
/// class's own declarations carry its id as their source.
pub proof fn lemma_resolve_sources(
    classes: Map<u32, MetaModel>,
    id: u32,
    ps: Seq<u32>,
    own: Map<Seq<char>, Property>,
)
    requires
        forall|j: int| 0 <= j < ps.len() ==> classes.dom().contains(#[trigger] ps[j]),
        forall|j: int| 0 <= j < ps.len() ==> sources_ok(#[trigger] classes[ps[j]], ps[j]),
        forall|k: Seq<char>| own.dom().contains(k) ==> (#[trigger] own[k]).source == id,
    ensures
        sources_ok(resolve(classes, id, ps, own), id),
{
    let seed = seed_meta(ps.to_set(), own);
    let r = resolve(classes, id, ps, own);
    lemma_resolve_ancestors(classes, id, ps, seed);
    assert(sources_ok(seed, id)) by {
        assert forall|q: Property| #[trigger] prop_in_maps(seed, q) implies seed.ancestors.contains(
            q.source,
        ) || q.source == id by {
            let k = choose|k: Seq<char>| #[trigger] seed.accessible.dom().contains(k)
                && seed.accessible[k] == q;
            assert(own[k].source == id);
        }
    }
    assert forall|j: int| 0 <= j < ps.len() implies seed.ancestors.contains(#[trigger] ps[j]) by {}
    assert forall|j: int| 0 <= j < ps.len() implies (#[trigger] classes[ps[j]]).ancestors.subset_of(
        r.ancestors,
    ) by {
        assert(r.ancestors =~= seed.ancestors + ancestors_union(classes, ps));
        assert forall|c: u32| classes[ps[j]].ancestors.contains(c) implies r.ancestors.contains(
            c,
        ) by {
            assert(ancestors_union(classes, ps).contains(c));
        }
    }
    assert(seed.ancestors.subset_of(r.ancestors)) by {
        assert(r.ancestors =~= seed.ancestors + ancestors_union(classes, ps));
    }
    lemma_resolve_sources_loop(classes, id, ps, seed);
}

} // verus!

verus! {

/// Whether some parent in `ps` contributes an accessible entry for `k`.
pub open spec fn has_acc_contrib(classes: Map<u32, MetaModel>, ps: Set<u32>, k: Seq<char>) -> bool {
    exists|p: u32| ps.contains(p) && (#[trigger] classes[p]).accessible.dom().contains(k)
}

/// Whether some parent in `ps` contributes a clash set for `k`.
pub open spec fn has_clash_contrib(classes: Map<u32, MetaModel>, ps: Set<u32>, k: Seq<char>) -> bool {
    exists|p: u32| ps.contains(p) && (#[trigger] classes[p]).clashing.dom().contains(k)
}

/// Whether some parent in `ps` contributes a shadowed set for `k`.
pub open spec fn has_shadow_contrib(classes: Map<u32, MetaModel>, ps: Set<u32>, k: Seq<char>) -> bool {
    exists|p: u32| ps.contains(p) && (#[trigger] classes[p]).shadowed.dom().contains(k)
}

/// Every accessible entry the parents contribute for `k` has the same
/// origin.
pub open spec fn single_source(classes: Map<u32, MetaModel>, ps: Set<u32>, k: Seq<char>) -> bool {
    forall|p: u32, q: u32|
        ps.contains(p) && ps.contains(q) && (#[trigger] classes[p]).accessible.dom().contains(k)
            && (#[trigger] classes[q]).accessible.dom().contains(k) ==> classes[p].accessible[k].source
            == classes[q].accessible[k].source
}

/// At most two parents contribute an accessible entry for `k`.
pub open spec fn at_most_two(classes: Map<u32, MetaModel>, ps: Set<u32>, k: Seq<char>) -> bool {
    forall|p: u32, q: u32, r: u32|
        ps.contains(p) && ps.contains(q) && ps.contains(r) && (
        #[trigger] classes[p]).accessible.dom().contains(k) && (
        #[trigger] classes[q]).accessible.dom().contains(k) && (
        #[trigger] classes[r]).accessible.dom().contains(k) ==> p == q || q == r || p == r
}

/// Accessible entries for `k` with the same origin are the same record.
pub open spec fn consistent_origins(classes: Map<u32, MetaModel>, ps: Set<u32>, k: Seq<char>) -> bool {
    forall|p: u32, q: u32|
        ps.contains(p) && ps.contains(q) && (#[trigger] classes[p]).accessible.dom().contains(k)
            && (#[trigger] classes[q]).accessible.dom().contains(k)
            && classes[p].accessible[k].source == classes[q].accessible[k].source
            ==> classes[p].accessible[k] == classes[q].accessible[k]
}

/// A parent that contributes an accessible entry for `k`.
pub open spec fn contrib_of(classes: Map<u32, MetaModel>, ps: Set<u32>, k: Seq<char>) -> u32 {
    choose|p: u32| ps.contains(p) && (#[trigger] classes[p]).accessible.dom().contains(k)
}

/// The union of the parents' clash sets for `k`.
pub open spec fn clash_union(classes: Map<u32, MetaModel>, ps: Set<u32>, k: Seq<char>) -> Set<Property> {
    Set::new(
        |q: Property| exists|p: u32| ps.contains(p) && (#[trigger] classes[p]).clashing.dom().contains(
            k,
        ) && classes[p].clashing[k].contains(q),
    )
}

/// The set of the parents' accessible records for `k`.
pub open spec fn acc_union(classes: Map<u32, MetaModel>, ps: Set<u32>, k: Seq<char>) -> Set<Property> {
    Set::new(
        |q: Property| exists|p: u32| ps.contains(p) && (#[trigger] classes[p]).accessible.dom().contains(
            k,
        ) && classes[p].accessible[k] == q,
    )
}

/// The union of the parents' shadowed sets for `k`.
pub open spec fn shadow_union(classes: Map<u32, MetaModel>, ps: Set<u32>, k: Seq<char>) -> Set<Property> {
    Set::new(
        |q: Property| exists|p: u32| ps.contains(p) && (#[trigger] classes[p]).shadowed.dom().contains(
            k,
        ) && classes[p].shadowed[k].contains(q),
    )
}

/// The conflicts the resolution is not asked to order: for every name the
/// class does not declare itself, parents may contribute at most two
/// accessible entries of different origins or any number of one origin, a
/// name with accessible contributions may not also carry an inherited clash
/// set, and records of one origin agree.
pub open spec fn conflict_free(
    classes: Map<u32, MetaModel>,
    ps: Set<u32>,
    own: Map<Seq<char>, Property>,
) -> bool {
    forall|k: Seq<char>| #![auto]
        !own.dom().contains(k) && has_acc_contrib(classes, ps, k) ==> !has_clash_contrib(
            classes,
            ps,
            k,
        ) && (single_source(classes, ps, k) || at_most_two(classes, ps, k)) && consistent_origins(
            classes,
            ps,
            k,
        )
}

/// The standing assumptions on a resolution's inputs: every parent is
/// defined, is not the new class and does not have it among its ancestors,
/// every parent's records originate within that parent's own scope, and the
/// class's own declarations carry its id as their source.
pub open spec fn sound_inputs(
    classes: Map<u32, MetaModel>,
    id: u32,
    ps: Set<u32>,
    own: Map<Seq<char>, Property>,
) -> bool {
    &&& forall|p: u32| ps.contains(p) ==> classes.dom().contains(p)
    &&& forall|p: u32| ps.contains(p) ==> sources_ok(#[trigger] classes[p], p)
    &&& forall|p: u32| ps.contains(p) ==> !(#[trigger] classes[p]).ancestors.contains(id) && p != id
    &&& forall|k: Seq<char>| own.dom().contains(k) ==> (#[trigger] own[k]).source == id
}

/// What the three partitions are, name by name, after the parents in `s`
/// have been merged: a name the class declares resolves to its own record
/// with everything inherited shadowed behind it; a name with accessible
/// contributions of one origin resolves to that record; one with two
/// origins, or with an inherited clash set and no accessible contribution,
/// is ambiguous; and shadowed sets accumulate.
pub open spec fn partial_model(
    classes: Map<u32, MetaModel>,
    id: u32,
    full: Set<u32>,
    s: Set<u32>,
    own: Map<Seq<char>, Property>,
) -> MetaModel {
    MetaModel {
        parents: full,
        ancestors: full + ancestors_set_union(classes, s),
        accessible: Map::new(
            |k: Seq<char>| own.dom().contains(k) || (has_acc_contrib(classes, s, k)
                && !has_clash_contrib(classes, s, k) && single_source(classes, s, k)),
            |k: Seq<char>|
                if own.dom().contains(k) {
                    own[k]
                } else {
                    classes[contrib_of(classes, s, k)].accessible[k]
                },
        ),
        clashing: Map::new(
            |k: Seq<char>| !own.dom().contains(k) && ((has_clash_contrib(classes, s, k)
                && !has_acc_contrib(classes, s, k)) || (!has_clash_contrib(classes, s, k)
                && has_acc_contrib(classes, s, k) && !single_source(classes, s, k))),
            |k: Seq<char>|
                if has_clash_contrib(classes, s, k) {
                    clash_union(classes, s, k)
                } else {
                    acc_union(classes, s, k)
                },
        ),
        shadowed: Map::new(
            |k: Seq<char>| has_shadow_contrib(classes, s, k) || (own.dom().contains(k) && (
            has_clash_contrib(classes, s, k) || has_acc_contrib(classes, s, k))),
            |k: Seq<char>|
                if own.dom().contains(k) {
                    shadow_union(classes, s, k) + clash_union(classes, s, k) + acc_union(
                        classes,
                        s,
                        k,
                    )
                } else {
                    shadow_union(classes, s, k)
                },
        ),
    }
}

/// The ancestors contributed by a set of parents.
pub open spec fn ancestors_set_union(classes: Map<u32, MetaModel>, ps: Set<u32>) -> Set<u32> {
    Set::new(
        |a: u32| exists|p: u32| ps.contains(p) && (#[trigger] classes[p]).ancestors.contains(a),
    )
}

} // verus!

verus! {

/// A name with no contribution of a kind has the empty union of that kind.
proof fn lemma_unions_empty(classes: Map<u32, MetaModel>, s: Set<u32>, k: Seq<char>)
    ensures
        !has_clash_contrib(classes, s, k) ==> clash_union(classes, s, k) == Set::<Property>::empty(),
        !has_acc_contrib(classes, s, k) ==> acc_union(classes, s, k) == Set::<Property>::empty(),
        !has_shadow_contrib(classes, s, k) ==> shadow_union(classes, s, k) == Set::<
            Property,
        >::empty(),
{
    if !has_clash_contrib(classes, s, k) {
        assert forall|q: Property| !clash_union(classes, s, k).contains(q) by {
            if clash_union(classes, s, k).contains(q) {
                let p = choose|p: u32| s.contains(p) && (#[trigger] classes[p]).clashing.dom().contains(
                    k,
                ) && classes[p].clashing[k].contains(q);
                assert(has_clash_contrib(classes, s, k));
            }
        }
        assert(clash_union(classes, s, k) =~= Set::<Property>::empty());
    }
    if !has_acc_contrib(classes, s, k) {
        assert forall|q: Property| !acc_union(classes, s, k).contains(q) by {
            if acc_union(classes, s, k).contains(q) {
                let p = choose|p: u32| s.contains(p) && (#[trigger] classes[p]).accessible.dom().contains(
                    k,
                ) && classes[p].accessible[k] == q;
                assert(has_acc_contrib(classes, s, k));
            }
        }
        assert(acc_union(classes, s, k) =~= Set::<Property>::empty());
    }
    if !has_shadow_contrib(classes, s, k) {
        assert forall|q: Property| !shadow_union(classes, s, k).contains(q) by {
            if shadow_union(classes, s, k).contains(q) {
                let p = choose|p: u32| s.contains(p) && (#[trigger] classes[p]).shadowed.dom().contains(
                    k,
                ) && classes[p].shadowed[k].contains(q);
                assert(has_shadow_contrib(classes, s, k));
            }
        }
        assert(shadow_union(classes, s, k) =~= Set::<Property>::empty());
    }
}

/// Adding one parent adds exactly its own contributions to each union.
proof fn lemma_union_insert(classes: Map<u32, MetaModel>, s: Set<u32>, p: u32, k: Seq<char>)
    ensures
        has_acc_contrib(classes, s.insert(p), k) == (has_acc_contrib(classes, s, k)
            || classes[p].accessible.dom().contains(k)),
        has_clash_contrib(classes, s.insert(p), k) == (has_clash_contrib(classes, s, k)
            || classes[p].clashing.dom().contains(k)),
        has_shadow_contrib(classes, s.insert(p), k) == (has_shadow_contrib(classes, s, k)
            || classes[p].shadowed.dom().contains(k)),
        acc_union(classes, s.insert(p), k) == if classes[p].accessible.dom().contains(k) {
            acc_union(classes, s, k).insert(classes[p].accessible[k])
        } else {
            acc_union(classes, s, k)
        },
        clash_union(classes, s.insert(p), k) == if classes[p].clashing.dom().contains(k) {
            clash_union(classes, s, k) + classes[p].clashing[k]
        } else {
            clash_union(classes, s, k)
        },
        shadow_union(classes, s.insert(p), k) == if classes[p].shadowed.dom().contains(k) {
            shadow_union(classes, s, k) + classes[p].shadowed[k]
        } else {
            shadow_union(classes, s, k)
        },
{
    let sp = s.insert(p);
    assert forall|q: Property| acc_union(classes, sp, k).contains(q) implies (acc_union(
        classes,
        s,
        k,
    ).contains(q) || (classes[p].accessible.dom().contains(k) && classes[p].accessible[k] == q)) by {
        let w = choose|w: u32| sp.contains(w) && (#[trigger] classes[w]).accessible.dom().contains(k)
            && classes[w].accessible[k] == q;
        if w != p {
            assert(s.contains(w));
        }
    }
    assert forall|q: Property| clash_union(classes, sp, k).contains(q) implies (clash_union(
        classes,
        s,
        k,
    ).contains(q) || (classes[p].clashing.dom().contains(k) && classes[p].clashing[k].contains(q))) by {
        let w = choose|w: u32| sp.contains(w) && (#[trigger] classes[w]).clashing.dom().contains(k)
            && classes[w].clashing[k].contains(q);
        if w != p {
            assert(s.contains(w));
        }
    }
    assert forall|q: Property| shadow_union(classes, sp, k).contains(q) implies (shadow_union(
        classes,
        s,
        k,
    ).contains(q) || (classes[p].shadowed.dom().contains(k) && classes[p].shadowed[k].contains(q))) by {
        let w = choose|w: u32| sp.contains(w) && (#[trigger] classes[w]).shadowed.dom().contains(k)
            && classes[w].shadowed[k].contains(q);
        if w != p {
            assert(s.contains(w));
        }
    }
    if has_acc_contrib(classes, sp, k) && !classes[p].accessible.dom().contains(k) {
        let w = choose|w: u32| sp.contains(w) && (#[trigger] classes[w]).accessible.dom().contains(k);
        assert(w != p);
        assert(s.contains(w) && classes[w].accessible.dom().contains(k));
    }
    if has_clash_contrib(classes, sp, k) && !classes[p].clashing.dom().contains(k) {
        let w = choose|w: u32| sp.contains(w) && (#[trigger] classes[w]).clashing.dom().contains(k);
        assert(w != p);
        assert(s.contains(w) && classes[w].clashing.dom().contains(k));
    }
    if has_shadow_contrib(classes, sp, k) && !classes[p].shadowed.dom().contains(k) {
        let w = choose|w: u32| sp.contains(w) && (#[trigger] classes[w]).shadowed.dom().contains(k);
        assert(w != p);
        assert(s.contains(w) && classes[w].shadowed.dom().contains(k));
    }
    if classes[p].accessible.dom().contains(k) {
        assert(acc_union(classes, sp, k) =~= acc_union(classes, s, k).insert(
            classes[p].accessible[k],
        ));
    } else {
        assert(acc_union(classes, sp, k) =~= acc_union(classes, s, k));
    }
    if classes[p].clashing.dom().contains(k) {
        assert(clash_union(classes, sp, k) =~= clash_union(classes, s, k) + classes[p].clashing[k]);
    } else {
        assert(clash_union(classes, sp, k) =~= clash_union(classes, s, k));
    }
    if classes[p].shadowed.dom().contains(k) {
        assert(shadow_union(classes, sp, k) =~= shadow_union(classes, s, k)
            + classes[p].shadowed[k]);
    } else {
        assert(shadow_union(classes, sp, k) =~= shadow_union(classes, s, k));
    }
}

/// An accessible record contributed by a sound parent never carries the new
/// class's id as its origin.
proof fn lemma_contrib_source_ne(
    classes: Map<u32, MetaModel>,
    id: u32,
    s: Set<u32>,
    w: u32,
    k: Seq<char>,
)
    requires
        s.contains(w),
        forall|p: u32| s.contains(p) ==> sources_ok(#[trigger] classes[p], p),
        forall|p: u32| s.contains(p) ==> !(#[trigger] classes[p]).ancestors.contains(id) && p != id,
        classes[w].accessible.dom().contains(k),
    ensures
        classes[w].accessible[k].source != id,
{
    let q = classes[w].accessible[k];
    assert(prop_in_maps(classes[w], q));
    assert(classes[w].ancestors.contains(q.source) || q.source == w);
}

} // verus!

verus! {

/// Merging one more parent moves the per-name state from the closed form
/// over `s` to the closed form over `s` with `p`, at every single name.
#[verifier::rlimit(100)]
#[verifier::spinoff_prover]
proof fn lemma_merge_step_at(
    classes: Map<u32, MetaModel>,
    id: u32,
    full: Set<u32>,
    s: Set<u32>,
    p: u32,
    own: Map<Seq<char>, Property>,
    k: Seq<char>,
)
    requires
        !s.contains(p),
        s.insert(p).subset_of(full),
        sound_inputs(classes, id, s.insert(p), own),
        conflict_free(classes, s.insert(p), own),
    ensures
        ({
            let m4 = merge_parent(partial_model(classes, id, full, s, own), id, classes[p]);
            let rhs = partial_model(classes, id, full, s.insert(p), own);
            &&& m4.accessible.dom().contains(k) == rhs.accessible.dom().contains(k)
            &&& (m4.accessible.dom().contains(k) ==> m4.accessible[k] == rhs.accessible[k])
            &&& m4.clashing.dom().contains(k) == rhs.clashing.dom().contains(k)
            &&& (m4.clashing.dom().contains(k) ==> m4.clashing[k] == rhs.clashing[k])
            &&& m4.shadowed.dom().contains(k) == rhs.shadowed.dom().contains(k)
            &&& (m4.shadowed.dom().contains(k) ==> m4.shadowed[k] == rhs.shadowed[k])
        }),
{
    let sp = s.insert(p);
    let m = partial_model(classes, id, full, s, own);
    let pm = classes[p];
    let m1 = MetaModel { ancestors: m.ancestors + pm.ancestors, ..m };
    let m2 = carry_shadowed(m1, pm.shadowed);
    let m3 = merge_clashing(m2, id, pm.clashing);
    let m4 = merge_accessible(m3, id, pm.accessible);
    let rhs = partial_model(classes, id, full, sp, own);
    lemma_union_insert(classes, s, p, k);
    lemma_unions_empty(classes, s, k);
    lemma_unions_empty(classes, sp, k);
    assert(m4 == merge_parent(m, id, pm));
    if own.dom().contains(k) {
        // The class overrides k: everything the parent contributes for k is
        // shadowed, and k resolves to the own record throughout.
        assert(m.accessible.dom().contains(k) && m.accessible[k] == own[k]);
        assert(own[k].source == id);
        assert(overridden(m2, id, k));
        assert(overridden(m3, id, k));
        assert(m4.accessible.dom().contains(k) && m4.accessible[k] == own[k]);
        assert(rhs.accessible.dom().contains(k) && rhs.accessible[k] == own[k]);
        assert(!m4.clashing.dom().contains(k) == !m.clashing.dom().contains(k));
        assert(!m.clashing.dom().contains(k));
        assert(!rhs.clashing.dom().contains(k));
        // The shadowed set accumulates the parent's three contributions.
        let base = shadow_union(classes, s, k) + clash_union(classes, s, k) + acc_union(
            classes,
            s,
            k,
        );
        if m.shadowed.dom().contains(k) {
            assert(m.shadowed[k] == base);
        } else {
            assert(base =~= Set::<Property>::empty());
        }
        let v2 = if pm.shadowed.dom().contains(k) {
            set_at(m.shadowed, k) + pm.shadowed[k]
        } else {
            set_at(m.shadowed, k)
        };
        assert(m2.shadowed.dom().contains(k) == (m.shadowed.dom().contains(k)
            || pm.shadowed.dom().contains(k)));
        assert(m2.shadowed.dom().contains(k) ==> m2.shadowed[k] == v2);
        assert(set_at(m2.shadowed, k) =~= base + (if pm.shadowed.dom().contains(k) {
            pm.shadowed[k]
        } else {
            Set::<Property>::empty()
        }));
        let v3 = if pm.clashing.dom().contains(k) {
            set_at(m2.shadowed, k) + pm.clashing[k]
        } else {
            set_at(m2.shadowed, k)
        };
        assert(m3.shadowed.dom().contains(k) == (m2.shadowed.dom().contains(k)
            || pm.clashing.dom().contains(k)));
        assert(m3.shadowed.dom().contains(k) ==> m3.shadowed[k] == v3);
        assert(set_at(m3.shadowed, k) =~= set_at(m2.shadowed, k) + (if pm.clashing.dom().contains(
            k,
        ) {
            pm.clashing[k]
        } else {
            Set::<Property>::empty()
        }));
        assert(m4.shadowed.dom().contains(k) == (m3.shadowed.dom().contains(k)
            || pm.accessible.dom().contains(k)));
        assert(m4.shadowed.dom().contains(k) ==> m4.shadowed[k] == (if pm.accessible.dom().contains(
            k,
        ) {
            set_at(m3.shadowed, k).insert(pm.accessible[k])
        } else {
            m3.shadowed[k]
        }));
        assert(rhs.shadowed.dom().contains(k) == (has_shadow_contrib(classes, sp, k) || (
        has_clash_contrib(classes, sp, k) || has_acc_contrib(classes, sp, k))));
        assert(m4.shadowed.dom().contains(k) == rhs.shadowed.dom().contains(k)) by {
            assert(m.shadowed.dom().contains(k) == (has_shadow_contrib(classes, s, k) || (
            has_clash_contrib(classes, s, k) || has_acc_contrib(classes, s, k))));
        }
        if m4.shadowed.dom().contains(k) {
            assert(rhs.shadowed[k] == shadow_union(classes, sp, k) + clash_union(classes, sp, k)
                + acc_union(classes, sp, k));
            assert(m4.shadowed[k] =~= rhs.shadowed[k]);
        }
    } else {
        // The class does not declare k itself.
        assert(!m.accessible.dom().contains(k) == !(has_acc_contrib(classes, s, k)
            && !has_clash_contrib(classes, s, k) && single_source(classes, s, k)));
        if m.accessible.dom().contains(k) {
            let w = contrib_of(classes, s, k);
            assert(s.contains(w) && classes[w].accessible.dom().contains(k));
            lemma_contrib_source_ne(classes, id, sp, w, k);
            assert(m.accessible[k].source != id);
        }
        assert(!overridden(m2, id, k));
        if has_acc_contrib(classes, sp, k) {
            // Accessible contributions exist, so no inherited clash set may.
            assert(!has_clash_contrib(classes, sp, k));
            assert(!pm.clashing.dom().contains(k));
            assert(m3.accessible.dom().contains(k) == m.accessible.dom().contains(k));
            assert(m3.accessible.dom().contains(k) ==> m3.accessible[k] == m.accessible[k]);
            assert(m3.clashing.dom().contains(k) == m.clashing.dom().contains(k));
            assert(m3.clashing.dom().contains(k) ==> m3.clashing[k] == m.clashing[k]);
            assert(m3.shadowed.dom().contains(k) == m2.shadowed.dom().contains(k));
            assert(m3.shadowed.dom().contains(k) ==> m3.shadowed[k] == m2.shadowed[k]);
            if !pm.accessible.dom().contains(k) {
                // The new parent contributes nothing for k.
                assert(has_acc_contrib(classes, s, k));
                assert(single_source(classes, sp, k) == single_source(classes, s, k));
                assert(m4.accessible.dom().contains(k) == m3.accessible.dom().contains(k));
                assert(rhs.accessible.dom().contains(k) == m.accessible.dom().contains(k));
                if m4.accessible.dom().contains(k) {
                    let w2 = contrib_of(classes, sp, k);
                    assert(sp.contains(w2) && classes[w2].accessible.dom().contains(k));
                    let w = contrib_of(classes, s, k);
                    assert(s.contains(w) && classes[w].accessible.dom().contains(k));
                    assert(classes[w2].accessible[k].source == classes[w].accessible[k].source);
                    assert(classes[w2].accessible[k] == classes[w].accessible[k]);
                    assert(m4.accessible[k] == rhs.accessible[k]);
                }
                assert(m4.clashing.dom().contains(k) == rhs.clashing.dom().contains(k));
                if m4.clashing.dom().contains(k) {
                    assert(m4.clashing[k] == acc_union(classes, s, k));
                    assert(rhs.clashing[k] == acc_union(classes, sp, k));
                }
            } else {
                // The new parent contributes an accessible record for k.
                let v = pm.accessible[k];
                lemma_contrib_source_ne(classes, id, sp, p, k);
                assert(v.source != id);
                if !has_acc_contrib(classes, s, k) {
                    // First contribution: it is adopted.
                    assert(!m.accessible.dom().contains(k));
                    assert(!m.clashing.dom().contains(k));
                    assert(m4.accessible.dom().contains(k) && m4.accessible[k] == v);
                    assert(single_source(classes, sp, k)) by {
                        assert forall|a: u32, b: u32|
                            sp.contains(a) && sp.contains(b) && (
                            #[trigger] classes[a]).accessible.dom().contains(k) && (
                            #[trigger] classes[b]).accessible.dom().contains(k) implies classes[a].accessible[k].source
                            == classes[b].accessible[k].source by {
                            if a != p {
                                assert(s.contains(a) && classes[a].accessible.dom().contains(k));
                                assert(has_acc_contrib(classes, s, k));
                            }
                            if b != p {
                                assert(s.contains(b) && classes[b].accessible.dom().contains(k));
                                assert(has_acc_contrib(classes, s, k));
                            }
                        }
                    }
                    assert(rhs.accessible.dom().contains(k));
                    let w2 = contrib_of(classes, sp, k);
                    assert(sp.contains(w2) && classes[w2].accessible.dom().contains(k));
                    if w2 != p {
                        assert(s.contains(w2));
                        assert(has_acc_contrib(classes, s, k));
                        assert(false);
                    }
                    assert(rhs.accessible[k] == v);
                    assert(!m4.clashing.dom().contains(k));
                    assert(!rhs.clashing.dom().contains(k));
                } else {
                    // Contributions on both sides.
                    let w = contrib_of(classes, s, k);
                    assert(s.contains(w) && classes[w].accessible.dom().contains(k));
                    if !single_source(classes, s, k) {
                        // Two distinct origins were already present; a third
                        // contributor is ruled out.
                        let (a, b) = choose|a: u32, b: u32|
                            s.contains(a) && s.contains(b) && (
                            #[trigger] classes[a]).accessible.dom().contains(k) && (
                            #[trigger] classes[b]).accessible.dom().contains(k)
                                && classes[a].accessible[k].source
                                != classes[b].accessible[k].source;
                        assert(a != b);
                        assert(!single_source(classes, sp, k));
                        assert(!at_most_two(classes, sp, k)) by {
                            assert(sp.contains(a) && sp.contains(b) && sp.contains(p));
                        }
                        assert(false);
                    }
                    // One origin so far: the merged entry is accessible.
                    assert(m.accessible.dom().contains(k));
                    let u = m.accessible[k];
                    assert(u == classes[w].accessible[k]);
                    assert(!m.clashing.dom().contains(k));
                    if v.source == u.source {
                        // Diamond: the same origin arrives again.
                        assert(!acc_bump(m3, id, pm.accessible, k));
                        assert(m4.accessible.dom().contains(k) && m4.accessible[k] == u);
                        assert(single_source(classes, sp, k)) by {
                            assert forall|a2: u32, b2: u32|
                                sp.contains(a2) && sp.contains(b2) && (
                                #[trigger] classes[a2]).accessible.dom().contains(k) && (
                                #[trigger] classes[b2]).accessible.dom().contains(k) implies classes[a2].accessible[k].source
                                == classes[b2].accessible[k].source by {
                                if a2 != p {
                                    assert(s.contains(a2));
                                }
                                if b2 != p {
                                    assert(s.contains(b2));
                                }
                            }
                        }
                        assert(rhs.accessible.dom().contains(k));
                        let w2 = contrib_of(classes, sp, k);
                        assert(sp.contains(w2) && classes[w2].accessible.dom().contains(k));
                        assert(classes[w2].accessible[k].source == u.source);
                        assert(classes[w2].accessible[k] == u) by {
                            assert(sp.contains(w) && classes[w].accessible.dom().contains(k));
                        }
                        assert(rhs.accessible[k] == u);
                        assert(!m4.clashing.dom().contains(k));
                        assert(!rhs.clashing.dom().contains(k));
                    } else {
                        // A second origin arrives: both records clash.
                        assert(acc_bump(m3, id, pm.accessible, k));
                        assert(!m4.accessible.dom().contains(k));
                        assert(!single_source(classes, sp, k)) by {
                            assert(sp.contains(w) && sp.contains(p));
                        }
                        assert(!rhs.accessible.dom().contains(k));
                        assert(m4.clashing.dom().contains(k));
                        assert(m4.clashing[k] == set_at(m3.clashing, k).insert(v).insert(u));
                        assert(set_at(m3.clashing, k) =~= Set::<Property>::empty());
                        assert(rhs.clashing.dom().contains(k));
                        assert(rhs.clashing[k] == acc_union(classes, sp, k));
                        assert(m4.clashing[k] =~= rhs.clashing[k]) by {
                            assert forall|q: Property| acc_union(classes, sp, k).contains(q) implies
                                Set::<Property>::empty().insert(v).insert(u).contains(q) by {
                                let w3 = choose|w3: u32|
                                    sp.contains(w3) && (
                                    #[trigger] classes[w3]).accessible.dom().contains(k)
                                        && classes[w3].accessible[k] == q;
                                if w3 != p {
                                    assert(s.contains(w3));
                                    assert(classes[w3].accessible[k].source == u.source);
                                    assert(sp.contains(w) && classes[w].accessible.dom().contains(
                                        k,
                                    ));
                                    assert(classes[w3].accessible[k] == u);
                                }
                            }
                            assert(acc_union(classes, sp, k).contains(v));
                            assert(acc_union(classes, sp, k).contains(u)) by {
                                assert(sp.contains(w) && classes[w].accessible.dom().contains(k)
                                    && classes[w].accessible[k] == u);
                            }
                        }
                    }
                }
            }
            // Shadowed entries only carry over in all these cases.
            assert(m4.shadowed.dom().contains(k) == m2.shadowed.dom().contains(k) || (
            pm.accessible.dom().contains(k) && overridden(m3, id, k))) by {}
            assert(!overridden(m3, id, k)) by {
                if m3.accessible.dom().contains(k) {
                    assert(m3.accessible[k] == m.accessible[k]);
                }
            }
            assert(m4.shadowed.dom().contains(k) == (has_shadow_contrib(classes, sp, k)));
            assert(rhs.shadowed.dom().contains(k) == has_shadow_contrib(classes, sp, k));
            if m4.shadowed.dom().contains(k) {
                assert(m4.shadowed[k] == (if pm.shadowed.dom().contains(k) {
                    set_at(m.shadowed, k) + pm.shadowed[k]
                } else {
                    m.shadowed[k]
                }));
                assert(set_at(m.shadowed, k) =~= shadow_union(classes, s, k));
                assert(m4.shadowed[k] =~= shadow_union(classes, sp, k));
                assert(rhs.shadowed[k] == shadow_union(classes, sp, k));
            }
        } else {
            // No accessible contribution at all for k, from s or from p.
            assert(!has_acc_contrib(classes, s, k));
            assert(!pm.accessible.dom().contains(k));
            assert(!m.accessible.dom().contains(k));
            assert(!m4.accessible.dom().contains(k));
            assert(!rhs.accessible.dom().contains(k));
            // Clash sets union up.
            assert(m3.clashing.dom().contains(k) == (pm.clashing.dom().contains(k)
                || m.clashing.dom().contains(k)));
            assert(m4.clashing.dom().contains(k) == m3.clashing.dom().contains(k));
            assert(m.clashing.dom().contains(k) == has_clash_contrib(classes, s, k));
            assert(rhs.clashing.dom().contains(k) == has_clash_contrib(classes, sp, k));
            if m4.clashing.dom().contains(k) {
                assert(set_at(m.clashing, k) =~= clash_union(classes, s, k));
                if pm.clashing.dom().contains(k) {
                    assert(m3.clashing[k] == set_at(m.clashing, k) + pm.clashing[k]);
                } else {
                    assert(m3.clashing[k] == m.clashing[k]);
                }
                assert(m4.clashing[k] =~= clash_union(classes, sp, k));
                assert(rhs.clashing[k] == clash_union(classes, sp, k));
            }
            // Shadowed sets carry over.
            assert(m4.shadowed.dom().contains(k) == m2.shadowed.dom().contains(k)) by {
                assert(!overridden(m2, id, k));
                assert(!overridden(m3, id, k)) by {
                    if m3.accessible.dom().contains(k) {
                        assert(m3.accessible[k] == m.accessible[k]);
                    }
                }
            }
            assert(m2.shadowed.dom().contains(k) == (m.shadowed.dom().contains(k)
                || pm.shadowed.dom().contains(k)));
            assert(m.shadowed.dom().contains(k) == has_shadow_contrib(classes, s, k));
            assert(rhs.shadowed.dom().contains(k) == has_shadow_contrib(classes, sp, k));
            if m4.shadowed.dom().contains(k) {
                assert(m4.shadowed[k] == (if pm.shadowed.dom().contains(k) {
                    set_at(m.shadowed, k) + pm.shadowed[k]
                } else {
                    m.shadowed[k]
                }));
                assert(set_at(m.shadowed, k) =~= shadow_union(classes, s, k));
                assert(m4.shadowed[k] =~= shadow_union(classes, sp, k));
                assert(rhs.shadowed[k] == shadow_union(classes, sp, k));
            }
        }
    }
}

} // verus!

verus! {

/// Merging one more parent moves the whole state from the closed form over
/// `s` to the closed form over `s` with `p`.
proof fn lemma_merge_step(
    classes: Map<u32, MetaModel>,
    id: u32,
    full: Set<u32>,
    s: Set<u32>,
    p: u32,
    own: Map<Seq<char>, Property>,
)
    requires
        !s.contains(p),
        s.insert(p).subset_of(full),
        sound_inputs(classes, id, s.insert(p), own),
        conflict_free(classes, s.insert(p), own),
    ensures
        merge_parent(partial_model(classes, id, full, s, own), id, classes[p]) == partial_model(
            classes,
            id,
            full,
            s.insert(p),
            own,
        ),
{
    let sp = s.insert(p);
    let m4 = merge_parent(partial_model(classes, id, full, s, own), id, classes[p]);
    let rhs = partial_model(classes, id, full, sp, own);
    assert(m4.parents == rhs.parents);
    assert(m4.ancestors =~= rhs.ancestors) by {
        assert(m4.ancestors == (full + ancestors_set_union(classes, s)) + classes[p].ancestors);
        assert forall|a: u32| ancestors_set_union(classes, sp).contains(a) implies ((full
            + ancestors_set_union(classes, s)) + classes[p].ancestors).contains(a) by {
            let w = choose|w: u32| sp.contains(w) && (#[trigger] classes[w]).ancestors.contains(a);
            if w != p {
                assert(s.contains(w));
            }
        }
        assert forall|a: u32| ancestors_set_union(classes, s).contains(a) implies ancestors_set_union(
            classes,
            sp,
        ).contains(a) by {
            let w = choose|w: u32| s.contains(w) && (#[trigger] classes[w]).ancestors.contains(a);
            assert(sp.contains(w) && classes[w].ancestors.contains(a));
        }
        assert forall|a: u32| classes[p].ancestors.contains(a) implies ancestors_set_union(
            classes,
            sp,
        ).contains(a) by {
            assert(sp.contains(p));
        }
    }
    assert forall|k: Seq<char>|
        #[trigger] m4.accessible.dom().contains(k) == rhs.accessible.dom().contains(k) && (
        m4.accessible.dom().contains(k) ==> m4.accessible[k] == rhs.accessible[k]) by {
        lemma_merge_step_at(classes, id, full, s, p, own, k);
    }
    assert forall|k: Seq<char>|
        #[trigger] m4.clashing.dom().contains(k) == rhs.clashing.dom().contains(k) && (
        m4.clashing.dom().contains(k) ==> m4.clashing[k] == rhs.clashing[k]) by {
        lemma_merge_step_at(classes, id, full, s, p, own, k);
    }
    assert forall|k: Seq<char>|
        #[trigger] m4.shadowed.dom().contains(k) == rhs.shadowed.dom().contains(k) && (
        m4.shadowed.dom().contains(k) ==> m4.shadowed[k] == rhs.shadowed[k]) by {
        lemma_merge_step_at(classes, id, full, s, p, own, k);
    }
    assert(m4.accessible =~= rhs.accessible);
    assert(m4.clashing =~= rhs.clashing);
    assert(m4.shadowed =~= rhs.shadowed);
    assert(m4 =~= rhs);
}

/// The starting state is the closed form over no parents.
proof fn lemma_partial_base(
    classes: Map<u32, MetaModel>,
    id: u32,
    full: Set<u32>,
    own: Map<Seq<char>, Property>,
)
    ensures
        partial_model(classes, id, full, Set::empty(), own) == seed_meta(full, own),
{
    let m = partial_model(classes, id, full, Set::<u32>::empty(), own);
    assert(m.ancestors =~= full) by {
        assert forall|a: u32| !ancestors_set_union(classes, Set::<u32>::empty()).contains(a) by {
            if ancestors_set_union(classes, Set::<u32>::empty()).contains(a) {
                let w = choose|w: u32|
                    Set::<u32>::empty().contains(w) && (#[trigger] classes[w]).ancestors.contains(
                        a,
                    );
            }
        }
    }
    assert(m.accessible =~= own) by {
        assert forall|k: Seq<char>| #![auto] m.accessible.dom().contains(k) == own.dom().contains(
            k,
        ) by {
            if has_acc_contrib(classes, Set::<u32>::empty(), k) {
                let w = choose|w: u32|
                    Set::<u32>::empty().contains(w) && (
                    #[trigger] classes[w]).accessible.dom().contains(k);
            }
        }
    }
    assert(m.clashing =~= Map::<Seq<char>, Set<Property>>::empty()) by {
        assert forall|k: Seq<char>| #![auto] !m.clashing.dom().contains(k) by {
            if has_clash_contrib(classes, Set::<u32>::empty(), k) {
                let w = choose|w: u32|
                    Set::<u32>::empty().contains(w) && (
                    #[trigger] classes[w]).clashing.dom().contains(k);
            }
            if has_acc_contrib(classes, Set::<u32>::empty(), k) {
                let w = choose|w: u32|
                    Set::<u32>::empty().contains(w) && (
                    #[trigger] classes[w]).accessible.dom().contains(k);
            }
        }
    }
    assert(m.shadowed =~= Map::<Seq<char>, Set<Property>>::empty()) by {
        assert forall|k: Seq<char>| #![auto] !m.shadowed.dom().contains(k) by {
            if has_shadow_contrib(classes, Set::<u32>::empty(), k) {
                let w = choose|w: u32|
                    Set::<u32>::empty().contains(w) && (
                    #[trigger] classes[w]).shadowed.dom().contains(k);
            }
            if has_clash_contrib(classes, Set::<u32>::empty(), k) {
                let w = choose|w: u32|
                    Set::<u32>::empty().contains(w) && (
                    #[trigger] classes[w]).clashing.dom().contains(k);
            }
            if has_acc_contrib(classes, Set::<u32>::empty(), k) {
                let w = choose|w: u32|
                    Set::<u32>::empty().contains(w) && (
                    #[trigger] classes[w]).accessible.dom().contains(k);
            }
        }
    }
    assert(m =~= seed_meta(full, own));
}

/// Folding a duplicate-free suffix of parents onto the closed form over the
/// processed set reaches the closed form over their union.
proof fn lemma_resolve_closed_loop(
    classes: Map<u32, MetaModel>,
    id: u32,
    full: Set<u32>,
    s: Set<u32>,
    ps: Seq<u32>,
    own: Map<Seq<char>, Property>,
)
    requires
        ps.no_duplicates(),
        forall|j: int| 0 <= j < ps.len() ==> !s.contains(#[trigger] ps[j]),
        (s + ps.to_set()).subset_of(full),
        sound_inputs(classes, id, s + ps.to_set(), own),
        conflict_free(classes, s + ps.to_set(), own),
    ensures
        resolve_loop(classes, id, ps, partial_model(classes, id, full, s, own)) == partial_model(
            classes,
            id,
            full,
            s + ps.to_set(),
            own,
        ),
    decreases ps.len(),
{
    if ps.len() == 0 {
        assert(s + ps.to_set() =~= s);
    } else {
        let p = ps[0];
        let s1 = s.insert(p);
        assert(ps.to_set().contains(p));
        assert(s1.subset_of(s + ps.to_set()));
        assert(sound_inputs(classes, id, s1, own)) by {
            assert forall|q: u32| s1.contains(q) implies (s + ps.to_set()).contains(q) by {}
        }
        assert(conflict_free(classes, s1, own)) by {
            assert forall|k: Seq<char>| #![auto]
                !own.dom().contains(k) && has_acc_contrib(classes, s1, k) implies !has_clash_contrib(
                classes,
                s1,
                k,
            ) && (single_source(classes, s1, k) || at_most_two(classes, s1, k))
                && consistent_origins(classes, s1, k) by {
                let w = choose|w: u32| s1.contains(w) && (
                #[trigger] classes[w]).accessible.dom().contains(k);
                assert((s + ps.to_set()).contains(w));
                assert(has_acc_contrib(classes, s + ps.to_set(), k));
                if has_clash_contrib(classes, s1, k) {
                    let w2 = choose|w2: u32| s1.contains(w2) && (
                    #[trigger] classes[w2]).clashing.dom().contains(k);
                    assert((s + ps.to_set()).contains(w2));
                    assert(has_clash_contrib(classes, s + ps.to_set(), k));
                }
                if single_source(classes, s + ps.to_set(), k) {
                    assert(single_source(classes, s1, k)) by {
                        assert forall|a: u32, b: u32|
                            s1.contains(a) && s1.contains(b) && (
                            #[trigger] classes[a]).accessible.dom().contains(k) && (
                            #[trigger] classes[b]).accessible.dom().contains(k) implies classes[a].accessible[k].source
                            == classes[b].accessible[k].source by {
                            assert((s + ps.to_set()).contains(a) && (s + ps.to_set()).contains(b));
                        }
                    }
                } else {
                    assert(at_most_two(classes, s + ps.to_set(), k));
                    assert(at_most_two(classes, s1, k)) by {
                        assert forall|a: u32, b: u32, c: u32|
                            s1.contains(a) && s1.contains(b) && s1.contains(c) && (
                            #[trigger] classes[a]).accessible.dom().contains(k) && (
                            #[trigger] classes[b]).accessible.dom().contains(k) && (
                            #[trigger] classes[c]).accessible.dom().contains(k) implies a == b || b
                            == c || a == c by {
                            assert((s + ps.to_set()).contains(a) && (s + ps.to_set()).contains(b)
                                && (s + ps.to_set()).contains(c));
                        }
                    }
                }
                assert(consistent_origins(classes, s1, k)) by {
                    assert forall|a: u32, b: u32|
                        s1.contains(a) && s1.contains(b) && (
                        #[trigger] classes[a]).accessible.dom().contains(k) && (
                        #[trigger] classes[b]).accessible.dom().contains(k)
                            && classes[a].accessible[k].source == classes[b].accessible[k].source implies classes[a].accessible[k]
                        == classes[b].accessible[k] by {
                        assert((s + ps.to_set()).contains(a) && (s + ps.to_set()).contains(b));
                    }
                }
            }
        }
        lemma_merge_step(classes, id, full, s, p, own);
        assert forall|j: int| 0 <= j < ps.drop_first().len() implies !s1.contains(
            #[trigger] ps.drop_first()[j],
        ) by {
            assert(ps.drop_first()[j] == ps[j + 1]);
            if ps.drop_first()[j] == p {
                assert(ps[j + 1] == ps[0]);
            }
        }
        assert(s1 + ps.drop_first().to_set() =~= s + ps.to_set()) by {
            assert forall|q: u32| ps.to_set().contains(q) implies s1.contains(q) || ps.drop_first().to_set().contains(
                q,
            ) by {
                let j = choose|j: int| 0 <= j < ps.len() && ps[j] == q;
                if j > 0 {
                    assert(ps.drop_first()[j - 1] == q);
                }
            }
            assert forall|q: u32| ps.drop_first().to_set().contains(q) implies ps.to_set().contains(
                q,
            ) by {
                let j = choose|j: int| 0 <= j < ps.drop_first().len() && ps.drop_first()[j] == q;
                assert(ps[j + 1] == q);
            }
        }
        lemma_resolve_closed_loop(classes, id, full, s1, ps.drop_first(), own);
    }
}

/// The closed form of a whole resolution: over conflict-free inputs, the
/// effective property table is determined name by name from the set of
/// parents alone.
pub proof fn lemma_resolve_closed(
    classes: Map<u32, MetaModel>,
    id: u32,
    ps: Seq<u32>,
    own: Map<Seq<char>, Property>,
)
    requires
        ps.no_duplicates(),
        sound_inputs(classes, id, ps.to_set(), own),
        conflict_free(classes, ps.to_set(), own),
    ensures
        resolve(classes, id, ps, own) == partial_model(classes, id, ps.to_set(), ps.to_set(), own),
{
    lemma_partial_base(classes, id, ps.to_set(), own);
    assert(Set::<u32>::empty() + ps.to_set() =~= ps.to_set());
    lemma_resolve_closed_loop(classes, id, ps.to_set(), Set::empty(), ps, own);
}

/// The resolution algorithm is order-independent: over conflict-free
/// inputs, two parent lists with the same members produce the same class
/// metadata whatever their order.
pub proof fn lemma_resolution_order_independent(
    classes: Map<u32, MetaModel>,
    id: u32,
    ps1: Seq<u32>,
    ps2: Seq<u32>,
    own: Map<Seq<char>, Property>,
)
    requires
        ps1.no_duplicates(),
        ps2.no_duplicates(),
        ps1.to_set() == ps2.to_set(),
        sound_inputs(classes, id, ps1.to_set(), own),
        conflict_free(classes, ps1.to_set(), own),
    ensures
        resolve(classes, id, ps1, own) == resolve(classes, id, ps2, own),
{
    lemma_resolve_closed(classes, id, ps1, own);
    lemma_resolve_closed(classes, id, ps2, own);
}

/// No name is both accessible and clashing: over conflict-free inputs, the
/// two partitions of a resolved class are disjoint.
pub proof fn lemma_accessible_clashing_exclusive(
    classes: Map<u32, MetaModel>,
    id: u32,
    ps: Seq<u32>,
    own: Map<Seq<char>, Property>,
)
    requires
        ps.no_duplicates(),
        sound_inputs(classes, id, ps.to_set(), own),
        conflict_free(classes, ps.to_set(), own),
    ensures
        forall|k: Seq<char>|
            !(#[trigger] resolve(classes, id, ps, own).accessible.dom().contains(k) && resolve(
                classes,
                id,
                ps,
                own,
            ).clashing.dom().contains(k)),
{
    lemma_resolve_closed(classes, id, ps, own);
}

} // verus!
