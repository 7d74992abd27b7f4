use vstd::prelude::*;

use crate::archetype::EntityId;
use crate::error::EcsError;
use crate::world::{next_identity, set_identity, set_outcome, World};

verus! {

/// A successful `set_component` leaves the entity live with exactly the value that was set.
pub proof fn lemma_round_trip<V>(
    before: World<V>,
    after: World<V>,
    id: EntityId,
    key: u64,
    value: V,
    r: Result<Option<V>, EcsError>,
)
    requires
        set_outcome(before, after, id, key, value, r),
        r is Ok,
    ensures
        after.live().contains(id),
        after.components(id).contains_key(key),
        after.components(id)[key] == value,
{
}

/// Setting the same component type twice: the second call overwrites in place. It hands back
/// the first value and keeps every archetype, every row and every pointer; the entity then
/// holds the second value.
pub proof fn lemma_overwrite_in_place<V>(
    w0: World<V>,
    w1: World<V>,
    w2: World<V>,
    id: EntityId,
    key: u64,
    first: V,
    second: V,
    r1: Result<Option<V>, EcsError>,
    r2: Result<Option<V>, EcsError>,
)
    requires
        set_outcome(w0, w1, id, key, first, r1),
        r1 is Ok,
        set_outcome(w1, w2, id, key, second, r2),
    ensures
        r2 == Ok::<Option<V>, EcsError>(Some(first)),
        w2.archetype_ids() == w1.archetype_ids(),
        forall|k: u64| #[trigger] w2.rows_of(k) == w1.rows_of(k),
        forall|e: EntityId| #[trigger] w1.live().contains(e) ==> w2.pointer(e) == w1.pointer(e),
        w2.components(id)[key] == second,
{
    assert(w1.components(id).contains_key(key));
    assert(w1.types_of(w1.archetype_of(id)).contains(key));
}

/// Archetype identities do not depend on the order in which component types are added.
pub proof fn lemma_identity_order_independent(start: u64, a: u64, b: u64)
    ensures
        next_identity(next_identity(start, a), b) == next_identity(next_identity(start, b), a),
{
    let da = crate::components::spec_digest(a);
    let db = crate::components::spec_digest(b);
    assert((start ^ da) ^ db == (start ^ db) ^ da) by (bit_vector);
}

/// An entity that gains component types `a` and `b` ends in the same archetype, with the same
/// type set and the same values, whichever of the two it gains first.
pub proof fn lemma_add_order_independent<V>(
    w0: World<V>,
    w1: World<V>,
    w2: World<V>,
    u1: World<V>,
    u2: World<V>,
    id: EntityId,
    a: u64,
    b: u64,
    va: V,
    vb: V,
    r1: Result<Option<V>, EcsError>,
    r2: Result<Option<V>, EcsError>,
    s1: Result<Option<V>, EcsError>,
    s2: Result<Option<V>, EcsError>,
)
    requires
        w0.wf(),
        a != b,
        !w0.components(id).contains_key(a),
        !w0.components(id).contains_key(b),
        set_outcome(w0, w1, id, a, va, r1),
        r1 is Ok,
        set_outcome(w1, w2, id, b, vb, r2),
        r2 is Ok,
        set_outcome(w0, u1, id, b, vb, s1),
        s1 is Ok,
        set_outcome(u1, u2, id, a, va, s2),
        s2 is Ok,
    ensures
        w2.archetype_of(id) == u2.archetype_of(id),
        w2.types_of(w2.archetype_of(id)) == u2.types_of(u2.archetype_of(id)),
        w2.components(id) == u2.components(id),
{
    let x = w0.archetype_of(id);
    assert(!w1.components(id).contains_key(b));
    assert(!u1.components(id).contains_key(a));
    lemma_identity_order_independent(x, a, b);
    assert(w2.types_of(w2.archetype_of(id)) =~= u2.types_of(u2.archetype_of(id)));
    assert(w2.components(id) =~= u2.components(id));
}

/// A `set_component` that moves entity `id` out of its archetype vacates one row there: the
/// entity that was last in that archetype (when it is another one) takes over `id`'s row, and
/// the archetype has one member less.
pub proof fn lemma_swap_remove_fixup<V>(
    before: World<V>,
    after: World<V>,
    id: EntityId,
    key: u64,
    value: V,
    r: Result<Option<V>, EcsError>,
)
    requires
        before.wf(),
        set_outcome(before, after, id, key, value, r),
        r == Ok::<Option<V>, EcsError>(None),
    ensures
        ({
            let x = before.archetype_of(id);
            let last = before.rows_of(x).last();
            &&& last != id ==> after.pointer(last) == before.pointer(id)
            &&& after.rows_of(x).len() == before.rows_of(x).len() - 1
            &&& after.archetype_of(id) != x
        }),
{
    let x = before.archetype_of(id);
    assert(!before.components(id).contains_key(key));
    before.lemma_pointers_resolve(id);
    assert(before.types_of(x).insert(key).contains(key));
}

/// What a query selects: for one type, the archetypes of its reverse-index entry; for two
/// types, the intersection of their entries; and an archetype missing from the first type's
/// entry (for instance because that type has no entry) is never selected. The entries list
/// exactly the archetypes that hold the type.
pub proof fn lemma_query_selection<V>(w: World<V>, k: u64, a: u64, b: u64)
    requires
        w.wf(),
    ensures
        w.listed_for_all(k, seq![a]) <==> w.reverse_index(a).contains(k),
        w.listed_for_all(k, seq![a, b]) <==> w.reverse_index(a).intersect(w.reverse_index(b)).contains(
            k,
        ),
        !w.reverse_index(a).contains(k) ==> !w.listed_for_all(k, seq![a]) && !w.listed_for_all(
            k,
            seq![a, b],
        ),
        w.reverse_index(a).contains(k) <==> (w.archetype_ids().contains(k) && w.types_of(k).contains(
            a,
        )),
{
    w.lemma_reverse_index_exact();
    let one = seq![a];
    let two = seq![a, b];
    assert(one[0] == a);
    assert(two[0] == a && two[1] == b);
    if w.reverse_index(a).contains(k) && w.reverse_index(b).contains(k) {
        assert forall|i: int| 0 <= i < two.len() implies #[trigger] w.reverse_index(two[i]).contains(
            k,
        ) by {}
    }
    if w.reverse_index(a).contains(k) {
        assert forall|i: int| 0 <= i < one.len() implies #[trigger] w.reverse_index(one[i]).contains(
            k,
        ) by {}
    }
}

/// Two archetypes with the same component-type set are one and the same archetype.
pub proof fn lemma_one_archetype_per_type_set<V>(w: World<V>, k1: u64, k2: u64)
    requires
        w.wf(),
        w.archetype_ids().contains(k1),
        w.archetype_ids().contains(k2),
        w.types_of(k1) == w.types_of(k2),
    ensures
        k1 == k2,
{
    w.lemma_identity_of_types(k1);
    w.lemma_identity_of_types(k2);
}

/// A live entity's archetype identity is the identity of the set of its component types, so
/// it does not depend on the order in which the types were added.
pub proof fn lemma_entity_identity<V>(w: World<V>, e: EntityId)
    requires
        w.wf(),
        w.live().contains(e),
    ensures
        w.archetype_of(e) == set_identity(w.components(e).dom()),
{
    w.lemma_pointers_resolve(e);
    w.lemma_identity_of_types(w.archetype_of(e));
    assert(w.components(e).dom() =~= w.types_of(w.archetype_of(e)));
}

} // verus!
