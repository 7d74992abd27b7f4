use vstd::prelude::*;

use crate::archetype::EntityId;
use crate::components::{Component, ComponentTypeId};
use crate::world::{EntityPointer, World};

verus! {

broadcast use vstd::seq_lib::group_seq_properties;

/// The archetypes that hold a given set of component types, read from one world. The world
/// stays borrowed while the query lives, so it cannot change under it.
pub struct Query<'a, V> {
    world: &'a World<V>,
    archetypes: Vec<u64>,
    components: Vec<ComponentTypeId>,
}

impl<'a, V> Query<'a, V> {
    pub(crate) fn new(world: &'a World<V>, archetypes: Vec<u64>, components: Vec<ComponentTypeId>) -> (r: Self)
        ensures
            r.world() == world,
            r.archetype_list() == archetypes@,
            r.component_types() == components@,
    {
        Query { world, archetypes, components }
    }

    pub closed spec fn world(&self) -> &'a World<V> {
        self.world
    }

    pub closed spec fn archetype_list(&self) -> Seq<u64> {
        self.archetypes@
    }

    pub closed spec fn component_types(&self) -> Seq<ComponentTypeId> {
        self.components@
    }

    /// Whether entity `e` of the queried world has every queried component type.
    pub open spec fn selects(&self, e: EntityId) -> bool {
        &&& self.world().live().contains(e)
        &&& forall|i: int|
            0 <= i < self.component_types().len() ==> #[trigger] self.world().components(
                e,
            ).contains_key(self.component_types()[i].spec_key())
    }

    /// The identities of the matching archetypes.
    pub fn archetype_ids(&self) -> (r: &Vec<u64>)
        ensures
            r@ == self.archetype_list(),
    {
        &self.archetypes
    }

    /// The (archetype, row) pairs of the matching archetypes, archetype by archetype, each in
    /// row order.
    pub fn rows(&self) -> (r: Vec<EntityPointer>)
        requires
            self.world().wf(),
            self.archetype_list().no_duplicates(),
            forall|k: u64| #[trigger]
                self.archetype_list().contains(k) ==> self.world().archetype_ids().contains(k),
        ensures
            r@.no_duplicates(),
            forall|p: EntityPointer| #[trigger]
                r@.contains(p) <==> (self.archetype_list().contains(p.archetype_id) && p.row_index
                    < self.world().rows_of(p.archetype_id).len()),
    {
        let world = self.world;
        let ghost list = self.archetypes@;
        let mut out: Vec<EntityPointer> = Vec::new();
        let mut a: usize = 0;
        while a < self.archetypes.len()
            invariant
                world == self.world,
                world.wf(),
                list == self.archetypes@,
                list.no_duplicates(),
                a <= list.len(),
                forall|k: u64| #[trigger] list.contains(k) ==> world.archetype_ids().contains(k),
                out@.no_duplicates(),
                forall|p: EntityPointer| #[trigger]
                    out@.contains(p) <==> ((exists|b: int| 0 <= b < a && list[b] == p.archetype_id)
                        && p.row_index < world.rows_of(p.archetype_id).len()),
            decreases list.len() - a,
        {
            let k = self.archetypes[a];
            assert(list.contains(k));
            let n = match world.archetype_entities(k) {
                Some(ids) => ids.len(),
                None => {
                    assert(false);
                    return out;
                },
            };
            let mut r: usize = 0;
            while r < n
                invariant
                    world == self.world,
                    list == self.archetypes@,
                    list.no_duplicates(),
                    a < list.len(),
                    k == list[a as int],
                    n == world.rows_of(k).len(),
                    r <= n,
                    out@.no_duplicates(),
                    forall|p: EntityPointer| #[trigger]
                        out@.contains(p) <==> (((exists|b: int| 0 <= b < a && list[b] == p.archetype_id)
                            && p.row_index < world.rows_of(p.archetype_id).len()) || (p.archetype_id == k
                            && p.row_index < r)),
                decreases n - r,
            {
                let p = EntityPointer { archetype_id: k, row_index: r };
                proof {
                    assert(!out@.contains(p)) by {
                        if exists|b: int| 0 <= b < a && list[b] == k {
                            let b = choose|b: int| 0 <= b < a && list[b] == k;
                            assert(list[b] == list[a as int]);
                        }
                    }
                }
                out.push(p);
                r = r + 1;
            }
            proof {
                assert forall|p: EntityPointer| #[trigger]
                    out@.contains(p) <==> ((exists|b: int| 0 <= b < a + 1 && list[b] == p.archetype_id)
                        && p.row_index < world.rows_of(p.archetype_id).len()) by {
                    if exists|b: int| 0 <= b < a + 1 && list[b] == p.archetype_id {
                        let b = choose|b: int| 0 <= b < a + 1 && list[b] == p.archetype_id;
                        if b == a {
                        }
                    }
                }
            }
            a = a + 1;
        }
        proof {
            assert forall|p: EntityPointer| #[trigger]
                out@.contains(p) <==> (list.contains(p.archetype_id) && p.row_index
                    < world.rows_of(p.archetype_id).len()) by {
                if list.contains(p.archetype_id) {
                    let b = choose|b: int| 0 <= b < list.len() && list[b] == p.archetype_id;
                }
            }
        }
        out
    }

    /// The entities of the matching archetypes, archetype by archetype, each in row order.
    pub fn entities(&self) -> (r: Vec<EntityId>)
        requires
            self.world().wf(),
            self.component_types().len() >= 1,
            self.archetype_list().no_duplicates(),
            forall|k: u64| #[trigger]
                self.archetype_list().contains(k) <==> self.world().listed_for_all(
                    k,
                    self.component_types().map_values(|c: ComponentTypeId| c.spec_key()),
                ),
        ensures
            r@.no_duplicates(),
            forall|e: EntityId| #[trigger] r@.contains(e) <==> self.selects(e),
    {
        let world = self.world;
        let ghost list = self.archetypes@;
        let mut out: Vec<EntityId> = Vec::new();
        proof {
            world.lemma_reverse_index_exact();
            let keys = self.component_types().map_values(|c: ComponentTypeId| c.spec_key());
            assert forall|k: u64| #[trigger] list.contains(k) implies world.archetype_ids().contains(k) by {
                assert(world.reverse_index(keys[0]).contains(k));
            }
        }
        let mut a: usize = 0;
        while a < self.archetypes.len()
            invariant
                world == self.world,
                world.wf(),
                list == self.archetypes@,
                list.no_duplicates(),
                a <= list.len(),
                forall|k: u64| #[trigger] list.contains(k) ==> world.archetype_ids().contains(k),
                out@.no_duplicates(),
                forall|e: EntityId| #[trigger]
                    out@.contains(e) <==> (world.live().contains(e) && exists|b: int|
                        0 <= b < a && list[b] == world.archetype_of(e)),
            decreases list.len() - a,
        {
            let k = self.archetypes[a];
            assert(list.contains(k));
            let rows = match world.archetype_entities(k) {
                Some(rows) => rows,
                None => {
                    assert(false);
                    return out;
                },
            };
            let mut r: usize = 0;
            while r < rows.len()
                invariant
                    world == self.world,
                    world.wf(),
                    list == self.archetypes@,
                    list.no_duplicates(),
                    a < list.len(),
                    k == list[a as int],
                    world.archetype_ids().contains(k),
                    rows@ == world.rows_of(k),
                    r <= rows@.len(),
                    out@.no_duplicates(),
                    forall|e: EntityId| #[trigger]
                        out@.contains(e) <==> (world.live().contains(e) && ((exists|b: int|
                            0 <= b < a && list[b] == world.archetype_of(e)) || (world.archetype_of(e)
                            == k && world.pointer(e).row_index < r))),
                decreases rows@.len() - r,
            {
                let e = rows[r];
                proof {
                    world.lemma_rows_registered(k, r as int);
                    assert(!out@.contains(e)) by {
                        if exists|b: int| 0 <= b < a && list[b] == world.archetype_of(e) {
                            let b = choose|b: int| 0 <= b < a && list[b] == world.archetype_of(e);
                            assert(list[b] == list[a as int]);
                        }
                    }
                }
                out.push(e);
                proof {
                    assert forall|f: EntityId| #[trigger]
                        out@.contains(f) <==> (world.live().contains(f) && ((exists|b: int|
                            0 <= b < a && list[b] == world.archetype_of(f)) || (world.archetype_of(f)
                            == k && world.pointer(f).row_index < r + 1))) by {
                        if world.live().contains(f) && world.archetype_of(f) == k
                            && world.pointer(f).row_index == r {
                            world.lemma_pointers_resolve(f);
                            assert(f == e);
                        }
                    }
                }
                r = r + 1;
            }
            proof {
                assert forall|f: EntityId| #[trigger]
                    out@.contains(f) <==> (world.live().contains(f) && exists|b: int|
                        0 <= b < a + 1 && list[b] == world.archetype_of(f)) by {
                    if world.live().contains(f) && world.archetype_of(f) == k {
                        world.lemma_pointers_resolve(f);
                    }
                    if world.live().contains(f) && exists|b: int|
                        0 <= b < a + 1 && list[b] == world.archetype_of(f) {
                        let b = choose|b: int| 0 <= b < a + 1 && list[b] == world.archetype_of(f);
                        if b < a {
                        } else {
                            assert(world.archetype_of(f) == k);
                            world.lemma_pointers_resolve(f);
                        }
                    }
                }
            }
            a = a + 1;
        }
        proof {
            let keys = self.component_types().map_values(|c: ComponentTypeId| c.spec_key());
            assert forall|e: EntityId| #[trigger] out@.contains(e) <==> self.selects(e) by {
                if world.live().contains(e) {
                    let k = world.archetype_of(e);
                    world.lemma_pointers_resolve(e);
                    assert(list.contains(k) <==> world.listed_for_all(k, keys));
                    if list.contains(k) {
                        let b = choose|b: int| 0 <= b < list.len() && list[b] == k;
                        assert forall|i: int| 0 <= i < self.component_types().len() implies #[trigger] world.components(
                            e,
                        ).contains_key(self.component_types()[i].spec_key()) by {
                            assert(keys[i] == self.component_types()[i].spec_key());
                            assert(world.reverse_index(keys[i]).contains(k));
                        }
                    }
                    if self.selects(e) {
                        assert forall|i: int| 0 <= i < keys.len() implies #[trigger] world.reverse_index(
                            keys[i],
                        ).contains(k) by {
                            assert(keys[i] == self.component_types()[i].spec_key());
                            assert(world.components(e).contains_key(self.component_types()[i].spec_key()));
                        }
                        assert(list.contains(k));
                        let b = choose|b: int| 0 <= b < list.len() && list[b] == k;
                    }
                }
            }
        }
        out
    }
}

/// A tuple of component types that can be queried together.
pub trait IntoQuery {
    /// The archetypes of `world` that hold every component type of the tuple.
    fn query<V>(world: &World<V>) -> (r: Query<'_, V>)
        requires
            world.wf(),
        ensures
            r.world() == world,
            r.component_types().len() >= 1,
            r.archetype_list().no_duplicates(),
            forall|k: u64| #[trigger]
                r.archetype_list().contains(k) <==> world.listed_for_all(
                    k,
                    r.component_types().map_values(|c: ComponentTypeId| c.spec_key()),
                ),
            forall|k: u64| #[trigger]
                r.archetype_list().contains(k) <==> (world.archetype_ids().contains(k) && forall|i: int|
                    0 <= i < r.component_types().len() ==> #[trigger] world.types_of(k).contains(
                        r.component_types()[i].spec_key(),
                    )),
    ;
}

impl<A: Component> IntoQuery for (A,) {
    fn query<V>(world: &World<V>) -> (r: Query<'_, V>) {
        let types = vec![
            ComponentTypeId::of::<A>(),
        ];
        world.query(types.as_slice())
    }
}

impl<A: Component, B: Component> IntoQuery for (A, B) {
    fn query<V>(world: &World<V>) -> (r: Query<'_, V>) {
        let types = vec![
            ComponentTypeId::of::<A>(),
            ComponentTypeId::of::<B>(),
        ];
        world.query(types.as_slice())
    }
}

impl<A: Component, B: Component, C: Component> IntoQuery for (A, B, C) {
    fn query<V>(world: &World<V>) -> (r: Query<'_, V>) {
        let types = vec![
            ComponentTypeId::of::<A>(),
            ComponentTypeId::of::<B>(),
            ComponentTypeId::of::<C>(),
        ];
        world.query(types.as_slice())
    }
}

impl<A: Component, B: Component, C: Component, D: Component> IntoQuery for (A, B, C, D) {
    fn query<V>(world: &World<V>) -> (r: Query<'_, V>) {
        let types = vec![
            ComponentTypeId::of::<A>(),
            ComponentTypeId::of::<B>(),
            ComponentTypeId::of::<C>(),
            ComponentTypeId::of::<D>(),
        ];
        world.query(types.as_slice())
    }
}

impl<A: Component, B: Component, C: Component, D: Component, E: Component> IntoQuery for (A, B, C, D, E) {
    fn query<V>(world: &World<V>) -> (r: Query<'_, V>) {
        let types = vec![
            ComponentTypeId::of::<A>(),
            ComponentTypeId::of::<B>(),
            ComponentTypeId::of::<C>(),
            ComponentTypeId::of::<D>(),
            ComponentTypeId::of::<E>(),
        ];
        world.query(types.as_slice())
    }
}

impl<A: Component, B: Component, C: Component, D: Component, E: Component, F: Component> IntoQuery for (A, B, C, D, E, F) {
    fn query<V>(world: &World<V>) -> (r: Query<'_, V>) {
        let types = vec![
            ComponentTypeId::of::<A>(),
            ComponentTypeId::of::<B>(),
            ComponentTypeId::of::<C>(),
            ComponentTypeId::of::<D>(),
            ComponentTypeId::of::<E>(),
            ComponentTypeId::of::<F>(),
        ];
        world.query(types.as_slice())
    }
}

impl<A: Component, B: Component, C: Component, D: Component, E: Component, F: Component, G: Component> IntoQuery for (A, B, C, D, E, F, G) {
    fn query<V>(world: &World<V>) -> (r: Query<'_, V>) {
        let types = vec![
            ComponentTypeId::of::<A>(),
            ComponentTypeId::of::<B>(),
            ComponentTypeId::of::<C>(),
            ComponentTypeId::of::<D>(),
            ComponentTypeId::of::<E>(),
            ComponentTypeId::of::<F>(),
            ComponentTypeId::of::<G>(),
        ];
        world.query(types.as_slice())
    }
}

impl<A: Component, B: Component, C: Component, D: Component, E: Component, F: Component, G: Component, H: Component> IntoQuery for (A, B, C, D, E, F, G, H) {
    fn query<V>(world: &World<V>) -> (r: Query<'_, V>) {
        let types = vec![
            ComponentTypeId::of::<A>(),
            ComponentTypeId::of::<B>(),
            ComponentTypeId::of::<C>(),
            ComponentTypeId::of::<D>(),
            ComponentTypeId::of::<E>(),
            ComponentTypeId::of::<F>(),
            ComponentTypeId::of::<G>(),
            ComponentTypeId::of::<H>(),
        ];
        world.query(types.as_slice())
    }
}

impl<A: Component, B: Component, C: Component, D: Component, E: Component, F: Component, G: Component, H: Component, I: Component> IntoQuery for (A, B, C, D, E, F, G, H, I) {
    fn query<V>(world: &World<V>) -> (r: Query<'_, V>) {
        let types = vec![
            ComponentTypeId::of::<A>(),
            ComponentTypeId::of::<B>(),
            ComponentTypeId::of::<C>(),
            ComponentTypeId::of::<D>(),
            ComponentTypeId::of::<E>(),
            ComponentTypeId::of::<F>(),
            ComponentTypeId::of::<G>(),
            ComponentTypeId::of::<H>(),
            ComponentTypeId::of::<I>(),
        ];
        world.query(types.as_slice())
    }
}

impl<A: Component, B: Component, C: Component, D: Component, E: Component, F: Component, G: Component, H: Component, I: Component, J: Component> IntoQuery for (A, B, C, D, E, F, G, H, I, J) {
    fn query<V>(world: &World<V>) -> (r: Query<'_, V>) {
        let types = vec![
            ComponentTypeId::of::<A>(),
            ComponentTypeId::of::<B>(),
            ComponentTypeId::of::<C>(),
            ComponentTypeId::of::<D>(),
            ComponentTypeId::of::<E>(),
            ComponentTypeId::of::<F>(),
            ComponentTypeId::of::<G>(),
            ComponentTypeId::of::<H>(),
            ComponentTypeId::of::<I>(),
            ComponentTypeId::of::<J>(),
        ];
        world.query(types.as_slice())
    }
}

impl<A: Component, B: Component, C: Component, D: Component, E: Component, F: Component, G: Component, H: Component, I: Component, J: Component, K: Component> IntoQuery for (A, B, C, D, E, F, G, H, I, J, K) {
    fn query<V>(world: &World<V>) -> (r: Query<'_, V>) {
        let types = vec![
            ComponentTypeId::of::<A>(),
            ComponentTypeId::of::<B>(),
            ComponentTypeId::of::<C>(),
            ComponentTypeId::of::<D>(),
            ComponentTypeId::of::<E>(),
            ComponentTypeId::of::<F>(),
            ComponentTypeId::of::<G>(),
            ComponentTypeId::of::<H>(),
            ComponentTypeId::of::<I>(),
            ComponentTypeId::of::<J>(),
            ComponentTypeId::of::<K>(),
        ];
        world.query(types.as_slice())
    }
}

impl<A: Component, B: Component, C: Component, D: Component, E: Component, F: Component, G: Component, H: Component, I: Component, J: Component, K: Component, L: Component> IntoQuery for (A, B, C, D, E, F, G, H, I, J, K, L) {
    fn query<V>(world: &World<V>) -> (r: Query<'_, V>) {
        let types = vec![
            ComponentTypeId::of::<A>(),
            ComponentTypeId::of::<B>(),
            ComponentTypeId::of::<C>(),
            ComponentTypeId::of::<D>(),
            ComponentTypeId::of::<E>(),
            ComponentTypeId::of::<F>(),
            ComponentTypeId::of::<G>(),
            ComponentTypeId::of::<H>(),
            ComponentTypeId::of::<I>(),
            ComponentTypeId::of::<J>(),
            ComponentTypeId::of::<K>(),
            ComponentTypeId::of::<L>(),
        ];
        world.query(types.as_slice())
    }
}

} // verus!
