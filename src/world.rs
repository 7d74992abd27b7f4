use vstd::prelude::*;
use std::collections::{HashMap, HashSet};

use crate::archetype::{Archetype, EntityId};
use crate::column::swap_removed;
use crate::components::{spec_digest, ComponentTypeId};
use crate::query::Query;
use crate::error::EcsError;
use vstd::std_specs::iter::IteratorSpec;

verus! {

broadcast use {vstd::std_specs::hash::group_hash_axioms, vstd::seq_lib::group_seq_properties};

/// Identity of the archetype of entities that have no component.
pub const VOID_ARCHETYPE: u64 = 0xffff_ffff_ffff_ffff;

/// Where a live entity's data is: an archetype and a row in it.
#[derive(Clone, Copy, Debug, PartialEq, Eq, Structural)]
pub struct EntityPointer {
    pub archetype_id: u64,
    pub row_index: usize,
}

/// Identity of the archetype reached from `archetype_id` by adding the type with key `key`.
pub open spec fn next_identity(archetype_id: u64, key: u64) -> u64 {
    archetype_id ^ spec_digest(key)
}

/// One step of the identity fold: the identity after adding type key `key`.
pub open spec fn identity_step() -> spec_fn(u64, u64) -> u64 {
    |archetype_id: u64, key: u64| next_identity(archetype_id, key)
}

/// The identity of the archetype with type-key set `types`: the void identity with the digest
/// of every key XORed in.
pub open spec fn set_identity(types: Set<u64>) -> u64 {
    types.fold(VOID_ARCHETYPE, identity_step())
}

/// XOR-ing digests in commutes, so the fold does not depend on the order of the keys.
pub proof fn lemma_identity_step_commutative()
    ensures
        vstd::set::fold::is_fun_commutative(identity_step()),
{
    assert forall|a1: u64, a2: u64, b: u64| #[trigger]
        identity_step()(identity_step()(b, a2), a1) == identity_step()(identity_step()(b, a1), a2) by {
        let d1 = spec_digest(a1);
        let d2 = spec_digest(a2);
        assert((b ^ d2) ^ d1 == (b ^ d1) ^ d2) by (bit_vector);
    }
}

/// The identity of a type set with one more key is the old identity with that key's digest
/// XORed in: the incremental step that migration uses.
pub proof fn lemma_set_identity_insert(types: Set<u64>, key: u64)
    requires
        types.finite(),
        !types.contains(key),
    ensures
        set_identity(types.insert(key)) == next_identity(set_identity(types), key),
{
    lemma_identity_step_commutative();
    vstd::set::fold::lemma_fold_insert(types, VOID_ARCHETYPE, identity_step(), key);
}

/// The archetype ids that a reverse index lists for type key `t`; none when `t` has no entry.
pub open spec fn index_set(m: Map<u64, HashSet<u64>>, t: u64) -> Set<u64> {
    if m.contains_key(t) {
        m[t]@
    } else {
        Set::<u64>::empty()
    }
}

/// Adds `archetype_id` to the reverse-index entry of every type in `types`.
fn register_archetype(
    index: &mut HashMap<u64, HashSet<u64>>,
    types: &Vec<ComponentTypeId>,
    archetype_id: u64,
)
    ensures
        forall|t: u64| #[trigger]
            index_set(final(index)@, t) == if types@.map_values(
                |c: ComponentTypeId| c.spec_key(),
            ).contains(t) {
                index_set(old(index)@, t).insert(archetype_id)
            } else {
                index_set(old(index)@, t)
            },
{
    let ghost keys = types@.map_values(|c: ComponentTypeId| c.spec_key());
    let n = types.len();
    let mut j: usize = 0;
    while j < n
        invariant
            n == types@.len(),
            j <= n,
            keys == types@.map_values(|c: ComponentTypeId| c.spec_key()),
            forall|t: u64| #[trigger]
                index_set(index@, t) == if keys.subrange(0, j as int).contains(t) {
                    index_set(old(index)@, t).insert(archetype_id)
                } else {
                    index_set(old(index)@, t)
                },
        decreases n - j,
    {
        let key = types[j].type_id();
        let ghost before = index@;
        assert(keys[j as int] == key);
        assert(keys.subrange(0, j + 1) =~= keys.subrange(0, j as int).push(key));
        match index.remove(&key) {
            Some(set) => {
                let mut set = set;
                set.insert(archetype_id);
                index.insert(key, set);
            },
            None => {
                let mut set: HashSet<u64> = HashSet::new();
                set.insert(archetype_id);
                index.insert(key, set);
            },
        }
        assert(index_set(index@, key) =~= index_set(before, key).insert(archetype_id));
        assert forall|t: u64| #[trigger]
            index_set(index@, t) == if keys.subrange(0, j + 1).contains(t) {
                index_set(old(index)@, t).insert(archetype_id)
            } else {
                index_set(old(index)@, t)
            } by {
            if t == key {
                assert(index_set(index@, t) =~= index_set(old(index)@, t).insert(archetype_id));
            } else {
                assert(index_set(index@, t) == index_set(before, t));
            }
        }
        j = j + 1;
    }
    assert(keys.subrange(0, n as int) =~= keys);
}

/// What `set_component(id, ty, component)` with `key` the key of `ty` does, taking world
/// `before` to world `after` and returning `r`.
pub open spec fn set_outcome<V>(
    before: World<V>,
    after: World<V>,
    id: EntityId,
    key: u64,
    component: V,
    r: Result<Option<V>, EcsError>,
) -> bool {
    let present = before.components(id).contains_key(key);
    let x = before.archetype_of(id);
    let dest = before.destination(id, key);
    let last = before.rows_of(x).last();
    &&& !before.live().contains(id) ==> r == Err::<Option<V>, EcsError>(EcsError::EntityNotFound)
        && after == before
    &&& before.live().contains(id) && before.identity_collides(id, key) ==> r == Err::<
        Option<V>,
        EcsError,
    >(EcsError::ArchetypeInvariantViolation) && after == before
    &&& before.live().contains(id) && !before.identity_collides(id, key) ==> {
        &&& r == Ok::<Option<V>, EcsError>(
            if present {
                Some(before.components(id)[key])
            } else {
                None
            },
        )
        &&& after.live() == before.live()
        &&& after.next_id() == before.next_id()
        &&& after.components(id) == before.components(id).insert(key, component)
        &&& forall|e: EntityId| #[trigger]
            before.live().contains(e) && e != id ==> after.components(e) == before.components(e)
        &&& forall|k: u64| #[trigger]
            before.archetype_ids().contains(k) ==> after.types_of(k) == before.types_of(k)
        &&& present ==> {
            &&& after.archetype_ids() == before.archetype_ids()
            &&& forall|k: u64| #[trigger] after.rows_of(k) == before.rows_of(k)
            &&& forall|e: EntityId| #[trigger]
                before.live().contains(e) ==> after.pointer(e) == before.pointer(e)
            &&& forall|t: u64| #[trigger] after.reverse_index(t) == before.reverse_index(t)
        }
        &&& !present ==> {
            &&& after.archetype_of(id) == dest
            &&& after.archetype_ids() == before.archetype_ids().insert(dest)
            &&& after.types_of(dest) == before.types_of(x).insert(key)
            &&& after.rows_of(x) == swap_removed(before.rows_of(x), before.pointer(id).row_index as int)
            &&& after.rows_of(dest) == (if before.archetype_ids().contains(dest) {
                before.rows_of(dest)
            } else {
                Seq::<EntityId>::empty()
            }).push(id)
            &&& forall|k: u64| #![trigger after.rows_of(k)]
                k != x && k != dest ==> after.rows_of(k) == before.rows_of(k)
            &&& last != id ==> after.pointer(last) == before.pointer(id)
            &&& forall|e: EntityId| #[trigger]
                before.live().contains(e) && e != id && e != last ==> after.pointer(e)
                    == before.pointer(e)
            &&& forall|t: u64| #[trigger]
                after.reverse_index(t) == if after.types_of(dest).contains(t) {
                    before.reverse_index(t).insert(dest)
                } else {
                    before.reverse_index(t)
                }
        }
    }
}

/// Entities, their components grouped by exact component-type set, and a reverse index from
/// each component type to the archetypes that hold it.
///
/// Component values have type `V`, typically an enum with one variant per kind of component;
/// every value is stored under the `ComponentTypeId` that the caller names for it, and the
/// columns check that id on each typed access.
pub struct World<V> {
    archetypes: HashMap<u64, Archetype<V>>,
    archetype_sets: HashMap<u64, HashSet<u64>>,
    entities: HashMap<EntityId, EntityPointer>,
    entity_count: u32,
}

impl<V> World<V> {
    /// The ids of the live entities.
    pub closed spec fn live(&self) -> Set<EntityId> {
        self.entities@.dom()
    }

    /// The registry entry of entity `e`.
    pub closed spec fn pointer(&self, e: EntityId) -> EntityPointer {
        self.entities@[e]
    }

    /// The identities of the archetypes that exist.
    pub closed spec fn archetype_ids(&self) -> Set<u64> {
        self.archetypes@.dom()
    }

    /// The archetype with identity `k`.
    pub closed spec fn archetype(&self, k: u64) -> Archetype<V> {
        self.archetypes@[k]
    }

    /// The archetypes that the reverse index lists for type key `t`.
    pub closed spec fn reverse_index(&self, t: u64) -> Set<u64> {
        index_set(self.archetype_sets@, t)
    }

    /// The id that the next new entity receives.
    pub closed spec fn next_id(&self) -> u32 {
        self.entity_count
    }

    pub open spec fn rows_of(&self, k: u64) -> Seq<EntityId> {
        self.archetype(k).rows()
    }

    pub open spec fn types_of(&self, k: u64) -> Set<u64> {
        self.archetype(k).type_set()
    }

    pub open spec fn archetype_of(&self, e: EntityId) -> u64 {
        self.pointer(e).archetype_id
    }

    /// The components of entity `e`, by type key.
    pub open spec fn components(&self, e: EntityId) -> Map<u64, V> {
        let p = self.pointer(e);
        Map::new(
            |t: u64| self.types_of(p.archetype_id).contains(t),
            |t: u64| self.archetype(p.archetype_id).column_values(t)[p.row_index as int],
        )
    }

    /// Whether the registry entry of `e` names an existing archetype and a row of it that
    /// stores `e`.
    pub open spec fn resolves(&self, e: EntityId) -> bool {
        let p = self.pointer(e);
        &&& self.archetype_ids().contains(p.archetype_id)
        &&& p.row_index < self.rows_of(p.archetype_id).len()
        &&& self.rows_of(p.archetype_id)[p.row_index as int] == e
    }

    /// The archetype that `set_component` moves `e` to when it gains type key `key`.
    pub open spec fn destination(&self, e: EntityId, key: u64) -> u64 {
        next_identity(self.archetype_of(e), key)
    }

    /// Adding type key `key` to `e` leads to an identity that an archetype with another
    /// type set already has.
    pub open spec fn identity_collides(&self, e: EntityId, key: u64) -> bool {
        let dest = self.destination(e, key);
        &&& !self.types_of(self.archetype_of(e)).contains(key)
        &&& self.archetype_ids().contains(dest)
        &&& self.types_of(dest) != self.types_of(self.archetype_of(e)).insert(key)
    }

    pub closed spec fn wf(&self) -> bool {
        &&& self.archetypes@.contains_key(VOID_ARCHETYPE)
        &&& self.archetypes@[VOID_ARCHETYPE].type_set() == Set::<u64>::empty()
        &&& forall|k: u64| #[trigger] self.archetypes@.contains_key(k) ==> self.archetypes@[k].wf()
        &&& forall|k: u64| #[trigger]
            self.archetypes@.contains_key(k) ==> k == set_identity(self.archetypes@[k].type_set())
        &&& forall|e: EntityId| #[trigger] self.entities@.contains_key(e) ==> self.resolves(e)
        &&& forall|k: u64, i: int|
            self.archetypes@.contains_key(k) && 0 <= i < self.archetypes@[k].rows().len() ==> {
                let e = #[trigger] self.archetypes@[k].rows()[i];
                &&& self.entities@.contains_key(e)
                &&& self.entities@[e] == EntityPointer { archetype_id: k, row_index: i as usize }
            }
        &&& forall|e: EntityId| #[trigger] self.entities@.contains_key(e) ==> e < self.entity_count
        &&& forall|t: u64, k: u64|
            #![trigger index_set(self.archetype_sets@, t).contains(k)]
            #![trigger self.archetypes@[k].type_set().contains(t)]
            index_set(self.archetype_sets@, t).contains(k) <==> (self.archetypes@.contains_key(k)
                && self.archetypes@[k].type_set().contains(t))
    }

    /// A world holding only the empty archetype.
    pub fn init() -> (r: Self)
        ensures
            r.wf(),
            r.live() == Set::<EntityId>::empty(),
            r.archetype_ids() == set![VOID_ARCHETYPE],
            r.types_of(VOID_ARCHETYPE) == Set::<u64>::empty(),
            r.next_id() == 0,
            forall|t: u64| #[trigger] r.reverse_index(t) == Set::<u64>::empty(),
    {
        let mut archetypes: HashMap<u64, Archetype<V>> = HashMap::new();
        archetypes.insert(VOID_ARCHETYPE, Archetype::empty());
        let r = World {
            archetypes,
            archetype_sets: HashMap::new(),
            entities: HashMap::new(),
            entity_count: 0,
        };
        assert(r.archetype_ids() =~= set![VOID_ARCHETYPE]);
        proof {
            vstd::set::fold::lemma_fold_empty(VOID_ARCHETYPE, identity_step());
        }
        assert(r.live() =~= Set::<EntityId>::empty());
        r
    }

    /// Creates an entity with no component, in the empty archetype.
    pub fn new_entity(&mut self) -> (r: EntityId)
        requires
            old(self).wf(),
            old(self).next_id() < u32::MAX,
        ensures
            final(self).wf(),
            r == old(self).next_id(),
            final(self).next_id() == old(self).next_id() + 1,
            !old(self).live().contains(r),
            final(self).live() == old(self).live().insert(r),
            final(self).archetype_of(r) == VOID_ARCHETYPE,
            final(self).components(r) == Map::<u64, V>::empty(),
            final(self).archetype_ids() == old(self).archetype_ids(),
            forall|k: u64| #[trigger]
                final(self).types_of(k) == old(self).types_of(k),
            forall|k: u64| k != VOID_ARCHETYPE ==> #[trigger]
                final(self).rows_of(k) == old(self).rows_of(k),
            final(self).rows_of(VOID_ARCHETYPE) == old(self).rows_of(VOID_ARCHETYPE).push(r),
            forall|e: EntityId| #[trigger]
                old(self).live().contains(e) ==> final(self).pointer(e) == old(self).pointer(e)
                    && final(self).components(e) == old(self).components(e),
            forall|t: u64| #[trigger]
                final(self).reverse_index(t) == old(self).reverse_index(t),
    {
        let id = self.entity_count;
        self.entity_count = self.entity_count + 1;
        let ghost a0 = self.archetypes@;
        let ghost e0 = self.entities@;
        let void = self.archetypes.remove(&VOID_ARCHETYPE);
        match void {
            Some(void) => {
                let mut void = void;
                let row = void.new_row(id);
                assert(void.wf()) by {
                    assert(void.type_set() == Set::<u64>::empty());
                }
                self.archetypes.insert(VOID_ARCHETYPE, void);
                self.entities.insert(id, EntityPointer { archetype_id: VOID_ARCHETYPE, row_index: row });
            },
            None => {
                assert(false);
            },
        }
        assert(self.archetypes@.dom() =~= a0.dom());
        assert(self.entities@.dom() =~= e0.dom().insert(id));
        assert forall|k: u64, i: int|
            self.archetypes@.contains_key(k) && 0 <= i < self.archetypes@[k].rows().len() implies {
                let e = #[trigger] self.archetypes@[k].rows()[i];
                &&& self.entities@.contains_key(e)
                &&& self.entities@[e] == EntityPointer { archetype_id: k, row_index: i as usize }
            } by {
            if k == VOID_ARCHETYPE && i == a0[k].rows().len() {
            } else {
                assert(a0[k].rows()[i] == self.archetypes@[k].rows()[i]);
            }
        }
        assert forall|e: EntityId| #[trigger] self.entities@.contains_key(e) implies self.resolves(e) by {
            if e != id {
                assert(e0.contains_key(e));
            }
        }
        assert forall|e: EntityId| #[trigger]
            old(self).live().contains(e) implies self.pointer(e) == old(self).pointer(e)
            && self.components(e) == old(self).components(e) by {
            assert(self.components(e) =~= old(self).components(e));
        }
        assert(self.components(id) =~= Map::<u64, V>::empty());
        id
    }

    /// Every live entity's registry entry resolves to a row that stores that entity.
    pub proof fn lemma_pointers_resolve(&self, e: EntityId)
        requires
            self.wf(),
            self.live().contains(e),
        ensures
            self.resolves(e),
    {
    }

    /// Each archetype's identity is the identity of its type set.
    pub proof fn lemma_identity_of_types(&self, k: u64)
        requires
            self.wf(),
            self.archetype_ids().contains(k),
        ensures
            k == set_identity(self.types_of(k)),
            self.types_of(k).finite(),
    {
        self.archetypes@[k].lemma_type_set_finite();
    }

    /// Every row of every archetype is registered, with a pointer back to that row.
    pub proof fn lemma_rows_registered(&self, k: u64, i: int)
        requires
            self.wf(),
            self.archetype_ids().contains(k),
            0 <= i < self.rows_of(k).len(),
        ensures
            self.live().contains(self.rows_of(k)[i]),
            self.pointer(self.rows_of(k)[i]) == (EntityPointer { archetype_id: k, row_index: i as usize }),
    {
        let e = self.archetypes@[k].rows()[i];
    }

    /// The reverse index lists for each type exactly the archetypes that hold it, and every
    /// archetype is well formed.
    pub proof fn lemma_reverse_index_exact(&self)
        requires
            self.wf(),
        ensures
            forall|t: u64, k: u64| #[trigger]
                self.reverse_index(t).contains(k) <==> (self.archetype_ids().contains(k)
                    && self.types_of(k).contains(t)),
            forall|k: u64| #[trigger] self.archetype_ids().contains(k) ==> self.archetype(k).wf(),
    {
        assert forall|t: u64, k: u64| #[trigger]
            self.reverse_index(t).contains(k) <==> (self.archetype_ids().contains(k)
                && self.types_of(k).contains(t)) by {
            if self.archetypes@.contains_key(k) && self.archetypes@[k].type_set().contains(t) {
            }
            if index_set(self.archetype_sets@, t).contains(k) {
            }
        }
        assert forall|k: u64| #[trigger] self.archetype_ids().contains(k) implies self.archetype(k).wf() by {
            assert(self.archetypes@.contains_key(k));
        }
    }

    /// The component of type `ty` of entity `id`, if it has one.
    pub fn get_component(&self, id: EntityId, ty: &ComponentTypeId) -> (r: Result<Option<&V>, EcsError>)
        requires
            self.wf(),
        ensures
            !self.live().contains(id) ==> r == Err::<Option<&V>, EcsError>(EcsError::EntityNotFound),
            self.live().contains(id) && !self.components(id).contains_key(ty.spec_key()) ==> r
                == Ok::<Option<&V>, EcsError>(None),
            self.live().contains(id) && self.components(id).contains_key(ty.spec_key()) ==> r
                == Ok::<Option<&V>, EcsError>(Some(&self.components(id)[ty.spec_key()])),
    {
        let p = match self.entities.get(&id) {
            Some(p) => *p,
            None => return Err(EcsError::EntityNotFound),
        };
        assert(self.resolves(id));
        match self.archetypes.get(&p.archetype_id) {
            Some(archetype) => {
                assert(archetype.wf());
                Ok(archetype.get(ty, p.row_index))
            },
            None => Err(EcsError::ArchetypeInvariantViolation),
        }
    }

    /// Whether `e` is registered, and, through the pointer when it is, where its data is.
    pub fn entity_pointer(&self, e: EntityId) -> (r: Option<EntityPointer>)
        requires
            self.wf(),
        ensures
            !self.live().contains(e) ==> r is None,
            self.live().contains(e) ==> r == Some(self.pointer(e)),
    {
        match self.entities.get(&e) {
            Some(p) => Some(*p),
            None => None,
        }
    }

    /// The number of entities created so far, which is also the next id handed out.
    pub fn entity_count(&self) -> (r: u32)
        ensures
            r == self.next_id(),
    {
        self.entity_count
    }

    /// The member entity ids of archetype `archetype_id`, if it exists.
    pub fn archetype_entities(&self, archetype_id: u64) -> (r: Option<&Vec<EntityId>>)
        requires
            self.wf(),
        ensures
            !self.archetype_ids().contains(archetype_id) ==> r is None,
            self.archetype_ids().contains(archetype_id) ==> r is Some && r.unwrap()@ == self.rows_of(
                archetype_id,
            ),
    {
        match self.archetypes.get(&archetype_id) {
            Some(a) => Some(a.entity_ids()),
            None => None,
        }
    }

    /// Moves entity `id`, at `p`, to archetype `dest` (creating it with the source's types
    /// plus `ty` when it does not exist), carrying every component value and appending
    /// `component` as its value of type `ty`.
    #[verifier::rlimit(60)]
    fn migrate(&mut self, id: EntityId, p: EntityPointer, ty: ComponentTypeId, component: V, dest: u64)
        requires
            old(self).wf(),
            old(self).live().contains(id),
            old(self).pointer(id) == p,
            !old(self).types_of(p.archetype_id).contains(ty.spec_key()),
            dest != p.archetype_id,
            dest == next_identity(p.archetype_id, ty.spec_key()),
            old(self).archetype_ids().contains(dest) ==> old(self).types_of(dest) == old(
                self,
            ).types_of(p.archetype_id).insert(ty.spec_key()),
        ensures
            final(self).wf(),
            final(self).live() == old(self).live(),
            final(self).next_id() == old(self).next_id(),
            final(self).archetype_ids() == old(self).archetype_ids().insert(dest),
            final(self).types_of(dest) == old(self).types_of(p.archetype_id).insert(ty.spec_key()),
            forall|k: u64| #[trigger]
                old(self).archetype_ids().contains(k) ==> final(self).types_of(k) == old(
                    self,
                ).types_of(k),
            final(self).pointer(id) == (EntityPointer {
                archetype_id: dest,
                row_index: (if old(self).archetype_ids().contains(dest) {
                    old(self).rows_of(dest).len()
                } else {
                    0
                }) as usize,
            }),
            final(self).rows_of(p.archetype_id) == swap_removed(
                old(self).rows_of(p.archetype_id),
                p.row_index as int,
            ),
            final(self).rows_of(dest) == (if old(self).archetype_ids().contains(dest) {
                old(self).rows_of(dest)
            } else {
                Seq::<EntityId>::empty()
            }).push(id),
            forall|k: u64| #![trigger final(self).rows_of(k)]
                k != p.archetype_id && k != dest ==> final(self).rows_of(k) == old(self).rows_of(k),
            old(self).rows_of(p.archetype_id).last() != id ==> final(self).pointer(
                old(self).rows_of(p.archetype_id).last(),
            ) == p,
            forall|e: EntityId| #[trigger]
                old(self).live().contains(e) && e != id && e != old(self).rows_of(
                    p.archetype_id,
                ).last() ==> final(self).pointer(e) == old(self).pointer(e),
            final(self).components(id) == old(self).components(id).insert(ty.spec_key(), component),
            forall|e: EntityId| #[trigger]
                old(self).live().contains(e) && e != id ==> final(self).components(e) == old(
                    self,
                ).components(e),
            forall|t: u64| #[trigger]
                final(self).reverse_index(t) == if final(self).types_of(dest).contains(t) {
                    old(self).reverse_index(t).insert(dest)
                } else {
                    old(self).reverse_index(t)
                },
    {
        let ghost a0 = self.archetypes@;
        let ghost e0 = self.entities@;
        let ghost i0 = self.archetype_sets@;
        let ghost x = p.archetype_id;
        let ghost key = ty.spec_key();
        let ghost row = p.row_index as int;
        let ghost src_rows = a0[x].rows();
        let ghost last = src_rows.last();
        let ghost existed = a0.contains_key(dest);
        assert(self.resolves(id));
        assert(a0[x].wf());
        assert(existed ==> a0[dest].wf());
        assert(src_rows[row] == id);
        let x_id = p.archetype_id;
        let src = self.archetypes.remove(&x_id);
        let mut src = match src {
            Some(a) => a,
            None => {
                assert(false);
                return;
            },
        };
        let created = !self.archetypes.contains_key(&dest);
        let mut target = if created {
            src.with_added_type(ty)
        } else {
            match self.archetypes.remove(&dest) {
                Some(a) => a,
                None => {
                    assert(false);
                    return;
                },
            }
        };
        let ghost t0 = target;
        let dest_row = target.len();
        let swapped = src.move_row_to(p.row_index, &mut target);
        let _ = target.push(&ty, component);
        proof {
            assert(target.type_set().contains(key));
            assert forall|t: u64| #[trigger]
                target.type_set().contains(t) implies target.column_values(t).len()
                == target.rows().len() by {
                assert(t0.type_set().contains(t));
                assert(t0.column_values(t).len() == t0.rows().len());
            }
        }
        if created {
            register_archetype(&mut self.archetype_sets, target.component_types(), dest);
            proof {
                target.lemma_type_keys();
            }
        }
        self.archetypes.insert(x_id, src);
        self.archetypes.insert(dest, target);
        if swapped != id {
            self.entities.insert(swapped, p);
        }
        self.entities.insert(id, EntityPointer { archetype_id: dest, row_index: dest_row });
        proof {
            let a1 = self.archetypes@;
            let e1 = self.entities@;
            assert(a1 == a0.insert(x, src).insert(dest, target));
            assert(a1.dom() =~= a0.dom().insert(dest));
            assert(e1.dom() =~= e0.dom());
            assert(swapped == last);
            assert(e0.contains_key(last)) by {
                assert(src_rows[src_rows.len() - 1] == last);
            }
            let n1 = src_rows.len() - 1;
            a0[x].lemma_rows_fit();
            assert(e0[last] == EntityPointer { archetype_id: x, row_index: n1 as usize }) by {
                assert(a0[x].rows()[n1] == last);
            }
            assert(last == id ==> row == n1);
            // Where each old row of the source went.
            assert forall|i: int| 0 <= i < src_rows.len() && i != row && #[trigger] src_rows[i] != last implies
                i < src_rows.len() - 1 && src.rows()[i] == src_rows[i] by {
                if i == src_rows.len() - 1 {
                    assert(src_rows[i] == last);
                }
            }
            assert(dest != VOID_ARCHETYPE) by {
                if existed {
                    assert(a0[dest].type_set().contains(key));
                }
            }
            // The world's invariant.
            assert forall|k: u64| #[trigger] a1.contains_key(k) implies a1[k].wf() by {
                if k != x && k != dest {
                    assert(a0.contains_key(k));
                }
            }
            assert forall|k: u64| #[trigger] a1.contains_key(k) implies k == set_identity(a1[k].type_set()) by {
                if k == dest && !existed {
                    assert(a0.contains_key(x));
                    a0[x].lemma_type_set_finite();
                    lemma_set_identity_insert(a0[x].type_set(), key);
                } else {
                    assert(a0.contains_key(k));
                }
            }
            assert forall|e: EntityId| #[trigger] e1.contains_key(e) implies self.resolves(e) by {
                if e == id {
                } else if e == last {
                    assert(src.rows()[row] == last);
                } else {
                    assert(e0.contains_key(e));
                    assert(old(self).resolves(e));
                    let q = e0[e];
                    if q.archetype_id == x {
                        assert(src_rows[q.row_index as int] == e);
                        assert(q.row_index as int != row);
                    } else if q.archetype_id == dest {
                        assert(target.rows()[q.row_index as int] == t0.rows()[q.row_index as int]);
                    }
                }
            }
            assert forall|k: u64, i: int|
                a1.contains_key(k) && 0 <= i < a1[k].rows().len() implies {
                    let e = #[trigger] a1[k].rows()[i];
                    &&& e1.contains_key(e)
                    &&& e1[e] == EntityPointer { archetype_id: k, row_index: i as usize }
                } by {
                let e = a1[k].rows()[i];
                if k == dest {
                    if i == dest_row as int {
                    } else {
                        assert(existed);
                        assert(t0.rows()[i] == e);
                        assert(a0[dest].rows()[i] == e);
                    }
                } else if k == x {
                    if i == row {
                        assert(e == last);
                    } else {
                        assert(src_rows[i] == e);
                        assert(e0[e] == EntityPointer { archetype_id: k, row_index: i as usize });
                    }
                } else {
                    assert(a0[k].rows()[i] == e);
                    assert(e0[e] == EntityPointer { archetype_id: k, row_index: i as usize });
                }
            }
            assert forall|e: EntityId| #[trigger] e1.contains_key(e) implies e < self.entity_count by {
                assert(e0.contains_key(e));
            }
            assert forall|t: u64, k: u64|
                #![trigger index_set(self.archetype_sets@, t).contains(k)]
                #![trigger a1[k].type_set().contains(t)]
                index_set(self.archetype_sets@, t).contains(k) <==> (a1.contains_key(k)
                    && a1[k].type_set().contains(t)) by {
                assert(index_set(i0, t).contains(k) <==> (a0.contains_key(k) && a0[k].type_set().contains(t)));
            }
            assert forall|e: EntityId| #[trigger]
                old(self).live().contains(e) && e != id implies self.components(e) == old(self).components(e) by {
                let q = e0[e];
                assert(old(self).resolves(e));
                if e == last {
                    assert forall|t: u64| #[trigger] a0[x].type_set().contains(t) implies
                        src.column_values(t)[row] == a0[x].column_values(t)[n1] by {
                    }
                    assert(self.components(e) =~= old(self).components(e));
                } else if q.archetype_id == x {
                    assert(q.row_index as int != row);
                    assert(self.components(e) =~= old(self).components(e));
                } else if q.archetype_id == dest {
                    assert(self.components(e) =~= old(self).components(e));
                } else {
                    assert(self.components(e) =~= old(self).components(e));
                }
            }
            assert(self.components(id) =~= old(self).components(id).insert(key, component));
            assert forall|t: u64| #[trigger]
                self.reverse_index(t) == if self.types_of(dest).contains(t) {
                    old(self).reverse_index(t).insert(dest)
                } else {
                    old(self).reverse_index(t)
                } by {
                if existed {
                    if self.types_of(dest).contains(t) {
                        assert(index_set(i0, t).contains(dest));
                        assert(index_set(i0, t).insert(dest) =~= index_set(i0, t));
                    }
                }
            }
        }
    }

    /// Gives entity `id` the component `component` of type `ty`. When the entity already has
    /// that type its value is replaced and handed back; otherwise the entity, with all its
    /// values, moves to the archetype of its type set plus `ty`, created on first use. That
    /// archetype's identity is the current one XOR the digest of `ty`; when an archetype with
    /// another type set already has it, nothing changes and the collision is reported.
    pub fn set_component(&mut self, id: EntityId, ty: ComponentTypeId, component: V) -> (r: Result<
        Option<V>,
        EcsError,
    >)
        requires
            old(self).wf(),
        ensures
            final(self).wf(),
            set_outcome(*old(self), *final(self), id, ty.spec_key(), component, r),
    {
        let p = match self.entities.get(&id) {
            Some(p) => *p,
            None => return Err(EcsError::EntityNotFound),
        };
        assert(self.resolves(id));
        let key = ty.type_id();
        let present = match self.archetypes.get(&p.archetype_id) {
            Some(a) => a.has_type(key),
            None => return Err(EcsError::ArchetypeInvariantViolation),
        };
        if present {
            return match self.overwrite(id, p, ty, component) {
                Ok(previous) => Ok(Some(previous)),
                Err(e) => Err(e),
            };
        }
        let dest = p.archetype_id ^ ty.digest();
        if dest == p.archetype_id {
            assert(old(self).identity_collides(id, key)) by {
                assert(!old(self).types_of(dest).contains(key));
                assert(old(self).types_of(dest).insert(key).contains(key));
            }
            return Err(EcsError::ArchetypeInvariantViolation);
        }
        if self.archetypes.contains_key(&dest) {
            let fits = match (self.archetypes.get(&dest), self.archetypes.get(&p.archetype_id)) {
                (Some(d), Some(s)) => d.is_extension_of(s, key),
                _ => false,
            };
            if !fits {
                return Err(EcsError::ArchetypeInvariantViolation);
            }
        }
        self.migrate(id, p, ty, component, dest);
        Ok(None)
    }

    /// Replaces the value of type `ty` of entity `id`, which has that type, in place.
    fn overwrite(&mut self, id: EntityId, p: EntityPointer, ty: ComponentTypeId, component: V) -> (r: Result<V, EcsError>)
        requires
            old(self).wf(),
            old(self).live().contains(id),
            old(self).pointer(id) == p,
            old(self).types_of(p.archetype_id).contains(ty.spec_key()),
        ensures
            final(self).wf(),
            r == Ok::<V, EcsError>(old(self).components(id)[ty.spec_key()]),
            final(self).live() == old(self).live(),
            final(self).next_id() == old(self).next_id(),
            final(self).archetype_ids() == old(self).archetype_ids(),
            forall|k: u64| #[trigger] final(self).rows_of(k) == old(self).rows_of(k),
            forall|k: u64| #[trigger]
                old(self).archetype_ids().contains(k) ==> final(self).types_of(k) == old(
                    self,
                ).types_of(k),
            forall|e: EntityId| #[trigger]
                old(self).live().contains(e) ==> final(self).pointer(e) == old(self).pointer(e),
            forall|t: u64| #[trigger] final(self).reverse_index(t) == old(self).reverse_index(t),
            final(self).components(id) == old(self).components(id).insert(ty.spec_key(), component),
            forall|e: EntityId| #[trigger]
                old(self).live().contains(e) && e != id ==> final(self).components(e) == old(
                    self,
                ).components(e),
    {
        let ghost a0 = self.archetypes@;
        let ghost key = ty.spec_key();
        assert(self.resolves(id));
        assert(a0[p.archetype_id].wf());
        let x_id = p.archetype_id;
        let mut a = match self.archetypes.remove(&x_id) {
            Some(a) => a,
            None => {
                assert(false);
                return Err(EcsError::ArchetypeInvariantViolation);
            },
        };
        let r = a.set(p.row_index, &ty, component);
        self.archetypes.insert(x_id, a);
        proof {
            let a1 = self.archetypes@;
            assert(a1 == a0.insert(p.archetype_id, a));
            assert(a1.dom() =~= a0.dom());
            assert forall|k: u64| #[trigger] a1.contains_key(k) implies a1[k].wf() by {
                if k != p.archetype_id {
                    assert(a0.contains_key(k));
                }
            }
            assert forall|k: u64| #[trigger] self.rows_of(k) == old(self).rows_of(k) by {
            }
            assert forall|k: u64, i: int|
                a1.contains_key(k) && 0 <= i < a1[k].rows().len() implies {
                    let e = #[trigger] a1[k].rows()[i];
                    &&& self.entities@.contains_key(e)
                    &&& self.entities@[e] == EntityPointer { archetype_id: k, row_index: i as usize }
                } by {
                assert(a0[k].rows()[i] == a1[k].rows()[i]);
            }
            assert forall|e: EntityId| #[trigger] self.entities@.contains_key(e) implies self.resolves(e) by {
                assert(old(self).resolves(e));
            }
            assert forall|t: u64, k: u64|
                #![trigger index_set(self.archetype_sets@, t).contains(k)]
                #![trigger a1[k].type_set().contains(t)]
                index_set(self.archetype_sets@, t).contains(k) <==> (a1.contains_key(k)
                    && a1[k].type_set().contains(t)) by {
                assert(index_set(self.archetype_sets@, t).contains(k) <==> (a0.contains_key(k)
                    && a0[k].type_set().contains(t)));
            }
            assert forall|e: EntityId| #[trigger]
                old(self).live().contains(e) && e != id implies self.components(e) == old(self).components(e) by {
                assert(old(self).resolves(e));
                let q = self.entities@[e];
                if q.archetype_id == p.archetype_id {
                    assert(q.row_index != p.row_index);
                }
                assert(self.components(e) =~= old(self).components(e));
            }
            assert(self.components(id) =~= old(self).components(id).insert(key, component));
        }
        r
    }

    /// Whether archetype `k` is listed in the reverse index of every key in `keys`.
    pub open spec fn listed_for_all(&self, k: u64, keys: Seq<u64>) -> bool {
        forall|i: int| 0 <= i < keys.len() ==> #[trigger] self.reverse_index(keys[i]).contains(k)
    }

    fn listed_for_rest(&self, k: u64, types: &[ComponentTypeId]) -> (r: bool)
        ensures
            r == (forall|i: int|
                1 <= i < types@.len() ==> #[trigger] self.reverse_index(types@[i].spec_key()).contains(k)),
    {
        let mut j: usize = 1;
        while j < types.len()
            invariant
                1 <= j <= types@.len() || (j == 1 && types@.len() == 0),
                forall|i: int|
                    1 <= i < j && i < types@.len() ==> #[trigger] self.reverse_index(types@[i].spec_key()).contains(k),
            decreases types@.len() - j,
        {
            let listed = match self.archetype_sets.get(&types[j].type_id()) {
                Some(set) => set.contains(&k),
                None => false,
            };
            if !listed {
                assert(!self.reverse_index(types@[j as int].spec_key()).contains(k));
                return false;
            }
            j = j + 1;
        }
        true
    }

    /// The archetypes that hold every type in `types`: the reverse-index entry of the first
    /// type, intersected with the entry of each further type.
    pub fn query(&self, types: &[ComponentTypeId]) -> (r: Query<'_, V>)
        requires
            self.wf(),
            types@.len() >= 1,
        ensures
            r.world() == self,
            r.component_types() == types@,
            r.archetype_list().no_duplicates(),
            forall|k: u64| #[trigger]
                r.archetype_list().contains(k) <==> self.listed_for_all(
                    k,
                    types@.map_values(|c: ComponentTypeId| c.spec_key()),
                ),
            forall|k: u64| #[trigger]
                r.archetype_list().contains(k) <==> (self.archetype_ids().contains(k) && forall|i: int|
                    0 <= i < types@.len() ==> #[trigger] self.types_of(k).contains(types@[i].spec_key())),
    {
        let ghost keys = types@.map_values(|c: ComponentTypeId| c.spec_key());
        let mut archetypes: Vec<u64> = Vec::new();
        match self.archetype_sets.get(&types[0].type_id()) {
            Some(candidates) => {
                let ghost all = candidates@;
                let ghost first = types@[0].spec_key();
                assert(self.reverse_index(first) == all);
                let ghost order = vstd::std_specs::hash::spec_hash_keys_iter(candidates).remaining();
                let ghost mut seen: int = 0;
                for k in it: candidates.iter()
                    invariant
                        all == candidates@,
                        order == vstd::std_specs::hash::spec_hash_keys_iter(candidates).remaining(),
                        seen == it.index(),
                        self.reverse_index(first) == all,
                        it.seq() == vstd::std_specs::hash::spec_hash_keys_iter(candidates).remaining(),
                        archetypes@.no_duplicates(),
                        forall|a: u64| #[trigger] archetypes@.contains(a) ==> exists|i: int|
                            0 <= i < seen && *order[i] == a,
                        forall|i: int| #![trigger order[i]]
                            0 <= i < seen ==> (archetypes@.contains(*order[i]) <==> (
                            forall|j: int|
                                1 <= j < types@.len() ==> #[trigger] self.reverse_index(
                                    types@[j].spec_key(),
                                ).contains(*order[i]))),
                {
                    let ghost idx = it.index();
                    assert(order.no_duplicates());
                    assert(*k == *order[idx]);
                    if self.listed_for_rest(*k, types) {
                        assert(!archetypes@.contains(*k)) by {
                            if archetypes@.contains(*k) {
                                let i = choose|i: int| 0 <= i < idx && *order[i] == *k;
                                assert(order[i] == order[idx]);
                            }
                        }
                        archetypes.push(*k);
                    }
                    proof {
                        seen = seen + 1;
                    }
                }
                assert(seen == order.len());
                assert(keys[0] == first);
                assert(order.unref().to_set() == all);
                assert forall|a: u64| #[trigger] archetypes@.contains(a) <==> self.listed_for_all(a, keys) by {
                    let rest = forall|j: int|
                        1 <= j < types@.len() ==> #[trigger] self.reverse_index(types@[j].spec_key()).contains(a);
                    if self.listed_for_all(a, keys) {
                        assert(self.reverse_index(keys[0]).contains(a));
                        assert(order.unref().to_set().contains(a));
                        let i = choose|i: int| 0 <= i < order.len() && order.unref()[i] == a;
                        assert(*order[i] == a);
                        assert forall|j: int| 1 <= j < types@.len() implies #[trigger] self.reverse_index(
                            types@[j].spec_key(),
                        ).contains(a) by {
                            assert(keys[j] == types@[j].spec_key());
                            assert(self.reverse_index(keys[j]).contains(a));
                        }
                        assert(archetypes@.contains(*order[i]));
                    }
                    if archetypes@.contains(a) {
                        let i = choose|i: int| 0 <= i < seen && *order[i] == a;
                        assert(order.unref()[i] == a);
                        assert(order.unref().to_set().contains(a));
                        assert(rest);
                        assert forall|j: int| 0 <= j < keys.len() implies #[trigger] self.reverse_index(
                            keys[j],
                        ).contains(a) by {
                            if j > 0 {
                                assert(keys[j] == types@[j].spec_key());
                            }
                        }
                    }
                }
            },
            None => {
                assert forall|a: u64| #[trigger] archetypes@.contains(a) <==> self.listed_for_all(a, keys) by {
                    assert(keys[0] == types@[0].spec_key());
                    assert(!self.reverse_index(keys[0]).contains(a));
                }
            },
        }
        let mut components: Vec<ComponentTypeId> = Vec::new();
        let mut j: usize = 0;
        while j < types.len()
            invariant
                j <= types@.len(),
                components@ == types@.subrange(0, j as int),
            decreases types@.len() - j,
        {
            components.push(types[j]);
            j = j + 1;
        }
        assert(components@ =~= types@);
        proof {
            self.lemma_reverse_index_exact();
            assert forall|k: u64| #[trigger] archetypes@.contains(k) <==> (self.archetype_ids().contains(k)
                && forall|i: int| 0 <= i < types@.len() ==> #[trigger] self.types_of(k).contains(
                    types@[i].spec_key(),
                )) by {
                if self.listed_for_all(k, keys) {
                    assert(self.reverse_index(keys[0]).contains(k));
                    assert forall|i: int| 0 <= i < types@.len() implies #[trigger] self.types_of(k).contains(
                        types@[i].spec_key(),
                    ) by {
                        assert(keys[i] == types@[i].spec_key());
                        assert(self.reverse_index(keys[i]).contains(k));
                    }
                }
                if self.archetype_ids().contains(k) && forall|i: int|
                    0 <= i < types@.len() ==> #[trigger] self.types_of(k).contains(types@[i].spec_key()) {
                    assert forall|i: int| 0 <= i < keys.len() implies #[trigger] self.reverse_index(
                        keys[i],
                    ).contains(k) by {
                        assert(keys[i] == types@[i].spec_key());
                        assert(self.types_of(k).contains(types@[i].spec_key()));
                    }
                }
            }
        }
        Query::new(self, archetypes, components)
    }
}

impl<V: Clone> World<V> {
    /// A copy of the component of type `ty` of entity `id`, if it has one.
    pub fn clone_component(&self, id: EntityId, ty: &ComponentTypeId) -> (r: Result<Option<V>, EcsError>)
        requires
            self.wf(),
        ensures
            !self.live().contains(id) ==> r == Err::<Option<V>, EcsError>(EcsError::EntityNotFound),
            self.live().contains(id) && !self.components(id).contains_key(ty.spec_key()) ==> r
                == Ok::<Option<V>, EcsError>(None),
            self.live().contains(id) && self.components(id).contains_key(ty.spec_key()) ==> r is Ok
                && r.unwrap() is Some && cloned(self.components(id)[ty.spec_key()], r.unwrap().unwrap()),
    {
        match self.get_component(id, ty) {
            Ok(Some(v)) => Ok(Some(v.clone())),
            Ok(None) => Ok(None),
            Err(e) => Err(e),
        }
    }
}

} // verus!
