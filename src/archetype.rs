use vstd::prelude::*;
use std::collections::HashMap;

use crate::column::{swap_removed, Column};
use crate::components::ComponentTypeId;
use crate::error::EcsError;

verus! {

broadcast use {vstd::std_specs::hash::group_hash_axioms, vstd::seq_lib::group_seq_properties};

/// Entity identities: handed out by a counter, never reused.
pub type EntityId = u32;

/// The entities that share one exact set of component types, and the storage for them:
/// one column per type, and the list of member ids, whose positions are the row indices.
pub struct Archetype<V> {
    columns: HashMap<u64, Column<V>>,
    types: Vec<ComponentTypeId>,
    entity_ids: Vec<EntityId>,
}

impl<V> Archetype<V> {
    /// The keys of the component types present, in the order the types were added.
    pub closed spec fn type_keys(&self) -> Seq<u64> {
        self.types@.map_values(|c: ComponentTypeId| c.spec_key())
    }

    /// The keys of the component types present.
    pub closed spec fn type_set(&self) -> Set<u64> {
        self.columns@.dom()
    }

    /// The member entity ids; position `i` is row `i`.
    pub closed spec fn rows(&self) -> Seq<EntityId> {
        self.entity_ids@
    }

    /// The values of the column for type key `t`.
    pub closed spec fn column_values(&self, t: u64) -> Seq<V> {
        self.columns@[t]@
    }

    /// One column per listed type, keyed by that type's key, and nothing else.
    pub closed spec fn shape_wf(&self) -> bool {
        &&& self.type_keys().no_duplicates()
        &&& forall|t: u64| #[trigger]
            self.columns@.contains_key(t) <==> self.type_keys().contains(t)
        &&& forall|t: u64| #[trigger]
            self.columns@.contains_key(t) ==> self.columns@[t].type_key() == t
    }

    /// Every column has one value per member entity.
    pub open spec fn wf(&self) -> bool {
        &&& self.shape_wf()
        &&& forall|t: u64| #[trigger]
            self.type_set().contains(t) ==> self.column_values(t).len() == self.rows().len()
    }

    /// An archetype with no component types and no members.
    pub fn empty() -> (r: Self)
        ensures
            r.wf(),
            r.type_set() == Set::<u64>::empty(),
            r.rows() == Seq::<EntityId>::empty(),
    {
        let r = Archetype { columns: HashMap::new(), types: Vec::new(), entity_ids: Vec::new() };
        assert(r.type_keys() =~= Seq::<u64>::empty());
        r
    }

    pub fn len(&self) -> (r: usize)
        ensures
            r == self.rows().len(),
    {
        self.entity_ids.len()
    }

    pub fn entity_at(&self, row: usize) -> (r: EntityId)
        requires
            row < self.rows().len(),
        ensures
            r == self.rows()[row as int],
    {
        self.entity_ids[row]
    }

    pub fn has_type(&self, key: u64) -> (r: bool)
        ensures
            r == self.type_set().contains(key),
    {
        self.columns.contains_key(&key)
    }

    /// The value of type `ty` at `row`, if the archetype has that type and that row.
    pub fn get(&self, ty: &ComponentTypeId, row: usize) -> (r: Option<&V>)
        requires
            self.wf(),
        ensures
            self.type_set().contains(ty.spec_key()) && row < self.rows().len() ==> r == Some(
                &self.column_values(ty.spec_key())[row as int],
            ),
            !(self.type_set().contains(ty.spec_key()) && row < self.rows().len()) ==> r is None,
    {
        let key = ty.type_id();
        assert(self.type_set().contains(key) ==> self.column_values(key).len()
            == self.rows().len());
        match self.columns.get(&key) {
            Some(column) => match column.get(ty, row) {
                Ok(v) => v,
                Err(_) => None,
            },
            None => None,
        }
    }

    /// Appends `entity_id` to the member list and returns its row. The columns are not
    /// touched: the caller pushes one value into each of them.
    pub fn new_row(&mut self, entity_id: EntityId) -> (r: usize)
        ensures
            r == old(self).rows().len(),
            final(self).rows() == old(self).rows().push(entity_id),
            final(self).type_set() == old(self).type_set(),
            final(self).type_keys() == old(self).type_keys(),
            old(self).shape_wf() ==> final(self).shape_wf(),
            forall|t: u64| #[trigger]
                final(self).column_values(t) == old(self).column_values(t),
    {
        let r = self.entity_ids.len();
        self.entity_ids.push(entity_id);
        assert(self.type_keys() == old(self).type_keys());
        r
    }

    /// An archetype with this one's component types plus `ty`, each column empty, and no
    /// members: the shape of this archetype is copied, not its data.
    pub fn with_added_type(&self, ty: ComponentTypeId) -> (r: Self)
        requires
            self.shape_wf(),
            !self.type_set().contains(ty.spec_key()),
        ensures
            r.wf(),
            r.type_set() == self.type_set().insert(ty.spec_key()),
            r.type_keys() == self.type_keys().push(ty.spec_key()),
            r.rows() == Seq::<EntityId>::empty(),
            forall|t: u64| #[trigger]
                r.type_set().contains(t) ==> r.column_values(t) == Seq::<V>::empty(),
    {
        let ghost keys = self.type_keys();
        let mut columns: HashMap<u64, Column<V>> = HashMap::new();
        let mut types: Vec<ComponentTypeId> = Vec::new();
        let n = self.types.len();
        let mut j: usize = 0;
        while j < n
            invariant
                n == self.types@.len(),
                keys == self.type_keys(),
                j <= n,
                types@ == self.types@.subrange(0, j as int),
                forall|t: u64| #[trigger]
                    columns@.contains_key(t) <==> keys.subrange(0, j as int).contains(t),
                forall|t: u64| #[trigger]
                    columns@.contains_key(t) ==> columns@[t].type_key() == t && columns@[t]@
                        == Seq::<V>::empty(),
            decreases n - j,
        {
            let c = self.types[j];
            assert(keys.subrange(0, j + 1) =~= keys.subrange(0, j as int).push(c.spec_key()));
            columns.insert(c.type_id(), Column::init_empty_of(c));
            types.push(c);
            j = j + 1;
        }
        assert(keys.subrange(0, n as int) =~= keys);
        assert(types@ =~= self.types@);
        columns.insert(ty.type_id(), Column::init_empty_of(ty));
        types.push(ty);
        let r = Archetype { columns, types, entity_ids: Vec::new() };
        assert(r.type_keys() =~= keys.push(ty.spec_key()));
        assert(!keys.contains(ty.spec_key()));
        assert forall|a: int, b: int|
            0 <= a < r.type_keys().len() && 0 <= b < r.type_keys().len() && a != b implies r.type_keys()[a]
            != r.type_keys()[b] by {
            if a < keys.len() && b < keys.len() {
                assert(keys[a] != keys[b]);
            } else if a < keys.len() {
                assert(keys.contains(keys[a]));
            } else {
                assert(keys.contains(keys[b]));
            }
        }
        assert(r.type_set() =~= self.type_set().insert(ty.spec_key()));
        r
    }

    /// Appends `value` to the column of type `ty`.
    pub fn push(&mut self, ty: &ComponentTypeId, value: V) -> (r: Result<(), EcsError>)
        requires
            old(self).shape_wf(),
        ensures
            final(self).shape_wf(),
            final(self).type_set() == old(self).type_set(),
            final(self).type_keys() == old(self).type_keys(),
            final(self).rows() == old(self).rows(),
            !old(self).type_set().contains(ty.spec_key()) ==> r == Err::<(), EcsError>(
                EcsError::TypeMismatch,
            ),
            old(self).type_set().contains(ty.spec_key()) ==> r == Ok::<(), EcsError>(()),
            forall|t: u64| #[trigger]
                final(self).type_set().contains(t) ==> final(self).column_values(t) == if t
                    == ty.spec_key() {
                    old(self).column_values(t).push(value)
                } else {
                    old(self).column_values(t)
                },
    {
        let key = ty.type_id();
        match self.columns.remove(&key) {
            Some(column) => {
                let mut column = column;
                let _ = column.push(ty, value);
                self.columns.insert(key, column);
                assert(self.columns@.dom() =~= old(self).columns@.dom());
                Ok(())
            },
            None => Err(EcsError::TypeMismatch),
        }
    }

    /// Writes `value` as type `ty` at `row` and hands back the value it replaces.
    pub fn set(&mut self, row: usize, ty: &ComponentTypeId, value: V) -> (r: Result<V, EcsError>)
        requires
            old(self).wf(),
        ensures
            final(self).wf(),
            final(self).type_set() == old(self).type_set(),
            final(self).type_keys() == old(self).type_keys(),
            final(self).rows() == old(self).rows(),
            !old(self).type_set().contains(ty.spec_key()) ==> r == Err::<V, EcsError>(
                EcsError::TypeMismatch,
            ),
            old(self).type_set().contains(ty.spec_key()) && row >= old(self).rows().len() ==> r
                == Err::<V, EcsError>(EcsError::ArchetypeInvariantViolation),
            old(self).type_set().contains(ty.spec_key()) && row < old(self).rows().len() ==> r
                == Ok::<V, EcsError>(old(self).column_values(ty.spec_key())[row as int]),
            forall|t: u64| #[trigger]
                final(self).type_set().contains(t) ==> final(self).column_values(t) == if t
                    == ty.spec_key() && row < old(self).rows().len() {
                    old(self).column_values(t).update(row as int, value)
                } else {
                    old(self).column_values(t)
                },
    {
        let key = ty.type_id();
        if row >= self.entity_ids.len() {
            if self.columns.contains_key(&key) {
                return Err(EcsError::ArchetypeInvariantViolation);
            } else {
                return Err(EcsError::TypeMismatch);
            }
        }
        assert(self.type_set().contains(key) ==> self.column_values(key).len()
            == self.rows().len());
        match self.columns.remove(&key) {
            Some(column) => {
                let mut column = column;
                let r = column.set(ty, row, value);
                self.columns.insert(key, column);
                assert(self.columns@.dom() =~= old(self).columns@.dom());
                assert forall|t: u64| #[trigger]
                    self.type_set().contains(t) implies self.column_values(t).len()
                    == self.rows().len() by {
                    assert(old(self).type_set().contains(t));
                }
                match r {
                    Ok(Some(previous)) => Ok(previous),
                    _ => Err(EcsError::ArchetypeInvariantViolation),
                }
            },
            None => Err(EcsError::TypeMismatch),
        }
    }

    /// Moves the member at `row`, with its value in every column, to the end of `dest`,
    /// which has at least this archetype's types. The last member takes the vacated row;
    /// its id is returned so that the caller can correct its pointer.
    pub fn move_row_to(&mut self, row: usize, dest: &mut Archetype<V>) -> (r: EntityId)
        requires
            old(self).wf(),
            old(dest).wf(),
            row < old(self).rows().len(),
            old(self).type_set().subset_of(old(dest).type_set()),
        ensures
            r == old(self).rows().last(),
            final(self).wf(),
            final(self).type_set() == old(self).type_set(),
            final(self).type_keys() == old(self).type_keys(),
            final(self).rows() == swap_removed(old(self).rows(), row as int),
            forall|t: u64| #[trigger]
                old(self).type_set().contains(t) ==> final(self).column_values(t)
                    == swap_removed(old(self).column_values(t), row as int),
            final(dest).shape_wf(),
            final(dest).type_set() == old(dest).type_set(),
            final(dest).type_keys() == old(dest).type_keys(),
            final(dest).rows() == old(dest).rows().push(old(self).rows()[row as int]),
            forall|t: u64| #[trigger]
                final(dest).type_set().contains(t) ==> final(dest).column_values(t) == if old(
                    self,
                ).type_set().contains(t) {
                    old(dest).column_values(t).push(old(self).column_values(t)[row as int])
                } else {
                    old(dest).column_values(t)
                },
    {
        let ghost keys = old(self).type_keys();
        let ghost src0 = old(self).columns@;
        let ghost dst0 = old(dest).columns@;
        let n = self.types.len();
        let dest_row = dest.entity_ids.len();
        assert forall|t: u64| #[trigger] src0.contains_key(t) implies src0[t]@.len()
            == old(self).rows().len() && dst0[t]@.len() == dest_row by {
            assert(old(self).type_set().contains(t));
            assert(old(dest).type_set().contains(t));
        }
        let mut j: usize = 0;
        while j < n
            invariant
                n == self.types@.len(),
                keys == self.type_keys(),
                keys == old(self).type_keys(),
                keys.no_duplicates(),
                j <= n,
                row < old(self).rows().len(),
                self.types == old(self).types,
                self.entity_ids == old(self).entity_ids,
                dest.types == old(dest).types,
                dest.entity_ids == old(dest).entity_ids,
                dest_row == old(dest).rows().len(),
                src0 == old(self).columns@,
                dst0 == old(dest).columns@,
                self.columns@.dom() == src0.dom(),
                dest.columns@.dom() == dst0.dom(),
                src0.dom().subset_of(dst0.dom()),
                forall|t: u64| #[trigger] src0.contains_key(t) <==> keys.contains(t),
                forall|t: u64| #[trigger]
                    src0.contains_key(t) ==> src0[t].type_key() == t && src0[t]@.len()
                        == old(self).rows().len() && dst0[t]@.len() == dest_row,
                forall|t: u64| #[trigger] dst0.contains_key(t) ==> dst0[t].type_key() == t,
                forall|t: u64| #[trigger]
                    self.columns@.contains_key(t) ==> self.columns@[t].type_key() == t
                        && self.columns@[t]@ == if keys.subrange(0, j as int).contains(t) {
                        swap_removed(src0[t]@, row as int)
                    } else {
                        src0[t]@
                    },
                forall|t: u64| #[trigger]
                    dest.columns@.contains_key(t) ==> dest.columns@[t].type_key() == t
                        && dest.columns@[t]@ == if keys.subrange(0, j as int).contains(t) {
                        dst0[t]@.push(src0[t]@[row as int])
                    } else {
                        dst0[t]@
                    },
            decreases n - j,
        {
            let c = self.types[j];
            let key = c.type_id();
            assert(keys.subrange(0, j + 1) =~= keys.subrange(0, j as int).push(key));
            assert(keys[j as int] == key);
            assert(keys.contains(key));
            assert(!keys.subrange(0, j as int).contains(key)) by {
                if keys.subrange(0, j as int).contains(key) {
                    let i = choose|i: int|
                        0 <= i < j && #[trigger] keys.subrange(0, j as int)[i] == key;
                    assert(keys[i] == keys[j as int]);
                }
            }
            let src_column = self.columns.remove(&key);
            let dest_column = dest.columns.remove(&key);
            match (src_column, dest_column) {
                (Some(src_column), Some(dest_column)) => {
                    let mut src_column = src_column;
                    let mut dest_column = dest_column;
                    let _ = src_column.move_to(row, &mut dest_column, dest_row);
                    self.columns.insert(key, src_column);
                    dest.columns.insert(key, dest_column);
                },
                _ => {
                    assert(false);
                },
            }
            assert(self.columns@.dom() =~= src0.dom());
            assert(dest.columns@.dom() =~= dst0.dom());
            j = j + 1;
        }
        assert(keys.subrange(0, n as int) =~= keys);
        let last = self.entity_ids.len() - 1;
        let swapped = self.entity_ids[last];
        let moved = self.entity_ids.swap_remove(row);
        dest.entity_ids.push(moved);
        assert forall|t: u64| #[trigger]
            self.type_set().contains(t) implies self.column_values(t).len()
            == self.rows().len() by {
            assert(src0.contains_key(t));
        }
        swapped
    }

    /// Removes the member at `row` with its values; the last member takes the vacated row,
    /// and its id is returned so that the caller can correct its pointer.
    pub fn swap_remove(&mut self, row: usize) -> (r: EntityId)
        requires
            old(self).wf(),
            row < old(self).rows().len(),
        ensures
            r == old(self).rows().last(),
            final(self).wf(),
            final(self).type_set() == old(self).type_set(),
            final(self).type_keys() == old(self).type_keys(),
            final(self).rows() == swap_removed(old(self).rows(), row as int),
            forall|t: u64| #[trigger]
                final(self).type_set().contains(t) ==> final(self).column_values(t)
                    == swap_removed(old(self).column_values(t), row as int),
    {
        let ghost keys = old(self).type_keys();
        let ghost src0 = old(self).columns@;
        let n = self.types.len();
        assert forall|t: u64| #[trigger] src0.contains_key(t) implies src0[t]@.len()
            == old(self).rows().len() by {
            assert(old(self).type_set().contains(t));
        }
        let mut j: usize = 0;
        while j < n
            invariant
                n == self.types@.len(),
                keys == self.type_keys(),
                keys.no_duplicates(),
                j <= n,
                row < old(self).rows().len(),
                self.types == old(self).types,
                self.entity_ids == old(self).entity_ids,
                src0 == old(self).columns@,
                self.columns@.dom() == src0.dom(),
                forall|t: u64| #[trigger] src0.contains_key(t) <==> keys.contains(t),
                forall|t: u64| #[trigger]
                    src0.contains_key(t) ==> src0[t].type_key() == t && src0[t]@.len()
                        == old(self).rows().len(),
                forall|t: u64| #[trigger]
                    self.columns@.contains_key(t) ==> self.columns@[t].type_key() == t
                        && self.columns@[t]@ == if keys.subrange(0, j as int).contains(t) {
                        swap_removed(src0[t]@, row as int)
                    } else {
                        src0[t]@
                    },
            decreases n - j,
        {
            let c = self.types[j];
            let key = c.type_id();
            assert(keys.subrange(0, j + 1) =~= keys.subrange(0, j as int).push(key));
            assert(keys[j as int] == key);
            assert(keys.contains(key));
            assert(!keys.subrange(0, j as int).contains(key)) by {
                if keys.subrange(0, j as int).contains(key) {
                    let i = choose|i: int|
                        0 <= i < j && #[trigger] keys.subrange(0, j as int)[i] == key;
                    assert(keys[i] == keys[j as int]);
                }
            }
            match self.columns.remove(&key) {
                Some(column) => {
                    let mut column = column;
                    let _ = column.swap_remove(row);
                    self.columns.insert(key, column);
                },
                None => {
                    assert(false);
                },
            }
            assert(self.columns@.dom() =~= src0.dom());
            j = j + 1;
        }
        assert(keys.subrange(0, n as int) =~= keys);
        let last = self.entity_ids.len() - 1;
        let swapped = self.entity_ids[last];
        let _ = self.entity_ids.swap_remove(row);
        assert forall|t: u64| #[trigger]
            self.type_set().contains(t) implies self.column_values(t).len()
            == self.rows().len() by {
            assert(src0.contains_key(t));
        }
        swapped
    }

    /// Whether this archetype's types are exactly `src`'s types plus `key`.
    pub fn is_extension_of(&self, src: &Archetype<V>, key: u64) -> (r: bool)
        requires
            self.shape_wf(),
            src.shape_wf(),
        ensures
            r == (self.type_set() == src.type_set().insert(key)),
    {
        if !self.columns.contains_key(&key) {
            assert(!self.type_set().contains(key));
            return false;
        }
        let n = src.types.len();
        let mut j: usize = 0;
        while j < n
            invariant
                n == src.types@.len(),
                j <= n,
                src.shape_wf(),
                forall|i: int| 0 <= i < j ==> #[trigger] self.type_set().contains(src.type_keys()[i]),
            decreases n - j,
        {
            if !self.columns.contains_key(&src.types[j].type_id()) {
                let ghost k = src.type_keys()[j as int];
                assert(k == src.types@[j as int].spec_key());
                assert(src.type_keys().contains(k));
                assert(src.columns@.contains_key(k));
                return false;
            }
            j = j + 1;
        }
        let m = self.types.len();
        let mut j: usize = 0;
        while j < m
            invariant
                m == self.types@.len(),
                j <= m,
                self.shape_wf(),
                forall|i: int|
                    0 <= i < j ==> #[trigger] src.type_set().insert(key).contains(self.type_keys()[i]),
            decreases m - j,
        {
            let k = self.types[j].type_id();
            if k != key && !src.columns.contains_key(&k) {
                let ghost kk = self.type_keys()[j as int];
                assert(kk == k);
                assert(self.type_keys().contains(kk));
                assert(self.columns@.contains_key(kk));
                return false;
            }
            j = j + 1;
        }
        assert forall|t: u64| self.type_set().contains(t) <==> #[trigger] src.type_set().insert(key).contains(t) by {
            if self.type_set().contains(t) {
                let i = choose|i: int| 0 <= i < self.type_keys().len() && self.type_keys()[i] == t;
            }
            if src.type_set().contains(t) {
                let i = choose|i: int| 0 <= i < src.type_keys().len() && src.type_keys()[i] == t;
            }
        }
        assert(self.type_set() =~= src.type_set().insert(key));
        true
    }

    /// The component types present, in the order in which they were added.
    pub fn component_types(&self) -> (r: &Vec<ComponentTypeId>)
        ensures
            r@.map_values(|c: ComponentTypeId| c.spec_key()) == self.type_keys(),
    {
        &self.types
    }

    /// The listed type keys are the present types, each listed once.
    pub proof fn lemma_type_keys(&self)
        requires
            self.shape_wf(),
        ensures
            self.type_keys().no_duplicates(),
            forall|t: u64| #[trigger]
                self.type_set().contains(t) <==> self.type_keys().contains(t),
    {
        assert forall|t: u64| #[trigger]
            self.type_set().contains(t) <==> self.type_keys().contains(t) by {
            assert(self.columns@.contains_key(t) <==> self.type_keys().contains(t));
        }
    }

    /// The member entity ids; position `i` is row `i`.
    pub fn entity_ids(&self) -> (r: &Vec<EntityId>)
        ensures
            r@ == self.rows(),
    {
        &self.entity_ids
    }

    /// The member count fits in a `usize`.
    pub proof fn lemma_rows_fit(&self)
        ensures
            self.rows().len() <= usize::MAX,
    {
        assert(self.entity_ids.len() == self.entity_ids@.len());
    }

    /// Only finitely many component types are present.
    pub proof fn lemma_type_set_finite(&self)
        ensures
            self.type_set().finite(),
    {
    }
}

} // verus!
