use vstd::prelude::*;

use crate::components::ComponentTypeId;
use crate::error::EcsError;

verus! {

/// Densely packed values of one component type, addressed by row index.
pub struct Column<V> {
    ty: ComponentTypeId,
    values: Vec<V>,
}

impl<V> View for Column<V> {
    type V = Seq<V>;

    closed spec fn view(&self) -> Seq<V> {
        self.values@
    }
}

/// `s` with its element at `i` replaced by its last element, then shortened by one.
pub open spec fn swap_removed<A>(s: Seq<A>, i: int) -> Seq<A> {
    s.update(i, s.last()).drop_last()
}

impl<V> Column<V> {
    /// The key of the component type that this column holds.
    pub closed spec fn type_key(&self) -> u64 {
        self.ty.spec_key()
    }

    /// An empty column for the component type `ty`.
    pub fn init_empty_of(ty: ComponentTypeId) -> (r: Self)
        ensures
            r.type_key() == ty.spec_key(),
            r@ == Seq::<V>::empty(),
    {
        Column { ty, values: Vec::new() }
    }

    /// An empty column for the same component type as this one.
    pub fn clone_empty(&self) -> (r: Self)
        ensures
            r.type_key() == self.type_key(),
            r@ == Seq::<V>::empty(),
    {
        Column { ty: self.ty, values: Vec::new() }
    }

    pub fn component_type(&self) -> (r: ComponentTypeId)
        ensures
            r.spec_key() == self.type_key(),
    {
        self.ty
    }

    pub fn len(&self) -> (r: usize)
        ensures
            r == self@.len(),
    {
        self.values.len()
    }

    /// The value at `row`, read as component type `ty`.
    pub fn get(&self, ty: &ComponentTypeId, row: usize) -> (r: Result<Option<&V>, EcsError>)
        ensures
            ty.spec_key() != self.type_key() ==> r == Err::<Option<&V>, EcsError>(
                EcsError::TypeMismatch,
            ),
            ty.spec_key() == self.type_key() && row < self@.len() ==> r == Ok::<
                Option<&V>,
                EcsError,
            >(Some(&self@[row as int])),
            ty.spec_key() == self.type_key() && row >= self@.len() ==> r == Ok::<
                Option<&V>,
                EcsError,
            >(None),
    {
        if ty.type_id() != self.ty.type_id() {
            Err(EcsError::TypeMismatch)
        } else if row < self.values.len() {
            Ok(Some(&self.values[row]))
        } else {
            Ok(None)
        }
    }

    /// Writes `value` at `row` as component type `ty`: over the value there, which is
    /// handed back, or as a new last row when `row` is the length.
    pub fn set(&mut self, ty: &ComponentTypeId, row: usize, value: V) -> (r: Result<
        Option<V>,
        EcsError,
    >)
        requires
            row <= old(self)@.len(),
        ensures
            final(self).type_key() == old(self).type_key(),
            ty.spec_key() != old(self).type_key() ==> r == Err::<Option<V>, EcsError>(
                EcsError::TypeMismatch,
            ) && final(self)@ == old(self)@,
            ty.spec_key() == old(self).type_key() && row < old(self)@.len() ==> r == Ok::<
                Option<V>,
                EcsError,
            >(Some(old(self)@[row as int])) && final(self)@ == old(self)@.update(row as int, value),
            ty.spec_key() == old(self).type_key() && row == old(self)@.len() ==> r == Ok::<
                Option<V>,
                EcsError,
            >(None) && final(self)@ == old(self)@.push(value),
    {
        if ty.type_id() != self.ty.type_id() {
            Err(EcsError::TypeMismatch)
        } else if row < self.values.len() {
            let mut value = value;
            self.values.set_and_swap(row, &mut value);
            Ok(Some(value))
        } else {
            self.values.push(value);
            Ok(None)
        }
    }

    /// Appends `value` as component type `ty`.
    pub fn push(&mut self, ty: &ComponentTypeId, value: V) -> (r: Result<(), EcsError>)
        ensures
            final(self).type_key() == old(self).type_key(),
            ty.spec_key() != old(self).type_key() ==> r == Err::<(), EcsError>(
                EcsError::TypeMismatch,
            ) && final(self)@ == old(self)@,
            ty.spec_key() == old(self).type_key() ==> r == Ok::<(), EcsError>(())
                && final(self)@ == old(self)@.push(value),
    {
        if ty.type_id() != self.ty.type_id() {
            Err(EcsError::TypeMismatch)
        } else {
            self.values.push(value);
            Ok(())
        }
    }

    /// Removes the value at `row` and hands it back; the last value takes its place.
    pub fn swap_remove(&mut self, row: usize) -> (r: V)
        requires
            row < old(self)@.len(),
        ensures
            final(self).type_key() == old(self).type_key(),
            r == old(self)@[row as int],
            final(self)@ == swap_removed(old(self)@, row as int),
    {
        self.values.swap_remove(row)
    }

    /// Moves the value at `src_row` into `dest` at `dest_row`, over the value there (which
    /// is handed back) or as a new last row; this column's last value takes its place.
    pub fn move_to(&mut self, src_row: usize, dest: &mut Column<V>, dest_row: usize) -> (r: Result<
        Option<V>,
        EcsError,
    >)
        requires
            src_row < old(self)@.len(),
            dest_row <= old(dest)@.len(),
        ensures
            final(self).type_key() == old(self).type_key(),
            final(dest).type_key() == old(dest).type_key(),
            old(dest).type_key() != old(self).type_key() ==> r == Err::<Option<V>, EcsError>(
                EcsError::TypeMismatch,
            ) && final(self)@ == old(self)@ && final(dest)@ == old(dest)@,
            old(dest).type_key() == old(self).type_key() ==> {
                &&& final(self)@ == swap_removed(old(self)@, src_row as int)
                &&& dest_row < old(dest)@.len() ==> r == Ok::<Option<V>, EcsError>(
                    Some(old(dest)@[dest_row as int]),
                ) && final(dest)@ == old(dest)@.update(dest_row as int, old(self)@[src_row as int])
                &&& dest_row == old(dest)@.len() ==> r == Ok::<Option<V>, EcsError>(None)
                    && final(dest)@ == old(dest)@.push(old(self)@[src_row as int])
            },
    {
        if dest.ty.type_id() != self.ty.type_id() {
            return Err(EcsError::TypeMismatch);
        }
        let value = self.values.swap_remove(src_row);
        let ty = self.ty;
        dest.set(&ty, dest_row, value)
    }
}

} // verus!
