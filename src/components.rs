use vstd::prelude::*;
use std::hash::Hasher;
use std::collections::hash_map::DefaultHasher;

verus! {

/// A type whose values can be stored as components.
pub trait Component: Sized + 'static {

}

impl<T: Sized + 'static> Component for T {

}

/// Identity of a component type: a 64-bit key, and, when the id was made from a name, that
/// name for display. Two ids are equal when their keys are.
#[derive(Clone, Copy, Debug)]
pub struct ComponentTypeId {
    key: u64,
    name: Option<&'static str>,
}

/// The key of a component type with the given name or label: `DefaultHasher` over its bytes.
pub open spec fn spec_name_key(name: Seq<char>) -> u64 {
    <DefaultHasher as vstd::std_specs::hash::DefaultHasherAdditionalSpecFns>::spec_finish(
        seq![vstd::utf8::encode_utf8(name)],
    )
}

/// Relies on std::any::TypeId::of: an identifier of `T`, printed for its name.
#[verifier::external_body]
fn type_label_of<T: ?Sized + 'static>() -> (r: String) {
    format!("{:?}", std::any::TypeId::of::<T>())
}

/// The 64-bit digest of a component type key: `DefaultHasher` over its little-endian bytes.
pub open spec fn spec_digest(key: u64) -> u64 {
    <DefaultHasher as vstd::std_specs::hash::DefaultHasherAdditionalSpecFns>::spec_finish(
        seq![vstd::bytes::spec_u64_to_le_bytes(key)],
    )
}

impl ComponentTypeId {
    pub closed spec fn spec_key(&self) -> u64 {
        self.key
    }

    pub closed spec fn spec_name(&self) -> Option<Seq<char>> {
        match self.name {
            Some(n) => Some(n@),
            None => None,
        }
    }

    /// The id of the component type called `name`.
    pub fn named(name: &'static str) -> (r: Self)
        ensures
            r.spec_name() == Some(name@),
            r.spec_key() == spec_name_key(name@),
    {
        let mut hasher = DefaultHasher::new();
        hasher.write(name.as_bytes());
        ComponentTypeId { key: hasher.finish(), name: Some(name) }
    }

    /// The id of component type `T`. Its key is derived from `T`'s `TypeId`, so it is fixed for
    /// one build of the program; the id has no display name.
    pub fn of<T: Component>() -> (r: Self)
        ensures
            r.spec_name() == None::<Seq<char>>,
    {
        let label = type_label_of::<T>();
        let mut hasher = DefaultHasher::new();
        hasher.write(label.as_str().as_bytes());
        ComponentTypeId { key: hasher.finish(), name: None }
    }

    pub fn name(&self) -> (r: Option<&'static str>)
        ensures
            r matches Some(n) ==> self.spec_name() == Some(n@),
            r is None <==> self.spec_name() is None,
    {
        self.name
    }

    pub fn type_id(&self) -> (r: u64)
        ensures
            r == self.spec_key(),
    {
        self.key
    }

    pub fn digest(&self) -> (r: u64)
        ensures
            r == spec_digest(self.spec_key()),
    {
        let bytes = vstd::bytes::u64_to_le_bytes(self.key);
        let mut hasher = DefaultHasher::new();
        hasher.write(bytes.as_slice());
        hasher.finish()
    }
}

impl PartialEq for ComponentTypeId {
    fn eq(&self, other: &ComponentTypeId) -> (r: bool) {
        self.key == other.key
    }
}

impl vstd::std_specs::cmp::PartialEqSpecImpl for ComponentTypeId {
    open spec fn obeys_eq_spec() -> bool {
        true
    }

    open spec fn eq_spec(&self, other: &ComponentTypeId) -> bool {
        self.spec_key() == other.spec_key()
    }
}

impl Eq for ComponentTypeId {

}

} // verus!
