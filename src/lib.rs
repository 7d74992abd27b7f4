//! Archetype-based entity/component storage: entities carry typed components, entities with
//! the same set of component types share one archetype with one column per type, and a reverse
//! index from component types to archetypes answers queries.

pub mod archetype;
pub mod column;
pub mod components;
pub mod crop;
pub mod error;
pub mod frames;
pub mod laws;
pub mod packer;
pub mod packing;
pub mod query;
pub mod resources;
pub mod sprites;
pub mod tilemap;
pub mod tiles;
pub mod world;

pub use archetype::{Archetype, EntityId};
pub use column::Column;
pub use components::{Component, ComponentTypeId};
pub use error::EcsError;
pub use query::{IntoQuery, Query};
pub use world::{EntityPointer, World, VOID_ARCHETYPE};
