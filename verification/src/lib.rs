//! An archetype-based entity-component store.
//!
//! Entities are generational handles. Every entity that carries components
//! lives in exactly one archetype, the table of all entities that carry the
//! same set of component types. Component values are kept as raw bytes in
//! per-type columns; a component type is named by a caller-chosen identifier
//! and described by its size and alignment. Queries select archetypes by a
//! pair of bitmasks and walk their rows under per-column borrow tracking.
//!
//! Every function in this crate is verified against the contract written on
//! it, and the invariants that tie entities, archetypes and query caches
//! together are stated in [`world::World::wf`].

pub mod bits;
pub mod borrow;
pub mod blob_data;
pub mod component;
pub mod entities;
pub mod bundle;
pub mod archetype;
pub mod cache;
pub mod world;
pub mod query;
pub mod laws;

pub use crate::archetype::Archetype;
pub use crate::blob_data::{BlobData, TypeInfo};
pub use crate::borrow::BorrowCounter;
pub use crate::bundle::Bundle;
pub use crate::cache::{CacheEntry, QueryCache};
pub use crate::component::{Component, ComponentId};
pub use crate::entities::{Entities, Entity, EntityMeta, Location};
pub use crate::query::{
    BorrowConflict, Filter, Handle, QueryData, QueryItem, QueryIter, Read, With, Without, Write,
};
pub use crate::world::{Registration, World};
