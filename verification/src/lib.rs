//! A minimalist entity-component-system world with verified archetype
//! storage and query machinery.
//!
//! Entities are stable generational handles. Each entity carries a set of
//! components, identified by runtime type ids; entities sharing the same
//! component set live in one archetype, stored column by column. Queries
//! describe which columns a traversal reads or writes, filter archetypes by
//! signature, and walk matching rows in index order.

pub mod archetype;
pub mod bundle;
pub mod entities;
pub mod query;
pub mod types;
pub mod world;

pub use archetype::Archetype;
pub use bundle::Bundle;
pub use entities::{Entities, Entity, Location, NoSuchEntity};
pub use query::{
    Access, Batch, BatchedIter, ItemPart, Query, QueryBorrow, QueryIter, With, Without,
};
pub use types::TypeInfo;
pub use world::{ComponentError, World};
