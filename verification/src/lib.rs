//! An in-memory store of entities and their components.
//!
//! A schema of component kinds and flags is fixed in a build phase
//! ([`WorldBuilder`]); the store ([`World`]) then keeps one column of cells per
//! component and one membership mask per entity, in which component `i` owns
//! bit `i` and the flags own the bits above the components. Entities are
//! made through an [`EntityBuilder`] and found through a [`Query`].
//!
//! The store does not look into the cells it keeps: the cell type is a
//! parameter, and a component kind is named by a `TypeId`. Every contract is
//! stated over [`model::WorldView`], the state of a store as mathematics;
//! [`laws`] holds what follows for sequences of operations.

pub mod bits;
pub mod components;
pub mod entities;
pub mod flags;
pub mod laws;
pub mod model;
pub mod queries;
pub mod word128;
pub mod word16;
pub mod word32;
pub mod word64;
pub mod word8;
pub mod worlds;

pub use bits::BitField;
pub use entities::{Entity, EntityBuilder};
pub use queries::{Query, QueryBuilder};
pub use worlds::{World, WorldBuilder};
