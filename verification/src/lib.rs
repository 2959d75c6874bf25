//! A worker-side mirror of a shared, tick-driven simulation.
//!
//! The crate keeps a local view of entities and their components in step with
//! an ordered stream of ops, and converts component values between their typed
//! form and schema-addressed wire objects.

use vstd::prelude::*;

pub mod codec;
pub mod component;
pub mod entity;
pub mod op;
pub mod order;
pub mod schema;
pub mod snapshot;
pub mod value;
pub mod view;
pub mod wire;

verus! {

/// Identifies a component kind. Unique per kind for the life of the process.
pub type ComponentId = u32;

/// Identifies a simulation entity.
pub type EntityId = i64;

/// Addresses a field inside a schema object.
pub type FieldId = u32;

} // verus!
