//! Script-to-host reference bindings: a type-erased allocation arena with
//! reference-counted collection, a runtime aliasing-control map that enforces
//! single-writer / multi-reader discipline over base objects, and lazy
//! path-based references that resolve to live data only inside short,
//! access-checked windows.
//!
//! Scripts never hold native pointers. They hold [`reference::ReflectReference`]
//! values: a base locator plus a navigation path, resolved against the
//! explicitly threaded [`world::ScriptWorld`] context. Every resolution first
//! claims the base's [`access::ReflectAccessId`] with the aliasing controller,
//! walks the path over the self-describing [`value::ReflectValue`] shape, and
//! returns the claim on every exit path. The [`bridge`] module decides whether
//! a resolved value crosses to the script side by copy or by reference, and
//! [`laws`] states and proves the crate-wide guarantees.

use vstd::prelude::*;

pub mod access;
pub mod arena;
pub mod bridge;
pub mod commands;
pub mod error;
pub mod iter;
pub mod laws;
pub mod nav;
pub mod path;
pub mod providers;
pub mod reference;
pub mod signatures;
pub mod value;
pub mod world;

verus! {

/// A runtime type identifier: the key under which the host registers
/// introspection metadata for one of its types.
#[derive(Clone, Copy, PartialEq, Eq, Structural, Debug)]
pub struct TypeTag(pub u64);

impl TypeTag {
    pub fn value(&self) -> (v: u64)
        ensures
            v == self.0,
    {
        self.0
    }
}

/// The identity of one entity in the host graph.
#[derive(Clone, Copy, PartialEq, Eq, Structural, Debug)]
pub struct Entity(pub u64);

/// The identity of one field group (component or singleton kind) in the
/// host graph.
#[derive(Clone, Copy, PartialEq, Eq, Structural, Debug)]
pub struct ComponentId(pub u64);

} // verus!
