//! Derived-view synchronization: every object that matches a registered kind
//! gets a linked view object, kept in step with the model tick by tick.

pub mod kind;
pub mod laws;
pub mod link;
pub mod object;
pub mod registry;
pub mod world;

pub use kind::{Filter, Kind, ViewableKind};
pub use link::{Link, View, Viewable};
pub use object::{Object, ObjectState, UNLOAD};
pub use registry::Viewables;
pub use world::{RegisterError, World, WorldState};
