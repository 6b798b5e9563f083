//! Entity-component storage for a scene runtime.
//!
//! - [`entity`]: generational handles.
//! - [`arena`]: one store of values per component type, addressed by entity.
//! - [`world`], [`builder`]: minting and freeing entities, and the arenas
//!   they are kept in; [`model`] says what a world is, [`laws`] what holds
//!   of every world.
//! - [`views`]: the entities that hold one component, or two, by index.
//! - [`node`], [`hierarchy`], [`reparent`]: parent and sibling links, the
//!   walks over them, and changing them.
//! - [`tree`], [`descent`], [`order`]: what a well-kept hierarchy is, that
//!   it stays so, and what the walks promise on it.
//! - [`canvas`]: a world of nodes, elements and layouts, and the order of
//!   its layout and draw passes.
//! - [`resource`]: the resource kinds with a payload of their own.

pub mod arena;
pub mod builder;
pub mod canvas;
pub mod descent;
pub mod entity;
pub mod hierarchy;
pub mod laws;
pub mod model;
pub mod node;
pub mod order;
pub mod reparent;
pub mod resource;
pub mod tree;
pub mod views;
pub mod world;
