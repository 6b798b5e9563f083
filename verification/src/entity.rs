//! Generational entity handles.

use vstd::prelude::*;

verus! {

/// A weak handle that names a slot by its index and the generation the slot
/// had when the handle was minted. It owns nothing.
#[derive(Clone, Copy, Debug, PartialEq, Eq, Structural, Hash)]
pub struct Entity {
    /// The slot that the handle names.
    pub index: u32,
    /// The generation of the slot when the handle was minted.
    pub generation: u32,
}

impl Entity {
    /// Makes the handle for `index` at `generation`.
    pub fn new(index: u32, generation: u32) -> (e: Entity)
        ensures
            e.index == index,
            e.generation == generation,
    {
        Entity { index, generation }
    }

    /// The slot this handle names.
    pub fn index(&self) -> (i: u32)
        ensures
            i == self.index,
    {
        self.index
    }

    /// The generation this handle was minted at.
    pub fn generation(&self) -> (g: u32)
        ensures
            g == self.generation,
    {
        self.generation
    }
}

} // verus!
