//! The mathematical model of a world: which entities are alive, which
//! indices wait for reuse, and what each component store holds.

use crate::entity::Entity;
use crate::node::Node;
use vstd::prelude::*;

verus! {

/// `i` is in `s` and nothing in `s` is smaller.
pub open spec fn is_lowest(s: Set<u32>, i: u32) -> bool {
    s.contains(i) && forall|j: u32| s.contains(j) ==> i <= j
}

/// The smallest member of `s`.
pub open spec fn lowest(s: Set<u32>) -> u32 {
    choose|i: u32| is_lowest(s, i)
}

/// What a world is, as plain values.
#[verifier::ext_equal]
pub struct Model<C> {
    /// Per index: the generation of the entity that holds the index now, or
    /// that the next entity built there will get.
    pub generations: Seq<u32>,
    /// Per index: whether an entity holds it now.
    pub live: Seq<bool>,
    /// The indices that wait to be reused.
    pub vacant: Set<u32>,
    /// The hierarchy store.
    pub hierarchy: Map<Entity, Node>,
    /// The number of cells of the hierarchy store.
    pub hierarchy_span: nat,
    /// One store per registered component kind.
    pub components: Seq<Map<Entity, C>>,
    /// Per registered component kind, the number of cells of its store.
    pub spans: Seq<nat>,
}

/// The span of a store after the entity at `index` got a value there.
pub open spec fn grown(span: nat, index: u32) -> nat {
    if span > index {
        span
    } else {
        (index + 1) as nat
    }
}

impl<C> Model<C> {
    /// The number of indices ever handed out.
    pub open spec fn slots(self) -> nat {
        self.generations.len()
    }

    /// The number of registered component kinds.
    pub open spec fn kinds(self) -> nat {
        self.components.len()
    }

    /// `e` names an index that an entity holds now, at that entity's
    /// generation.
    pub open spec fn alive(self, e: Entity) -> bool {
        &&& (e.index as int) < self.generations.len()
        &&& self.live[e.index as int]
        &&& self.generations[e.index as int] == e.generation
    }

    /// The index was given up for good: its generations ran out.
    pub open spec fn retired(self, index: u32) -> bool {
        &&& (index as int) < self.generations.len()
        &&& !self.live[index as int]
        &&& !self.vacant.contains(index)
    }

    /// `e` was freed: its index has moved on to a later generation, or was
    /// retired.
    pub open spec fn spent(self, e: Entity) -> bool {
        &&& (e.index as int) < self.generations.len()
        &&& (e.generation < self.generations[e.index as int] || self.retired(e.index))
    }

    /// The invariant of every world.
    pub open spec fn inv(self) -> bool {
        &&& self.live.len() == self.generations.len()
        &&& self.generations.len() <= 0x1_0000_0000
        &&& self.spans.len() == self.components.len()
        &&& forall|i: u32| #[trigger]
            self.vacant.contains(i) ==> (i as int) < self.generations.len() && !self.live[i as int]
        &&& forall|e: Entity| #[trigger] self.hierarchy.dom().contains(e) ==> self.alive(e)
        &&& forall|k: int, e: Entity|
            0 <= k < self.components.len() && #[trigger] self.components[k].dom().contains(e)
                ==> self.alive(e)
    }

    /// Some index waits for reuse.
    pub open spec fn has_vacancy(self) -> bool {
        exists|i: u32| self.vacant.contains(i)
    }

    /// An entity can still be built: an index waits for reuse, or a fresh
    /// one fits.
    pub open spec fn has_room(self) -> bool {
        self.has_vacancy() || self.generations.len() < 0x1_0000_0000
    }

    /// The entity that the next build yields: at the lowest vacant index with
    /// the generation that waits there, else at a fresh index with
    /// generation 0.
    pub open spec fn next(self) -> Entity {
        if self.has_vacancy() {
            let i = lowest(self.vacant);
            Entity { index: i, generation: self.generations[i as int] }
        } else {
            Entity { index: self.generations.len() as u32, generation: 0 }
        }
    }

    /// The world after one more component kind is registered.
    pub open spec fn extend(self) -> Model<C> {
        Model { components: self.components.push(Map::empty()), spans: self.spans.push(0), ..self }
    }

    /// The world after `self.next()` is built with `node` and, per kind, the
    /// staged value.
    pub open spec fn spawn(self, node: Option<Node>, staged: Seq<Option<C>>) -> Model<C> {
        let e = self.next();
        Model {
            generations: if self.has_vacancy() {
                self.generations
            } else {
                self.generations.push(0)
            },
            live: if self.has_vacancy() {
                self.live.update(e.index as int, true)
            } else {
                self.live.push(true)
            },
            vacant: self.vacant.remove(e.index),
            hierarchy: match node {
                Some(n) => self.hierarchy.insert(e, n),
                None => self.hierarchy,
            },
            hierarchy_span: if node is Some {
                grown(self.hierarchy_span, e.index)
            } else {
                self.hierarchy_span
            },
            components: Seq::new(
                self.components.len(),
                |k: int|
                    if k < staged.len() && staged[k] is Some {
                        self.components[k].insert(e, staged[k].unwrap())
                    } else {
                        self.components[k]
                    },
            ),
            spans: Seq::new(
                self.spans.len(),
                |k: int|
                    if k < staged.len() && staged[k] is Some {
                        grown(self.spans[k], e.index)
                    } else {
                        self.spans[k]
                    },
            ),
        }
    }

    /// The world after the live entity `e` is freed: every store lets go of
    /// it, and its index moves on to the next generation and waits for
    /// reuse, or is retired where no generation is left.
    pub open spec fn release(self, e: Entity) -> Model<C> {
        let i = e.index as int;
        let last = e.generation == u32::MAX;
        Model {
            generations: if last {
                self.generations
            } else {
                self.generations.update(i, (e.generation + 1) as u32)
            },
            live: self.live.update(i, false),
            vacant: if last {
                self.vacant
            } else {
                self.vacant.insert(e.index)
            },
            hierarchy: self.hierarchy.remove(e),
            components: Seq::new(self.components.len(), |k: int| self.components[k].remove(e)),
            ..self
        }
    }

    /// The world after `e` is given `v` for `kind`.
    pub open spec fn assign(self, kind: int, e: Entity, v: C) -> Model<C> {
        Model {
            components: self.components.update(kind, self.components[kind].insert(e, v)),
            spans: self.spans.update(kind, grown(self.spans[kind], e.index)),
            ..self
        }
    }

    /// The world after `e` gives up its value for `kind`.
    pub open spec fn unassign(self, kind: int, e: Entity) -> Model<C> {
        Model { components: self.components.update(kind, self.components[kind].remove(e)), ..self }
    }
}

} // verus!
