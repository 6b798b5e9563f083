//! Typed component storage addressed by entity index.
//!
//! An [`Arena`] maps entities to values of one component type. Each cell
//! remembers the generation of the entity that filled it, so a handle whose
//! generation differs from the cell's finds nothing.

use crate::entity::Entity;
use vstd::prelude::*;

verus! {

/// `m` without whatever entity sits at `index`.
pub open spec fn evict<T>(m: Map<Entity, T>, index: u32) -> Map<Entity, T> {
    Map::new(|e: Entity| m.dom().contains(e) && e.index != index, |e: Entity| m[e])
}

/// No two entities of `dom` share an index.
pub open spec fn one_per_index(dom: Set<Entity>) -> bool {
    forall|a: Entity, b: Entity|
        #![trigger dom.contains(a), dom.contains(b)]
        dom.contains(a) && dom.contains(b) && a.index == b.index ==> a == b
}

/// The entity of `dom` that sits at `index`, if there is one.
pub open spec fn occupant(dom: Set<Entity>, index: u32) -> Option<Entity> {
    if exists|g: u32| dom.contains(Entity { index, generation: g }) {
        Some(
            Entity {
                index,
                generation: choose|g: u32| dom.contains(Entity { index, generation: g }),
            },
        )
    } else {
        None
    }
}

/// The entities of `dom` whose index is below `limit`, by ascending index.
pub open spec fn ascending(dom: Set<Entity>, limit: nat) -> Seq<Entity>
    decreases limit,
{
    if limit == 0 {
        Seq::empty()
    } else {
        let rest = ascending(dom, (limit - 1) as nat);
        match occupant(dom, (limit - 1) as u32) {
            Some(e) => rest.push(e),
            None => rest,
        }
    }
}

/// One occupied cell: the generation of its holder, and the holder's value.
struct Slot<T> {
    generation: u32,
    value: T,
}

/// A store of `T` values, one cell per entity index.
pub struct Arena<T> {
    slots: Vec<Option<Slot<T>>>,
}

impl<T> View for Arena<T> {
    type V = Map<Entity, T>;

    /// The entities that hold a value, each with its value.
    closed spec fn view(&self) -> Map<Entity, T> {
        Map::new(
            |e: Entity|
                (e.index as int) < self.slots@.len() && (self.slots@[e.index as int] matches Some(s)
                    && s.generation == e.generation),
            |e: Entity| self.slots@[e.index as int].unwrap().value,
        )
    }
}

impl<T> Arena<T> {
    /// The number of cells: one more than the largest index ever stored.
    pub closed spec fn span(&self) -> nat {
        self.slots@.len()
    }

    /// Every cell's position fits an entity index.
    pub open spec fn wf(&self) -> bool {
        self.span() <= 0x1_0000_0000
    }

    /// The holders, by ascending index.
    pub open spec fn ordered(&self) -> Seq<Entity> {
        ascending(self@.dom(), self.span())
    }

    /// Each index has at most one holder, and every holder's index is below
    /// the span.
    pub proof fn lemma_shape(&self)
        ensures
            one_per_index(self@.dom()),
            forall|e: Entity| #[trigger] self@.dom().contains(e) ==> (e.index as nat) < self.span(),
    {
    }

    /// An empty arena.
    pub fn new() -> (a: Arena<T>)
        ensures
            a.wf(),
            a@ == Map::<Entity, T>::empty(),
            a.span() == 0,
    {
        let a = Arena { slots: Vec::new() };
        assert(a@ =~= Map::<Entity, T>::empty());
        a
    }

    /// The number of cells.
    pub fn capacity(&self) -> (n: usize)
        ensures
            n == self.span(),
    {
        self.slots.len()
    }

    /// Whether `e` holds a value here.
    pub fn contains(&self, e: Entity) -> (b: bool)
        ensures
            b == self@.dom().contains(e),
    {
        let i: usize = e.index as usize;
        if i < self.slots.len() {
            match &self.slots[i] {
                Some(s) => s.generation == e.generation,
                None => false,
            }
        } else {
            false
        }
    }

    /// The value of `e`, or `None` where `e` holds none: a handle of another
    /// generation than the cell's holder finds nothing.
    pub fn get(&self, e: Entity) -> (r: Option<&T>)
        ensures
            r == (if self@.dom().contains(e) {
                Some(&self@[e])
            } else {
                None
            }),
    {
        let i: usize = e.index as usize;
        if i < self.slots.len() {
            match &self.slots[i] {
                Some(s) => {
                    if s.generation == e.generation {
                        Some(&s.value)
                    } else {
                        None
                    }
                },
                None => None,
            }
        } else {
            None
        }
    }

    /// The value of `e`, for a caller that has established that `e` holds one.
    pub fn get_unchecked(&self, e: Entity) -> (r: &T)
        requires
            self@.dom().contains(e),
        ensures
            *r == self@[e],
    {
        let i: usize = e.index as usize;
        match &self.slots[i] {
            Some(s) => &s.value,
            None => {
                proof {
                    assert(false);
                }
                vstd::pervasive::unreached()
            },
        }
    }

    /// Exclusive access to the value of `e`, or `None` where `e` holds none.
    /// Writing through the reference changes that value and nothing else.
    pub fn get_mut(&mut self, e: Entity) -> (r: Option<&mut T>)
        requires
            old(self).wf(),
        ensures
            final(self).wf(),
            final(self).span() == old(self).span(),
            r is Some <==> old(self)@.dom().contains(e),
            r is Some ==> *r.unwrap() == old(self)@[e] && final(self)@ == old(self)@.insert(
                e,
                *final(r.unwrap()),
            ),
            r is None ==> final(self)@ == old(self)@,
    {
        let i: usize = e.index as usize;
        if i < self.slots.len() {
            match &mut self.slots[i] {
                Some(s) => {
                    if s.generation == e.generation {
                        Some(&mut s.value)
                    } else {
                        None
                    }
                },
                None => None,
            }
        } else {
            None
        }
    }

    /// Exclusive access to the value of `e`, for a caller that has
    /// established that `e` holds one.
    pub fn get_unchecked_mut(&mut self, e: Entity) -> (r: &mut T)
        requires
            old(self).wf(),
            old(self)@.dom().contains(e),
        ensures
            final(self).wf(),
            final(self).span() == old(self).span(),
            *r == old(self)@[e],
            final(self)@ == old(self)@.insert(e, *final(r)),
    {
        match self.get_mut(e) {
            Some(r) => r,
            None => {
                proof {
                    assert(false);
                }
                vstd::pervasive::unreached()
            },
        }
    }

    /// Stores `v` for `e`, growing the arena to reach `e`'s index. Whatever
    /// sat at that index is displaced; the value that `e` itself held before,
    /// if any, is returned.
    pub fn insert(&mut self, e: Entity, v: T) -> (prev: Option<T>)
        requires
            old(self).wf(),
        ensures
            final(self).wf(),
            final(self)@ == evict(old(self)@, e.index).insert(e, v),
            final(self).span() == (if old(self).span() > e.index {
                old(self).span()
            } else {
                (e.index + 1) as nat
            }),
            prev == (if old(self)@.dom().contains(e) {
                Some(old(self)@[e])
            } else {
                None
            }),
    {
        let i: usize = e.index as usize;
        while self.slots.len() <= i
            invariant
                i == e.index,
                self.slots@.len() <= 0x1_0000_0000,
                self@ == old(self)@,
                self.slots@.len() == old(self).slots@.len() || (old(self).slots@.len()
                    < self.slots@.len() <= i + 1),
            decreases i + 1 - self.slots@.len(),
        {
            let ghost before = self@;
            self.slots.push(None);
            assert(self@ =~= before);
        }
        let mut cell = Some(Slot { generation: e.generation, value: v });
        core::mem::swap(&mut self.slots[i], &mut cell);
        assert(self@ =~= evict(old(self)@, e.index).insert(e, v));
        match cell {
            Some(s) => {
                if s.generation == e.generation {
                    Some(s.value)
                } else {
                    None
                }
            },
            None => None,
        }
    }

    /// Takes the value of `e` out, leaving its cell empty. Where `e` holds
    /// none, nothing changes.
    pub fn remove(&mut self, e: Entity) -> (prev: Option<T>)
        requires
            old(self).wf(),
        ensures
            final(self).wf(),
            final(self).span() == old(self).span(),
            final(self)@ == old(self)@.remove(e),
            prev == (if old(self)@.dom().contains(e) {
                Some(old(self)@[e])
            } else {
                None
            }),
    {
        if self.contains(e) {
            let i: usize = e.index as usize;
            let mut cell = None;
            core::mem::swap(&mut self.slots[i], &mut cell);
            assert(self@ =~= old(self)@.remove(e));
            match cell {
                Some(s) => Some(s.value),
                None => None,
            }
        } else {
            assert(self@ =~= old(self)@.remove(e));
            None
        }
    }

    /// The holder at `index`, if the cell there is occupied.
    pub fn holder(&self, index: u32) -> (r: Option<Entity>)
        ensures
            r == occupant(self@.dom(), index),
    {
        let i: usize = index as usize;
        if i < self.slots.len() {
            match &self.slots[i] {
                Some(s) => {
                    let e = Entity { index, generation: s.generation };
                    proof {
                        assert(self@.dom().contains(Entity { index, generation: s.generation }));
                        let g = choose|g: u32| self@.dom().contains(Entity { index, generation: g });
                        assert(self@.dom().contains(Entity { index, generation: g }));
                    }
                    Some(e)
                },
                None => None,
            }
        } else {
            None
        }
    }
}

} // verus!
