//! The world: mints and frees entities and owns one arena per registered
//! component kind, plus the hierarchy arena.

use crate::arena::{ascending, evict, Arena};
use crate::entity::Entity;
use crate::laws::{lemma_lowest, lemma_next_is_new, lemma_release, lemma_spawn};
use crate::model::{is_lowest, Model};
use crate::node::Node;
use crate::tree::{lemma_insert_unlinked_tidy, lemma_remove_unlinked_tidy, tidy};
use crate::views::{lesser, strictly_ascending};
use vstd::prelude::*;

verus! {

/// Why a world refused an entity.
#[derive(Clone, Copy, Debug, PartialEq, Eq, Structural)]
pub enum EntityError {
    /// The handle is not alive: it was freed, or never built.
    StaleHandle,
}

/// Entities and their components. A component kind is named by the number
/// that [`World::register`] returned for it.
pub struct World<C> {
    generations: Vec<u32>,
    live: Vec<bool>,
    free: Vec<u32>,
    nodes: Arena<Node>,
    arenas: Vec<Arena<C>>,
}

impl<C> View for World<C> {
    type V = Model<C>;

    closed spec fn view(&self) -> Model<C> {
        Model {
            generations: self.generations@,
            live: self.live@,
            vacant: self.free@.to_set(),
            hierarchy: self.nodes@,
            hierarchy_span: self.nodes.span(),
            components: Seq::new(self.arenas@.len(), |k: int| self.arenas@[k]@),
            spans: Seq::new(self.arenas@.len(), |k: int| self.arenas@[k].span()),
        }
    }
}

/// The position of the smallest value of a non-empty list.
fn lowest_position(list: &Vec<u32>) -> (p: usize)
    requires
        list@.len() > 0,
    ensures
        p < list@.len(),
        forall|j: int| 0 <= j < list@.len() ==> list@[p as int] <= list@[j],
{
    let mut p: usize = 0;
    let mut i: usize = 1;
    while i < list.len()
        invariant
            p < i <= list@.len(),
            forall|j: int| 0 <= j < i ==> list@[p as int] <= list@[j],
        decreases list@.len() - i,
    {
        if list[i] < list[p] {
            p = i;
        }
        i = i + 1;
    }
    p
}

/// A store that holds nothing at an index loses nothing when that index is
/// evicted.
proof fn lemma_evict_absent<T>(m: Map<Entity, T>, index: u32)
    requires
        forall|e: Entity| #[trigger] m.dom().contains(e) ==> e.index != index,
    ensures
        evict(m, index) == m,
{
    assert(evict(m, index) =~= m);
}

impl<C> World<C> {
    /// The model obeys its invariant, the free list names no index twice,
    /// and every arena is well formed.
    pub closed spec fn wf(&self) -> bool {
        &&& self@.inv()
        &&& self.free@.no_duplicates()
        &&& self.nodes.wf()
        &&& forall|k: int| 0 <= k < self.arenas@.len() ==> (#[trigger] self.arenas@[k]).wf()
    }

    /// `other` is this world but for the arena of `kind`, which is well
    /// formed and holds live entities only.
    spec fn same_but_arena(&self, other: &World<C>, kind: int) -> bool {
        &&& other.generations == self.generations
        &&& other.live == self.live
        &&& other.free == self.free
        &&& other.nodes == self.nodes
        &&& other.arenas@.len() == self.arenas@.len()
        &&& forall|j: int|
            0 <= j < self.arenas@.len() && j != kind ==> #[trigger] other.arenas@[j]
                == self.arenas@[j]
        &&& other.arenas@[kind].wf()
        &&& forall|x: Entity| #[trigger] other.arenas@[kind]@.dom().contains(x) ==> self@.alive(x)
    }

    /// `other` is this world but for the hierarchy arena, which is well
    /// formed and holds live entities only.
    spec fn same_but_nodes(&self, other: &World<C>) -> bool {
        &&& other.generations == self.generations
        &&& other.live == self.live
        &&& other.free == self.free
        &&& other.arenas == self.arenas
        &&& other.nodes.wf()
        &&& forall|x: Entity| #[trigger] other.nodes@.dom().contains(x) ==> self@.alive(x)
    }

    /// `other` is this world but for the arenas of two kinds, which are well
    /// formed and hold live entities only.
    spec fn same_but_two(&self, other: &World<C>, first: int, second: int) -> bool {
        &&& other.generations == self.generations
        &&& other.live == self.live
        &&& other.free == self.free
        &&& other.nodes == self.nodes
        &&& other.arenas@.len() == self.arenas@.len()
        &&& forall|j: int|
            0 <= j < self.arenas@.len() && j != first && j != second ==> #[trigger] other.arenas@[j]
                == self.arenas@[j]
        &&& other.arenas@[first].wf()
        &&& other.arenas@[second].wf()
        &&& forall|x: Entity| #[trigger] other.arenas@[first]@.dom().contains(x) ==> self@.alive(x)
        &&& forall|x: Entity| #[trigger] other.arenas@[second]@.dom().contains(x) ==> self@.alive(x)
    }

    /// A world stays well formed when two arenas change and still hold live
    /// entities only.
    proof fn lemma_same_but_two(&self, other: &World<C>, first: int, second: int)
        requires
            self.wf(),
            0 <= first < self.arenas@.len(),
            0 <= second < self.arenas@.len(),
            first != second,
            self.same_but_two(other, first, second),
        ensures
            other.wf(),
            other@ =~~= (Model {
                components: self@.components.update(first, other.arenas@[first]@).update(
                    second,
                    other.arenas@[second]@,
                ),
                spans: self@.spans.update(first, other.arenas@[first].span()).update(
                    second,
                    other.arenas@[second].span(),
                ),
                ..self@
            }),
    {
        assert forall|k: int| 0 <= k < other.arenas@.len() implies (#[trigger] other.arenas@[k]).wf() by {
            if k != first && k != second {
                assert(other.arenas@[k] == self.arenas@[k]);
            }
        }
        assert forall|k: int, x: Entity|
            0 <= k < other@.components.len() && #[trigger] other@.components[k].dom().contains(
                x,
            ) implies other@.alive(x) by {
            if k != first && k != second {
                assert(other.arenas@[k] == self.arenas@[k]);
                assert(self@.components[k].dom().contains(x));
            }
        }
        assert forall|x: Entity| #[trigger] other@.hierarchy.dom().contains(x) implies other@.alive(
            x,
        ) by {
            assert(self@.hierarchy.dom().contains(x));
        }
        assert forall|i: u32| #[trigger] other@.vacant.contains(i) implies (i as int)
            < other@.generations.len() && !other@.live[i as int] by {
            assert(self@.vacant.contains(i));
        }
        assert forall|k: int| 0 <= k < other@.components.len() implies other@.components[k]
            == self@.components.update(first, other.arenas@[first]@).update(
            second,
            other.arenas@[second]@,
        )[k] && other@.spans[k] == self@.spans.update(first, other.arenas@[first].span()).update(
            second,
            other.arenas@[second].span(),
        )[k] by {
            if k != first && k != second {
                assert(other.arenas@[k] == self.arenas@[k]);
            }
        }
    }

    /// A world stays well formed when one arena changes and still holds
    /// live entities only.
    proof fn lemma_same_but_arena(&self, other: &World<C>, kind: int)
        requires
            self.wf(),
            0 <= kind < self.arenas@.len(),
            self.same_but_arena(other, kind),
        ensures
            other.wf(),
            other@ =~~= (Model {
                components: self@.components.update(kind, other.arenas@[kind]@),
                spans: self@.spans.update(kind, other.arenas@[kind].span()),
                ..self@
            }),
    {
        assert forall|k: int| 0 <= k < other.arenas@.len() implies (#[trigger] other.arenas@[k]).wf() by {
            if k != kind {
                assert(other.arenas@[k] == self.arenas@[k]);
            }
        }
        assert forall|k: int, x: Entity|
            0 <= k < other@.components.len() && #[trigger] other@.components[k].dom().contains(
                x,
            ) implies other@.alive(x) by {
            if k != kind {
                assert(other.arenas@[k] == self.arenas@[k]);
                assert(self@.components[k].dom().contains(x));
            }
        }
        assert forall|x: Entity| #[trigger] other@.hierarchy.dom().contains(x) implies other@.alive(
            x,
        ) by {
            assert(self@.hierarchy.dom().contains(x));
        }
        assert forall|i: u32| #[trigger] other@.vacant.contains(i) implies (i as int)
            < other@.generations.len() && !other@.live[i as int] by {
            assert(self@.vacant.contains(i));
        }
        assert forall|k: int| 0 <= k < other@.components.len() implies other@.components[k]
            == self@.components.update(kind, other.arenas@[kind]@)[k] && other@.spans[k]
            == self@.spans.update(kind, other.arenas@[kind].span())[k] by {
            if k != kind {
                assert(other.arenas@[k] == self.arenas@[k]);
            }
        }
    }

    /// A world stays well formed when the hierarchy arena changes and still
    /// holds live entities only.
    proof fn lemma_same_but_nodes(&self, other: &World<C>)
        requires
            self.wf(),
            self.same_but_nodes(other),
        ensures
            other.wf(),
            other@ =~~= (Model {
                hierarchy: other.nodes@,
                hierarchy_span: other.nodes.span(),
                ..self@
            }),
    {
        assert forall|k: int, x: Entity|
            0 <= k < other@.components.len() && #[trigger] other@.components[k].dom().contains(
                x,
            ) implies other@.alive(x) by {
            assert(self@.components[k].dom().contains(x));
        }
        assert forall|i: u32| #[trigger] other@.vacant.contains(i) implies (i as int)
            < other@.generations.len() && !other@.live[i as int] by {
            assert(self@.vacant.contains(i));
        }
    }

    /// The hierarchy arena.
    pub closed spec fn node_arena(&self) -> Arena<Node> {
        self.nodes
    }

    /// A well-formed world's model obeys the model invariant, and its
    /// hierarchy arena is well formed and holds what the model says.
    pub proof fn lemma_wf(&self)
        requires
            self.wf(),
        ensures
            self@.inv(),
            self.node_arena().wf(),
            self.node_arena()@ == self@.hierarchy,
            self.node_arena().span() == self@.hierarchy_span,
    {
    }

    /// A world without entities or component kinds.
    pub fn new() -> (w: World<C>)
        ensures
            w.wf(),
            w@.slots() == 0,
            w@.kinds() == 0,
            w@.vacant == Set::<u32>::empty(),
            w@.hierarchy == Map::<Entity, Node>::empty(),
            w@.hierarchy_span == 0,
    {
        let w = World {
            generations: Vec::new(),
            live: Vec::new(),
            free: Vec::new(),
            nodes: Arena::new(),
            arenas: Vec::new(),
        };
        assert(w@.vacant =~= Set::<u32>::empty());
        w
    }

    /// Registers one more component kind and returns its number.
    pub fn register(&mut self) -> (kind: usize)
        requires
            old(self).wf(),
        ensures
            final(self).wf(),
            kind == old(self)@.kinds(),
            final(self)@ == old(self)@.extend(),
    {
        let kind = self.arenas.len();
        self.arenas.push(Arena::new());
        proof {
            assert(self@.components =~= old(self)@.components.push(Map::empty()));
            assert(self@.spans =~= old(self)@.spans.push(0));
            assert(self@ == old(self)@.extend());
            assert(old(self)@.inv());
            assert forall|k: int| 0 <= k < self.arenas@.len() implies (#[trigger] self.arenas@[k]).wf() by {
                if k < old(self).arenas@.len() {
                    assert(self.arenas@[k] == old(self).arenas@[k]);
                }
            }
            assert forall|k: int, e: Entity|
                0 <= k < self@.components.len() && #[trigger] self@.components[k].dom().contains(
                    e,
                ) implies self@.alive(e) by {
                if k < old(self)@.components.len() {
                    assert(old(self)@.components[k].dom().contains(e));
                }
            }
        }
        kind
    }

    /// The number of registered component kinds.
    pub fn kinds(&self) -> (n: usize)
        ensures
            n == self@.kinds(),
    {
        self.arenas.len()
    }

    /// Whether `e` is alive.
    pub fn is_alive(&self, e: Entity) -> (b: bool)
        requires
            self.wf(),
        ensures
            b == self@.alive(e),
    {
        let i: usize = e.index as usize;
        i < self.generations.len() && self.live[i] && self.generations[i] == e.generation
    }

    /// Whether one more entity can be built.
    pub fn has_room(&self) -> (b: bool)
        requires
            self.wf(),
        ensures
            b == self@.has_room(),
    {
        if self.free.len() > 0 {
            assert(self.free@.contains(self.free@[0]));
            assert(self@.vacant.contains(self.free@[0]));
            true
        } else {
            assert(!self@.has_vacancy()) by {
                assert forall|i: u32| !self@.vacant.contains(i) by {
                    if self.free@.contains(i) {
                        let j = choose|j: int| 0 <= j < self.free@.len() && self.free@[j] == i;
                    }
                }
            }
            self.generations.len() <= 0xffff_ffff
        }
    }

    /// Takes the index for the next entity: the lowest that waits for reuse,
    /// else a fresh one. The stores are left as they are.
    fn claim(&mut self) -> (e: Entity)
        requires
            old(self).wf(),
            old(self)@.has_room(),
        ensures
            final(self).wf(),
            e == old(self)@.next(),
            final(self)@ == old(self)@.spawn(None, Seq::empty()),
            final(self).nodes == old(self).nodes,
            final(self).arenas == old(self).arenas,
    {
        proof {
            lemma_next_is_new(old(self)@);
            lemma_spawn(old(self)@, None, Seq::empty());
        }
        let e = if self.free.len() > 0 {
            let p = lowest_position(&self.free);
            let ghost before = self.free@;
            let index = self.free.swap_remove(p);
            proof {
                assert(before.contains(index));
                assert(old(self)@.has_vacancy()) by {
                    assert(old(self)@.vacant.contains(index));
                }
                assert(is_lowest(old(self)@.vacant, index)) by {
                    assert forall|j: u32| old(self)@.vacant.contains(j) implies index <= j by {
                        let q = choose|q: int| 0 <= q < before.len() && before[q] == j;
                        assert(before[q] == j);
                    }
                }
                lemma_lowest(old(self)@.vacant, index);
                assert(self.free@.no_duplicates());
                assert(self.free@.to_set() =~= before.to_set().remove(index)) by {
                    assert forall|j: u32| self.free@.to_set().contains(j) <==> (before.to_set().contains(
                        j,
                    ) && j != index) by {
                        if self.free@.contains(j) {
                            let q = choose|q: int| 0 <= q < self.free@.len() && self.free@[q] == j;
                            if q == p {
                                assert(before[before.len() - 1] == j);
                            } else {
                                assert(before[q] == j);
                            }
                        }
                        if before.contains(j) && j != index {
                            let q = choose|q: int| 0 <= q < before.len() && before[q] == j;
                            if q == before.len() - 1 {
                                assert(self.free@[p as int] == j);
                            } else {
                                assert(self.free@[q] == j);
                            }
                        }
                    }
                }
            }
            let i: usize = index as usize;
            self.live[i] = true;
            Entity { index, generation: self.generations[i] }
        } else {
            proof {
                assert(!old(self)@.has_vacancy()) by {
                    assert forall|i: u32| !old(self)@.vacant.contains(i) by {
                        if self.free@.contains(i) {
                            let j = choose|j: int| 0 <= j < self.free@.len() && self.free@[j] == i;
                        }
                    }
                }
            }
            let index: u32 = self.generations.len() as u32;
            self.generations.push(0);
            self.live.push(true);
            proof {
                assert(self.free@.to_set() =~= old(self)@.vacant.remove(index));
            }
            Entity { index, generation: 0 }
        };
        proof {
            assert(self@.components =~= old(self)@.spawn(None, Seq::empty()).components);
            assert(self@.spans =~= old(self)@.spawn(None, Seq::empty()).spans);
            assert(self@ == old(self)@.spawn(None, Seq::empty()));
        }
        e
    }

    /// Builds one entity: at the lowest index that waits for reuse, else at a
    /// fresh index. It gets `node` in the hierarchy, where one is given, and
    /// for each kind the value at that position of `staged`, where one is
    /// there. Positions beyond the registered kinds are dropped.
    pub fn spawn(&mut self, node: Option<Node>, staged: Vec<Option<C>>) -> (e: Entity)
        requires
            old(self).wf(),
            old(self)@.has_room(),
        ensures
            final(self).wf(),
            e == old(self)@.next(),
            final(self)@ == old(self)@.spawn(node, staged@),
            !old(self)@.alive(e),
            final(self)@.alive(e),
            final(self).node_arena()@.get(e) == node,
            forall|k: int|
                0 <= k < old(self)@.kinds() ==> (#[trigger] final(self)@.components[k]).get(e) == (
                if k < staged@.len() {
                    staged@[k]
                } else {
                    None
                }),
            tidy(old(self)@.hierarchy) && (node is None || node == Some(Node::unlinked())) ==> tidy(
                final(self)@.hierarchy,
            ),
    {
        let ghost m0 = self@;
        let ghost row = staged@;
        proof {
            lemma_next_is_new(m0);
            lemma_spawn(m0, node, row);
            if tidy(m0.hierarchy) && node == Some(Node::unlinked()) {
                lemma_insert_unlinked_tidy(m0.hierarchy, m0.next());
            }
        }
        let e = self.claim();
        match node {
            Some(n) => {
                proof {
                    lemma_evict_absent(self.nodes@, e.index);
                }
                self.nodes.insert(e, n);
            },
            None => {},
        }
        let ghost goal = m0.spawn(node, row);
        let mut staged = staged;
        while staged.len() > 0
            invariant
                m0.inv(),
                m0.has_room(),
                e == m0.next(),
                goal == m0.spawn(node, row),
                staged@.len() <= row.len(),
                forall|j: int| 0 <= j < staged@.len() ==> staged@[j] == row[j],
                self.generations@ == goal.generations,
                self.live@ == goal.live,
                self.free@.to_set() == goal.vacant,
                self.free@.no_duplicates(),
                self.nodes@ == goal.hierarchy,
                self.nodes.span() == goal.hierarchy_span,
                self.nodes.wf(),
                self.arenas@.len() == m0.kinds(),
                forall|k: int|
                    0 <= k < self.arenas@.len() ==> (#[trigger] self.arenas@[k]).wf()
                        && self.arenas@[k]@ == (if k >= staged@.len() {
                        goal.components[k]
                    } else {
                        m0.components[k]
                    }) && self.arenas@[k].span() == (if k >= staged@.len() {
                        goal.spans[k]
                    } else {
                        m0.spans[k]
                    }),
            decreases staged@.len(),
        {
            let k: usize = staged.len() - 1;
            let item = staged.pop();
            if k < self.arenas.len() {
                match item {
                    Some(Some(v)) => {
                        proof {
                            lemma_next_is_new(m0);
                            assert(self.arenas@[k as int]@ == m0.components[k as int]);
                            lemma_evict_absent(self.arenas@[k as int]@, e.index);
                        }
                        let ghost before = self.arenas@;
                        self.arenas[k].insert(e, v);
                        proof {
                            assert(forall|j: int|
                                0 <= j < before.len() && j != k ==> self.arenas@[j] == before[j]);
                        }
                    },
                    _ => {},
                }
            }
        }
        proof {
            assert(self@.components =~= goal.components);
            assert(self@.spans =~= goal.spans);
            assert(self@ == goal);
        }
        e
    }

    /// Frees `e`: every arena lets go of it, and its index moves on to the
    /// next generation and waits for reuse, so that `e` is stale from now
    /// on. An index whose generations have run out is retired instead. A
    /// handle that is not alive is refused and nothing changes. The
    /// hierarchy links of other entities are left as they are.
    pub fn free(&mut self, e: Entity) -> (r: Result<(), EntityError>)
        requires
            old(self).wf(),
        ensures
            final(self).wf(),
            r is Ok <==> old(self)@.alive(e),
            r is Ok ==> final(self)@ == old(self)@.release(e) && final(self)@.spent(e),
            r is Err ==> r == Err::<(), EntityError>(EntityError::StaleHandle) && final(self)@ == old(
                self,
            )@,
            !final(self)@.alive(e),
            !final(self).node_arena()@.dom().contains(e),
            forall|k: int|
                0 <= k < old(self)@.kinds() ==> !(#[trigger] final(self)@.components[k]).dom().contains(e),
            tidy(old(self)@.hierarchy) && (old(self)@.hierarchy.dom().contains(e) ==> old(
                self,
            )@.hierarchy[e] == Node::unlinked()) ==> tidy(final(self)@.hierarchy),
    {
        if !self.is_alive(e) {
            proof {
                assert forall|k: int| 0 <= k < self@.kinds() implies !(#[trigger] self@.components[k]).dom().contains(
                    e,
                ) by {
                    if self@.components[k].dom().contains(e) {
                        assert(self@.alive(e));
                    }
                }
                if self@.hierarchy.dom().contains(e) {
                    assert(self@.alive(e));
                }
            }
            return Err(EntityError::StaleHandle);
        }
        let ghost m0 = self@;
        let ghost goal = m0.release(e);
        proof {
            lemma_release(m0, e);
            if tidy(m0.hierarchy) {
                if m0.hierarchy.dom().contains(e) {
                    if m0.hierarchy[e] == Node::unlinked() {
                        lemma_remove_unlinked_tidy(m0.hierarchy, e);
                    }
                } else {
                    assert(m0.hierarchy.remove(e) =~= m0.hierarchy);
                }
            }
        }
        let i: usize = e.index as usize;
        self.live[i] = false;
        if e.generation < u32::MAX {
            self.generations[i] = e.generation + 1;
            let ghost before = self.free@;
            proof {
                assert(!before.contains(e.index)) by {
                    if before.contains(e.index) {
                        assert(m0.vacant.contains(e.index));
                    }
                }
            }
            self.free.push(e.index);
            proof {
                assert(self.free@.to_set() =~= m0.vacant.insert(e.index)) by {
                    assert forall|j: u32| self.free@.to_set().contains(j) <==> (j == e.index
                        || before.contains(j)) by {
                        if self.free@.contains(j) {
                            let q = choose|q: int| 0 <= q < self.free@.len() && self.free@[q] == j;
                            if q < before.len() {
                                assert(before[q] == j);
                            }
                        }
                        if before.contains(j) {
                            let q = choose|q: int| 0 <= q < before.len() && before[q] == j;
                            assert(self.free@[q] == j);
                        }
                        if j == e.index {
                            assert(self.free@[before.len() as int] == j);
                        }
                    }
                }
            }
        }
        self.nodes.remove(e);
        let n: usize = self.arenas.len();
        let mut k: usize = 0;
        while k < n
            invariant
                k <= n,
                n == self.arenas@.len(),
                n == m0.kinds(),
                goal == m0.release(e),
                self.generations@ == goal.generations,
                self.live@ == goal.live,
                self.free@.to_set() == goal.vacant,
                self.free@.no_duplicates(),
                self.nodes@ == goal.hierarchy,
                self.nodes.span() == goal.hierarchy_span,
                self.nodes.wf(),
                forall|j: int|
                    0 <= j < n ==> (#[trigger] self.arenas@[j]).wf() && self.arenas@[j]@ == (if j < k {
                        goal.components[j]
                    } else {
                        m0.components[j]
                    }) && self.arenas@[j].span() == m0.spans[j],
            decreases n - k,
        {
            let ghost before = self.arenas@;
            self.arenas[k].remove(e);
            proof {
                assert(forall|j: int| 0 <= j < before.len() && j != k ==> self.arenas@[j] == before[j]);
            }
            k = k + 1;
        }
        proof {
            assert(self@.components =~= goal.components);
            assert(self@.spans =~= goal.spans);
            assert(self@ == goal);
        }
        Ok(())
    }

    /// The arena of `kind`, for reading.
    pub fn arena(&self, kind: usize) -> (a: &Arena<C>)
        requires
            self.wf(),
            kind < self@.kinds(),
        ensures
            a.wf(),
            a@ == self@.components[kind as int],
            a.span() == self@.spans[kind as int],
    {
        &self.arenas[kind]
    }

    /// The hierarchy arena, for reading.
    pub fn nodes(&self) -> (a: &Arena<Node>)
        requires
            self.wf(),
        ensures
            a.wf(),
            *a == self.node_arena(),
            a@ == self@.hierarchy,
            a.span() == self@.hierarchy_span,
    {
        &self.nodes
    }

    /// The value that `e` holds for `kind`, or `None` where it holds none or
    /// is stale.
    pub fn fetch(&self, kind: usize, e: Entity) -> (r: Option<&C>)
        requires
            self.wf(),
            kind < self@.kinds(),
        ensures
            r == (if self@.components[kind as int].dom().contains(e) {
                Some(&self@.components[kind as int][e])
            } else {
                None
            }),
    {
        self.arenas[kind].get(e)
    }

    /// Exclusive access to the value that `e` holds for `kind`, or `None`
    /// where it holds none or is stale. Writing through the reference changes
    /// that value and nothing else.
    pub fn fetch_mut(&mut self, kind: usize, e: Entity) -> (r: Option<&mut C>)
        requires
            old(self).wf(),
            kind < old(self)@.kinds(),
        ensures
            final(self).wf(),
            r is Some <==> old(self)@.components[kind as int].dom().contains(e),
            r is Some ==> *r.unwrap() == old(self)@.components[kind as int][e] && final(self)@
                =~~= old(self)@.assign(kind as int, e, *final(r.unwrap())),
            r is None ==> final(self)@ =~~= old(self)@,
    {
        proof {
            assert forall|other: World<C>| self.same_but_arena(&other, kind as int) implies (
            #[trigger] other.wf()) by {
                self.lemma_same_but_arena(&other, kind as int);
            }
            assert forall|x: Entity| #[trigger]
                self.arenas@[kind as int]@.dom().contains(x) implies self@.alive(x) by {
                assert(self@.components[kind as int].dom().contains(x));
            }
            self.arenas@[kind as int].lemma_shape();
        }
        self.arenas[kind].get_mut(e)
    }

    /// The arena of `kind`, for reading and writing. While the arena stays
    /// well formed and holds live entities only, the world stays well formed
    /// and differs in that arena alone.
    pub fn arena_mut(&mut self, kind: usize) -> (a: &mut Arena<C>)
        requires
            old(self).wf(),
            kind < old(self)@.kinds(),
        ensures
            a.wf(),
            a@ == old(self)@.components[kind as int],
            a.span() == old(self)@.spans[kind as int],
            final(a).wf() && (forall|x: Entity| #[trigger]
                final(a)@.dom().contains(x) ==> old(self)@.alive(x)) ==> final(self).wf()
                && final(self)@ =~~= (Model {
                components: old(self)@.components.update(kind as int, final(a)@),
                spans: old(self)@.spans.update(kind as int, final(a).span()),
                ..old(self)@
            }),
    {
        proof {
            assert forall|other: World<C>| self.same_but_arena(&other, kind as int) implies (
            #[trigger] other.wf()) && other@ =~~= (Model {
                components: self@.components.update(kind as int, other.arenas@[kind as int]@),
                spans: self@.spans.update(kind as int, other.arenas@[kind as int].span()),
                ..self@
            }) by {
                self.lemma_same_but_arena(&other, kind as int);
            }
        }
        &mut self.arenas[kind]
    }

    /// The arenas of two different kinds at once, both for reading and
    /// writing. While both stay well formed and hold live entities only, the
    /// world stays well formed and differs in those two arenas alone.
    pub fn arena_pair_mut(&mut self, first: usize, second: usize) -> (pair: (
        &mut Arena<C>,
        &mut Arena<C>,
    ))
        requires
            old(self).wf(),
            first < old(self)@.kinds(),
            second < old(self)@.kinds(),
            first != second,
        ensures
            pair.0.wf(),
            pair.1.wf(),
            pair.0@ == old(self)@.components[first as int],
            pair.1@ == old(self)@.components[second as int],
            pair.0.span() == old(self)@.spans[first as int],
            pair.1.span() == old(self)@.spans[second as int],
            final(pair.0).wf() && final(pair.1).wf() && (forall|x: Entity| #[trigger]
                final(pair.0)@.dom().contains(x) ==> old(self)@.alive(x)) && (forall|x: Entity|
             #[trigger]
                final(pair.1)@.dom().contains(x) ==> old(self)@.alive(x)) ==> final(self).wf()
                && final(self)@ =~~= (Model {
                components: old(self)@.components.update(first as int, final(pair.0)@).update(
                    second as int,
                    final(pair.1)@,
                ),
                spans: old(self)@.spans.update(first as int, final(pair.0).span()).update(
                    second as int,
                    final(pair.1).span(),
                ),
                ..old(self)@
            }),
    {
        proof {
            assert forall|other: World<C>|
                self.same_but_two(&other, first as int, second as int) implies (
            #[trigger] other.wf()) && other@ =~~= (Model {
                components: self@.components.update(first as int, other.arenas@[first as int]@).update(
                    second as int,
                    other.arenas@[second as int]@,
                ),
                spans: self@.spans.update(first as int, other.arenas@[first as int].span()).update(
                    second as int,
                    other.arenas@[second as int].span(),
                ),
                ..self@
            }) by {
                self.lemma_same_but_two(&other, first as int, second as int);
            }
        }
        let slice = self.arenas.as_mut_slice();
        if first < second {
            let (low, high) = slice.split_at_mut(second);
            (&mut low[first], &mut high[0])
        } else {
            let (low, high) = slice.split_at_mut(first);
            (&mut high[0], &mut low[second])
        }
    }

    /// The hierarchy arena, for reading and writing. While the arena stays
    /// well formed and holds live entities only, the world stays well formed
    /// and differs in that arena alone.
    pub fn nodes_mut(&mut self) -> (a: &mut Arena<Node>)
        requires
            old(self).wf(),
        ensures
            a.wf(),
            a@ == old(self)@.hierarchy,
            a.span() == old(self)@.hierarchy_span,
            final(a).wf() && (forall|x: Entity| #[trigger]
                final(a)@.dom().contains(x) ==> old(self)@.alive(x)) ==> final(self).wf()
                && final(self)@ =~~= (Model {
                hierarchy: final(a)@,
                hierarchy_span: final(a).span(),
                ..old(self)@
            }),
    {
        proof {
            assert forall|other: World<C>| self.same_but_nodes(&other) implies (
            #[trigger] other.wf()) && other@ =~~= (Model {
                hierarchy: other.nodes@,
                hierarchy_span: other.nodes.span(),
                ..self@
            }) by {
                self.lemma_same_but_nodes(&other);
            }
        }
        &mut self.nodes
    }

    /// Gives `e` the value `v` for `kind`, in place of what it held, and
    /// returns what it held. A handle that is not alive is refused and
    /// nothing changes.
    pub fn assign(&mut self, kind: usize, e: Entity, v: C) -> (r: Result<Option<C>, EntityError>)
        requires
            old(self).wf(),
            kind < old(self)@.kinds(),
        ensures
            final(self).wf(),
            r is Ok <==> old(self)@.alive(e),
            r is Ok ==> final(self)@ == old(self)@.assign(kind as int, e, v) && r.unwrap() == (
            if old(self)@.components[kind as int].dom().contains(e) {
                Some(old(self)@.components[kind as int][e])
            } else {
                None
            }),
            r is Err ==> final(self)@ == old(self)@,
    {
        if !self.is_alive(e) {
            return Err(EntityError::StaleHandle);
        }
        proof {
            assert forall|x: Entity| #[trigger]
                self.arenas@[kind as int]@.dom().contains(x) implies x.index != e.index || x == e by {
                assert(self@.components[kind as int].dom().contains(x));
            }
            assert(evict(self.arenas@[kind as int]@, e.index).insert(e, v)
                =~= self.arenas@[kind as int]@.insert(e, v));
        }
        let ghost before = self.arenas@;
        let prev = self.arenas[kind].insert(e, v);
        proof {
            assert(forall|j: int| 0 <= j < before.len() && j != kind ==> self.arenas@[j] == before[j]);
            assert(self@.components =~= old(self)@.assign(kind as int, e, v).components);
            assert(self@.spans =~= old(self)@.assign(kind as int, e, v).spans);
            assert(self@ == old(self)@.assign(kind as int, e, v));
            assert forall|k: int, x: Entity|
                0 <= k < self@.components.len() && #[trigger] self@.components[k].dom().contains(
                    x,
                ) implies self@.alive(x) by {
                if x != e {
                    assert(old(self)@.components[k].dom().contains(x));
                }
            }
        }
        Ok(prev)
    }

    /// Takes away the value that `e` holds for `kind` and returns it. Where
    /// `e` holds none or is stale, nothing changes.
    pub fn remove(&mut self, kind: usize, e: Entity) -> (prev: Option<C>)
        requires
            old(self).wf(),
            kind < old(self)@.kinds(),
        ensures
            final(self).wf(),
            final(self)@ == old(self)@.unassign(kind as int, e),
            prev == (if old(self)@.components[kind as int].dom().contains(e) {
                Some(old(self)@.components[kind as int][e])
            } else {
                None
            }),
    {
        let ghost before = self.arenas@;
        let prev = self.arenas[kind].remove(e);
        proof {
            assert(forall|j: int| 0 <= j < before.len() && j != kind ==> self.arenas@[j] == before[j]);
            assert(self@.components =~= old(self)@.unassign(kind as int, e).components);
            assert(self@.spans =~= old(self)@.spans);
            assert(self@ == old(self)@.unassign(kind as int, e));
            assert forall|k: int, x: Entity|
                0 <= k < self@.components.len() && #[trigger] self@.components[k].dom().contains(
                    x,
                ) implies self@.alive(x) by {
                assert(old(self)@.components[k].dom().contains(x));
            }
        }
        prev
    }

    /// The entities that hold a value for `kind`, by ascending index, each
    /// once, together with the arena to read the values from.
    pub fn view_with(&self, kind: usize) -> (out: (Vec<Entity>, &Arena<C>))
        requires
            self.wf(),
            kind < self@.kinds(),
        ensures
            out.1.wf(),
            out.1@ == self@.components[kind as int],
            out.1.span() == self@.spans[kind as int],
            out.0@ == out.1.ordered(),
            strictly_ascending(out.0@),
            forall|e: Entity| #[trigger]
                out.0@.contains(e) <==> self@.components[kind as int].dom().contains(e),
            forall|e: Entity| #[trigger] out.0@.contains(e) ==> self@.alive(e),
    {
        let arena = &self.arenas[kind];
        let entities = crate::views::view_with(arena);
        proof {
            assert forall|e: Entity| #[trigger] entities@.contains(e) implies self@.alive(e) by {
                assert(self@.components[kind as int].dom().contains(e));
            }
        }
        (entities, arena)
    }

    /// The entities that hold a value for both kinds, by ascending index,
    /// each once, together with the two arenas to read the values from.
    pub fn view_with_2(&self, first: usize, second: usize) -> (out: (
        Vec<Entity>,
        &Arena<C>,
        &Arena<C>,
    ))
        requires
            self.wf(),
            first < self@.kinds(),
            second < self@.kinds(),
        ensures
            out.1.wf(),
            out.2.wf(),
            out.1@ == self@.components[first as int],
            out.2@ == self@.components[second as int],
            out.1.span() == self@.spans[first as int],
            out.2.span() == self@.spans[second as int],
            out.0@ == ascending(out.1@.dom().intersect(out.2@.dom()), lesser(out.1.span(), out.2.span())),
            strictly_ascending(out.0@),
            forall|e: Entity| #[trigger]
                out.0@.contains(e) <==> self@.components[first as int].dom().contains(e)
                    && self@.components[second as int].dom().contains(e),
            forall|e: Entity| #[trigger] out.0@.contains(e) ==> self@.alive(e),
    {
        let a = &self.arenas[first];
        let b = &self.arenas[second];
        let entities = crate::views::view_with_2(a, b);
        proof {
            assert forall|e: Entity| #[trigger] entities@.contains(e) implies self@.alive(e) by {
                assert(self@.components[first as int].dom().contains(e));
            }
        }
        (entities, a, b)
    }

    /// Builds an entity without components.
    pub fn create(&mut self) -> (e: Entity)
        requires
            old(self).wf(),
            old(self)@.has_room(),
        ensures
            final(self).wf(),
            e == old(self)@.next(),
            final(self)@ == old(self)@.spawn(None, Seq::empty()),
    {
        let e = self.spawn(None, Vec::new());
        e
    }
}

} // verus!
