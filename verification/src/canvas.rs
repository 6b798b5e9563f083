//! The canvas: a world of nodes, elements and layouts under one root
//! entity, and the orders in which a layout pass and a draw pass walk it.
//!
//! The passes themselves are the caller's: the canvas says which entity
//! comes when, and with which children.

use crate::entity::Entity;
use crate::hierarchy::{children, children_of, pass_order, roots, roots_of, traverse_all};
use crate::laws::lemma_spawn;
use crate::node::Node;
use crate::order::{lemma_pass_holds_all, lemma_pass_once};
use crate::tree::{linked_at, placed, ranked, tidy};
use crate::world::World;
use vstd::prelude::*;

verus! {

/// What a canvas entity can hold besides its node.
#[derive(Debug)]
pub enum Component<E, L> {
    /// What is drawn for the entity.
    Element(E),
    /// Where the entity sits among its siblings.
    Layout(L),
}

/// The component kind of elements.
pub const ELEMENT: usize = 0;

/// The component kind of layouts.
pub const LAYOUT: usize = 1;

/// One step of a layout pass: an entity, and the children to lay out
/// inside it.
#[derive(Debug)]
pub struct LayoutStep {
    /// The entity whose children are laid out in this step.
    pub entity: Entity,
    /// Its children, first child first.
    pub children: Vec<Entity>,
}

/// A world with the two canvas kinds registered, and its root entity.
pub struct CanvasSystem<E, L> {
    world: World<Component<E, L>>,
    entities: Entity,
}

/// The row staged for a canvas entity: an element, a layout where one is
/// given, and nothing for any further kind.
pub open spec fn canvas_row<E, L>(kinds: nat, element: E, layout: Option<L>) -> Seq<
    Option<Component<E, L>>,
> {
    Seq::new(
        kinds,
        |k: int|
            if k == ELEMENT {
                Some(Component::Element(element))
            } else if k == LAYOUT {
                match layout {
                    Some(l) => Some(Component::Layout(l)),
                    None => None,
                }
            } else {
                None
            },
    )
}

impl<E: Default, L: Default> CanvasSystem<E, L> {
    /// The world is well formed and has the two canvas kinds.
    pub closed spec fn wf(&self) -> bool {
        self.world.wf() && self.world@.kinds() >= 2
    }

    /// The canvas world.
    pub closed spec fn model(&self) -> World<Component<E, L>> {
        self.world
    }

    /// The root entity, built with the canvas.
    pub closed spec fn root(&self) -> Entity {
        self.entities
    }

    /// A canvas whose world holds the root entity alone: a root node without
    /// children, with an element and a layout.
    pub fn new() -> (c: CanvasSystem<E, L>)
        ensures
            c.wf(),
            c.model()@.kinds() == 2,
            c.root() == (Entity { index: 0, generation: 0 }),
            c.model()@.alive(c.root()),
            c.model()@.slots() == 1,
            c.model()@.hierarchy == Map::<Entity, Node>::empty().insert(c.root(), Node::unlinked()),
            c.model()@.components[ELEMENT as int].dom() == set![c.root()],
            c.model()@.components[LAYOUT as int].dom() == set![c.root()],
            exists|element: E, layout: L|
                call_ensures(E::default, (), element) && call_ensures(L::default, (), layout)
                    && #[trigger] c.model()@.components[ELEMENT as int][c.root()]
                    == Component::<E, L>::Element(element)
                    && #[trigger] c.model()@.components[LAYOUT as int][c.root()]
                    == Component::<E, L>::Layout(layout),
            c.model()@.hierarchy_span == 1,
            c.model()@.spans == seq![1nat, 1nat],
            tidy(c.model()@.hierarchy),
    {
        let mut world: World<Component<E, L>> = World::new();
        let element_kind = world.register();
        let layout_kind = world.register();
        proof {
            world.lemma_wf();
            assert(!world@.has_vacancy());
        }
        let ghost m = world@;
        let element = E::default();
        let layout = L::default();
        let root = world.build().with_default_node().with(
            layout_kind,
            Component::Layout(layout),
        ).with(element_kind, Component::Element(element)).finish();
        proof {
            let row = seq![Some(Component::Element(element)), Some(Component::Layout(layout))];
            assert(Seq::new(2, |k: int| None::<Component<E, L>>).update(
                1,
                Some(Component::Layout(layout)),
            ).update(0, Some(Component::Element(element))) =~= row);
            lemma_spawn(m, Some(Node::unlinked()), row);
            assert(world@.hierarchy =~= Map::<Entity, Node>::empty().insert(root, Node::unlinked()));
            assert(world@.components[0].dom() =~= set![root]);
            assert(world@.components[1].dom() =~= set![root]);
            assert(world@.spans =~= seq![1nat, 1nat]);
            assert(world@.components[0][root] == Component::<E, L>::Element(element));
            assert(world@.components[1][root] == Component::<E, L>::Layout(layout));
            assert(linked_at(world@.hierarchy, root));
            assert(ranked(world@.hierarchy, |x: Entity| 0nat));
            assert(placed(world@.hierarchy, |x: Entity| 0nat));
        }
        CanvasSystem { world, entities: root }
    }

    /// The canvas world, for reading.
    pub fn world(&self) -> (w: &World<Component<E, L>>)
        ensures
            *w == self.model(),
            self.wf() ==> w.wf() && w@.kinds() >= 2,
    {
        &self.world
    }

    /// The canvas world, for reading and writing. While the world stays
    /// well formed and keeps the two canvas kinds, the canvas stays well
    /// formed.
    pub fn world_mut(&mut self) -> (w: &mut World<Component<E, L>>)
        ensures
            *w == old(self).model(),
            old(self).wf() ==> w.wf() && w@.kinds() >= 2,
            final(self).model() == *final(w),
            final(self).root() == old(self).root(),
            final(w).wf() && final(w)@.kinds() >= 2 ==> final(self).wf(),
    {
        &mut self.world
    }

    /// Builds an entity with a root node without children, a default
    /// element and a default layout.
    pub fn create(&mut self) -> (e: Entity)
        requires
            old(self).wf(),
            old(self).model()@.has_room(),
        ensures
            final(self).wf(),
            final(self).root() == old(self).root(),
            e == old(self).model()@.next(),
            exists|element: E, layout: L|
                call_ensures(E::default, (), element) && call_ensures(L::default, (), layout)
                    && final(self).model()@ == old(self).model()@.spawn(
                    Some(Node::unlinked()),
                    #[trigger] canvas_row(old(self).model()@.kinds(), element, Some(layout)),
                ),
            tidy(old(self).model()@.hierarchy) ==> tidy(final(self).model()@.hierarchy),
    {
        let element = E::default();
        let layout = L::default();
        let ghost m = self.world@;
        let e = self.world.build().with_default_node().with(LAYOUT, Component::Layout(layout)).with(
            ELEMENT,
            Component::Element(element),
        ).finish();
        proof {
            let row = canvas_row(m.kinds(), element, Some(layout));
            assert(Seq::new(m.kinds(), |k: int| None::<Component<E, L>>).update(
                LAYOUT as int,
                Some(Component::Layout(layout)),
            ).update(ELEMENT as int, Some(Component::Element(element))) =~= row);
            old(self).world.lemma_wf();
            lemma_spawn(m, Some(Node::unlinked()), row);
        }
        e
    }

    /// Builds an entity with a root node without children and `text` as its
    /// element. It gets no layout.
    pub fn create_text(&mut self, text: E) -> (e: Entity)
        requires
            old(self).wf(),
            old(self).model()@.has_room(),
        ensures
            final(self).wf(),
            final(self).root() == old(self).root(),
            e == old(self).model()@.next(),
            final(self).model()@ == old(self).model()@.spawn(
                Some(Node::unlinked()),
                canvas_row(old(self).model()@.kinds(), text, None),
            ),
            tidy(old(self).model()@.hierarchy) ==> tidy(final(self).model()@.hierarchy),
    {
        let ghost m = self.world@;
        let e = self.world.build().with_default_node().with(ELEMENT, Component::Element(text)).finish();
        proof {
            let row = canvas_row(m.kinds(), text, None);
            assert(Seq::new(m.kinds(), |k: int| None::<Component<E, L>>).update(
                ELEMENT as int,
                Some(Component::Element(text)),
            ) =~= row);
            old(self).world.lemma_wf();
            lemma_spawn(m, Some(Node::unlinked()), row);
        }
        e
    }

    /// The steps of a layout pass, in order: first the canvas root with all
    /// roots as its children, then every entity of every root's tree in
    /// pre-order, each with its own children.
    pub fn perform_layout(&self) -> (steps: Vec<LayoutStep>)
        requires
            self.wf(),
        ensures
            steps@.len() == pass_order(&self.model().node_arena()).len() + 1,
            steps@[0].entity == self.root(),
            steps@[0].children@ == roots_of(&self.model().node_arena()),
            forall|i: int|
                0 <= i < pass_order(&self.model().node_arena()).len() ==> (#[trigger] steps@[i
                    + 1]).entity == pass_order(&self.model().node_arena())[i] && steps@[i
                    + 1].children@ == children_of(
                    self.model().node_arena()@,
                    pass_order(&self.model().node_arena())[i],
                    self.model().node_arena().span(),
                ),
    {
        let nodes = self.world.nodes();
        let tops = roots(nodes);
        let order = traverse_all(nodes, &tops);
        let mut steps: Vec<LayoutStep> = Vec::new();
        steps.push(LayoutStep { entity: self.entities, children: tops });
        let mut i: usize = 0;
        while i < order.len()
            invariant
                i <= order@.len(),
                nodes.wf(),
                steps@.len() == i + 1,
                steps@[0].entity == self.entities,
                steps@[0].children@ == roots_of(nodes),
                forall|j: int|
                    0 <= j < i ==> (#[trigger] steps@[j + 1]).entity == order@[j] && steps@[j
                        + 1].children@ == children_of(nodes@, order@[j], nodes.span()),
            decreases order@.len() - i,
        {
            let e = order[i];
            let kids = children(nodes, e);
            steps.push(LayoutStep { entity: e, children: kids });
            i = i + 1;
        }
        steps
    }

    /// The order of a draw pass: every entity of every root's tree in
    /// pre-order, the roots by ascending index. In a well-kept hierarchy
    /// that is every entity with a node, each once.
    pub fn draw(&self) -> (order: Vec<Entity>)
        requires
            self.wf(),
        ensures
            order@ == pass_order(&self.model().node_arena()),
            tidy(self.model()@.hierarchy) ==> order@.no_duplicates() && forall|x: Entity| #[trigger]
                order@.contains(x) <==> self.model()@.hierarchy.dom().contains(x),
    {
        let nodes = self.world.nodes();
        let tops = roots(nodes);
        let order = traverse_all(nodes, &tops);
        proof {
            if tidy(nodes@) {
                assert forall|x: Entity| #[trigger]
                    order@.contains(x) <==> nodes@.dom().contains(x) by {
                    lemma_pass_holds_all(nodes, x);
                }
                assert forall|i: int, j: int|
                    0 <= i < order@.len() && 0 <= j < order@.len() && i != j implies order@[i]
                    != order@[j] by {
                    if i < j {
                        lemma_pass_once(nodes, i, j);
                    } else {
                        lemma_pass_once(nodes, j, i);
                    }
                }
            }
        }
        order
    }
}

} // verus!
