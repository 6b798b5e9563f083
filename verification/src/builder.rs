//! Building an entity step by step: stage components, then finish.

use crate::entity::Entity;
use crate::node::Node;
use crate::tree::tidy;
use crate::world::World;
use vstd::prelude::*;

verus! {

/// An entity under construction: the components staged for it so far, and
/// the world that will hold it.
pub struct EntityBuilder<'a, C> {
    /// The world the entity will be built in.
    pub world: &'a mut World<C>,
    /// The hierarchy node staged for the entity, if any.
    pub node: Option<Node>,
    /// Per component kind, the value staged for the entity, if any.
    pub staged: Vec<Option<C>>,
}

impl<'a, C> EntityBuilder<'a, C> {
    /// Stages `value` for `kind`, in place of what was staged for it before.
    pub fn with(self, kind: usize, value: C) -> (b: EntityBuilder<'a, C>)
        requires
            kind < self.staged@.len(),
        ensures
            b.world == self.world,
            b.node == self.node,
            b.staged@ == self.staged@.update(kind as int, Some(value)),
    {
        let mut b = self;
        b.staged[kind] = Some(value);
        b
    }

    /// Stages the default value of the component type for `kind`.
    pub fn with_default(self, kind: usize) -> (b: EntityBuilder<'a, C>) where C: Default
        requires
            kind < self.staged@.len(),
        ensures
            b.world == self.world,
            b.node == self.node,
            exists|value: C|
                call_ensures(C::default, (), value) && #[trigger] self.staged@.update(
                    kind as int,
                    Some(value),
                ) == b.staged@,
    {
        self.with(kind, C::default())
    }

    /// Stages `node` as the entity's place in the hierarchy.
    pub fn with_node(self, node: Node) -> (b: EntityBuilder<'a, C>)
        ensures
            b.world == self.world,
            b.node == Some(node),
            b.staged@ == self.staged@,
    {
        let mut b = self;
        b.node = Some(node);
        b
    }

    /// Stages a node without links: the entity will be a root without
    /// children.
    pub fn with_default_node(self) -> (b: EntityBuilder<'a, C>)
        ensures
            b.world == self.world,
            b.node == Some(Node::unlinked()),
            b.staged@ == self.staged@,
    {
        self.with_node(Node::new())
    }

    /// Builds the entity with what was staged and returns its handle, which
    /// is alive at once.
    pub fn finish(self) -> (e: Entity)
        requires
            old(self.world).wf(),
            old(self.world)@.has_room(),
        ensures
            final(self.world).wf(),
            e == old(self.world)@.next(),
            final(self.world)@ == old(self.world)@.spawn(self.node, self.staged@),
            !old(self.world)@.alive(e),
            final(self.world)@.alive(e),
            final(self.world).node_arena()@.get(e) == self.node,
            forall|k: int|
                0 <= k < old(self.world)@.kinds() ==> (#[trigger] final(self.world)@.components[k]).get(
                    e,
                ) == (if k < self.staged@.len() {
                    self.staged@[k]
                } else {
                    None
                }),
            tidy(old(self.world)@.hierarchy) && (self.node is None || self.node == Some(
                Node::unlinked(),
            )) ==> tidy(final(self.world)@.hierarchy),
    {
        let b = self;
        b.world.spawn(b.node, b.staged)
    }
}

impl<C> World<C> {
    /// Starts building an entity: nothing is staged yet, and the world is
    /// changed only when the builder is finished.
    pub fn build(&mut self) -> (b: EntityBuilder<'_, C>)
        requires
            old(self).wf(),
        ensures
            *b.world == *old(self),
            *final(b.world) == *final(self),
            b.node is None,
            b.staged@ == Seq::new(old(self)@.kinds(), |k: int| None::<C>),
    {
        let n: usize = self.kinds();
        let mut staged: Vec<Option<C>> = Vec::new();
        let mut k: usize = 0;
        while k < n
            invariant
                k <= n,
                staged@ == Seq::new(k as nat, |k: int| None::<C>),
            decreases n - k,
        {
            staged.push(None);
            k = k + 1;
            assert(staged@ =~= Seq::new(k as nat, |k: int| None::<C>));
        }
        EntityBuilder { world: self, node: None, staged }
    }
}

} // verus!
