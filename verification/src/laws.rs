//! What holds of every world, proved over the model.

use crate::entity::Entity;
use crate::model::{is_lowest, lowest, Model};
use crate::node::Node;
use vstd::prelude::*;

verus! {

/// A set has at most one lowest member: what is lowest is the lowest.
pub proof fn lemma_lowest(s: Set<u32>, i: u32)
    requires
        is_lowest(s, i),
    ensures
        lowest(s) == i,
{
    let c = lowest(s);
    assert(is_lowest(s, c));
}

/// The entity that the next build yields is not alive yet, and no entity at
/// its index is.
pub proof fn lemma_next_is_new<C>(m: Model<C>)
    requires
        m.inv(),
        m.has_room(),
    ensures
        (m.next().index as nat) <= m.slots(),
        m.has_vacancy() ==> is_lowest(m.vacant, m.next().index),
        forall|x: Entity| x.index == m.next().index ==> !m.alive(x),
        forall|x: Entity| x.index == m.next().index ==> !m.hierarchy.dom().contains(x),
        forall|k: int, x: Entity|
            0 <= k < m.components.len() && x.index == m.next().index ==> !(
            #[trigger] m.components[k].dom().contains(x)),
{
    if m.has_vacancy() {
        let w = choose|i: u32| m.vacant.contains(i);
        lemma_has_lowest(m.vacant, w);
        let c = lowest(m.vacant);
        assert(is_lowest(m.vacant, c));
        assert(m.vacant.contains(c));
    }
}

/// A set of indices with a member has a lowest member.
pub proof fn lemma_has_lowest(s: Set<u32>, w: u32)
    requires
        s.contains(w),
    ensures
        exists|i: u32| is_lowest(s, i),
    decreases w,
{
    if forall|j: u32| s.contains(j) ==> w <= j {
        assert(is_lowest(s, w));
    } else {
        let j = choose|j: u32| s.contains(j) && j < w;
        lemma_has_lowest(s, j);
    }
}

/// Building keeps the invariant; the new entity is alive and holds exactly
/// what was staged for it: the node if one was staged, and per kind the
/// staged value, or nothing where none was staged. Every other entity is as
/// alive as before and holds what it held.
pub proof fn lemma_spawn<C>(m: Model<C>, node: Option<Node>, staged: Seq<Option<C>>)
    requires
        m.inv(),
        m.has_room(),
    ensures
        m.spawn(node, staged).inv(),
        m.spawn(node, staged).alive(m.next()),
        !m.alive(m.next()),
        m.spawn(node, staged).kinds() == m.kinds(),
        node is Some ==> m.spawn(node, staged).hierarchy.dom().contains(m.next()) && m.spawn(
            node,
            staged,
        ).hierarchy[m.next()] == node.unwrap(),
        node is None ==> !m.spawn(node, staged).hierarchy.dom().contains(m.next()),
        forall|k: int|
            0 <= k < m.kinds() && k < staged.len() && staged[k] is Some ==> (#[trigger] m.spawn(
                node,
                staged,
            ).components[k]).dom().contains(m.next()) && m.spawn(node, staged).components[k][m.next()]
                == staged[k].unwrap(),
        forall|k: int|
            0 <= k < m.kinds() && !(k < staged.len() && staged[k] is Some) ==> !(#[trigger] m.spawn(
                node,
                staged,
            ).components[k]).dom().contains(m.next()),
        forall|x: Entity| x != m.next() ==> m.spawn(node, staged).alive(x) == m.alive(x),
        forall|x: Entity|
            x != m.next() ==> m.spawn(node, staged).hierarchy.dom().contains(x)
                == m.hierarchy.dom().contains(x) && m.spawn(node, staged).hierarchy[x]
                == m.hierarchy[x],
        forall|k: int, x: Entity|
            0 <= k < m.kinds() && x != m.next() ==> (#[trigger] m.spawn(
                node,
                staged,
            ).components[k].dom().contains(x)) == m.components[k].dom().contains(x) && m.spawn(
                node,
                staged,
            ).components[k][x] == m.components[k][x],
{
    lemma_next_is_new(m);
    let e = m.next();
    let n = m.spawn(node, staged);
    assert(n.alive(e));
    assert forall|x: Entity| x != e implies n.alive(x) == m.alive(x) by {}
    assert forall|x: Entity| m.alive(x) implies n.alive(x) by {}
    assert forall|x: Entity| #[trigger] n.hierarchy.dom().contains(x) implies n.alive(x) by {
        if x != e {
            assert(m.hierarchy.dom().contains(x));
        }
    }
    assert forall|k: int, x: Entity|
        0 <= k < n.components.len() && #[trigger] n.components[k].dom().contains(
            x,
        ) implies n.alive(x) by {
        if x != e {
            assert(m.components[k].dom().contains(x));
        }
    }
    assert forall|i: u32| #[trigger] n.vacant.contains(i) implies (i as int) < n.generations.len()
        && !n.live[i as int] by {
        assert(m.vacant.contains(i));
    }
}

/// Freeing keeps the invariant and spends the handle: it is no longer alive
/// and no store holds it. Every other entity is as alive as before and holds
/// what it held.
pub proof fn lemma_release<C>(m: Model<C>, e: Entity)
    requires
        m.inv(),
        m.alive(e),
    ensures
        m.release(e).inv(),
        m.release(e).spent(e),
        !m.release(e).alive(e),
        m.release(e).kinds() == m.kinds(),
        !m.release(e).hierarchy.dom().contains(e),
        forall|k: int| 0 <= k < m.kinds() ==> !(#[trigger] m.release(e).components[k]).dom().contains(e),
        forall|x: Entity| x != e ==> m.release(e).alive(x) == m.alive(x),
        forall|x: Entity|
            x != e ==> m.release(e).hierarchy.dom().contains(x) == m.hierarchy.dom().contains(x)
                && m.release(e).hierarchy[x] == m.hierarchy[x],
        forall|k: int, x: Entity|
            0 <= k < m.kinds() && x != e ==> (#[trigger] m.release(e).components[k].dom().contains(x))
                == m.components[k].dom().contains(x) && m.release(e).components[k][x]
                == m.components[k][x],
{
    let n = m.release(e);
    assert forall|x: Entity| x != e implies n.alive(x) == m.alive(x) by {}
    assert forall|x: Entity| #[trigger] n.hierarchy.dom().contains(x) implies n.alive(x) by {
        assert(m.hierarchy.dom().contains(x));
    }
    assert forall|k: int, x: Entity|
        0 <= k < n.components.len() && #[trigger] n.components[k].dom().contains(
            x,
        ) implies n.alive(x) by {
        assert(m.components[k].dom().contains(x));
    }
    assert forall|i: u32| #[trigger] n.vacant.contains(i) implies (i as int) < n.generations.len()
        && !n.live[i as int] by {
        if i != e.index {
            assert(m.vacant.contains(i));
        }
    }
}

/// A spent handle is not alive, and no store holds it.
pub proof fn lemma_spent_is_absent<C>(m: Model<C>, e: Entity)
    requires
        m.inv(),
        m.spent(e),
    ensures
        !m.alive(e),
        !m.hierarchy.dom().contains(e),
        forall|k: int| 0 <= k < m.kinds() ==> !(#[trigger] m.components[k]).dom().contains(e),
{
}

/// A spent handle stays spent when an entity is built, whatever index the
/// new entity takes.
pub proof fn lemma_spent_survives_spawn<C>(
    m: Model<C>,
    e: Entity,
    node: Option<Node>,
    staged: Seq<Option<C>>,
)
    requires
        m.inv(),
        m.has_room(),
        m.spent(e),
    ensures
        m.spawn(node, staged).spent(e),
{
    lemma_next_is_new(m);
}

/// A spent handle stays spent when an entity is freed.
pub proof fn lemma_spent_survives_release<C>(m: Model<C>, e: Entity, freed: Entity)
    requires
        m.inv(),
        m.alive(freed),
        m.spent(e),
    ensures
        m.release(freed).spent(e),
{
}

/// Whether a handle is spent depends on the entity table alone: a spent
/// handle stays spent when a kind is registered, when a component is
/// assigned or taken away, and when values change in any store.
pub proof fn lemma_spent_survives_stores<C>(m: Model<C>, after: Model<C>, e: Entity)
    requires
        m.spent(e),
        after.generations == m.generations,
        after.live == m.live,
        after.vacant == m.vacant,
    ensures
        after.spent(e),
{
}

/// A freed handle is never mistaken for a later entity: the entity that is
/// built next is another handle, also where it takes the freed handle's
/// index, and after it is built the freed handle is still not alive and no
/// store holds it.
pub proof fn lemma_freed_handle_stays_absent<C>(
    m: Model<C>,
    e: Entity,
    node: Option<Node>,
    staged: Seq<Option<C>>,
)
    requires
        m.inv(),
        m.alive(e),
        m.release(e).has_room(),
    ensures
        m.release(e).next() != e,
        !m.release(e).spawn(node, staged).alive(e),
        !m.release(e).spawn(node, staged).hierarchy.dom().contains(e),
        forall|k: int|
            0 <= k < m.kinds() ==> !(#[trigger] m.release(e).spawn(node, staged).components[k]).dom().contains(
                e,
            ),
{
    let r = m.release(e);
    lemma_release(m, e);
    lemma_spawn(r, node, staged);
    lemma_spent_survives_spawn(r, e, node, staged);
    lemma_spent_is_absent(r.spawn(node, staged), e);
    lemma_next_is_new(r);
    if r.next() == e {
        assert(r.spawn(node, staged).alive(e));
    }
}

} // verus!
