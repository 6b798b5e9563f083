//! Changing the hierarchy: taking an entity out of its parent's child list
//! and putting it at the head of another's.

use crate::arena::Arena;
use crate::entity::Entity;
use crate::node::Node;
use crate::tree::{lemma_detach_tidy, lemma_reparent_tidy, tidy};
use vstd::prelude::*;

verus! {

/// Why a change of parent was refused.
#[derive(Clone, Copy, Debug, PartialEq, Eq, Structural)]
pub enum HierarchyError {
    /// The child or the new parent holds no node.
    Missing,
    /// The new parent is the child itself or one of its descendants, or its
    /// own ancestors already run in a cycle.
    Cycle,
}

/// `m` with `next_sibling` of `e` set to `v`, where `e` holds a node.
pub open spec fn with_next(m: Map<Entity, Node>, e: Entity, v: Option<Entity>) -> Map<Entity, Node> {
    if m.dom().contains(e) {
        m.insert(e, Node { next_sibling: v, ..m[e] })
    } else {
        m
    }
}

/// `m` with `prev_sibling` of `e` set to `v`, where `e` holds a node.
pub open spec fn with_prev(m: Map<Entity, Node>, e: Entity, v: Option<Entity>) -> Map<Entity, Node> {
    if m.dom().contains(e) {
        m.insert(e, Node { prev_sibling: v, ..m[e] })
    } else {
        m
    }
}

/// `m` with `first_child` of `e` set to `v`, where `e` holds a node.
pub open spec fn with_first(m: Map<Entity, Node>, e: Entity, v: Option<Entity>) -> Map<Entity, Node> {
    if m.dom().contains(e) {
        m.insert(e, Node { first_child: v, ..m[e] })
    } else {
        m
    }
}

/// `m` after `c` is taken out of its sibling list: its previous sibling, or
/// its parent where `c` was the first child, is linked to its next sibling,
/// the next sibling back to the previous one, and `c` becomes a root without
/// siblings. Its own children stay with it.
pub open spec fn detached(m: Map<Entity, Node>, c: Entity) -> Map<Entity, Node> {
    if !m.dom().contains(c) {
        m
    } else {
        let n = m[c];
        let m1 = match n.prev_sibling {
            Some(p) => with_next(m, p, n.next_sibling),
            None => match n.parent {
                Some(q) => if m.dom().contains(q) && m[q].first_child == Some(c) {
                    with_first(m, q, n.next_sibling)
                } else {
                    m
                },
                None => m,
            },
        };
        let m2 = match n.next_sibling {
            Some(s) => with_prev(m1, s, n.prev_sibling),
            None => m1,
        };
        m2.insert(c, Node { parent: None, next_sibling: None, prev_sibling: None, ..m2[c] })
    }
}

/// `m` after `c` is put at the head of the child list of `p`.
pub open spec fn attached(m: Map<Entity, Node>, c: Entity, p: Entity) -> Map<Entity, Node> {
    let head = m[p].first_child;
    let m1 = m.insert(c, Node { parent: Some(p), prev_sibling: None, next_sibling: head, ..m[c] });
    let m2 = match head {
        Some(h) => with_prev(m1, h, Some(c)),
        None => m1,
    };
    m2.insert(p, Node { first_child: Some(c), ..m2[p] })
}

/// Whether following `parent` links from `from` reaches `target`, or is
/// still under way after `fuel` steps past the first. A link that names no
/// node ends the climb.
pub open spec fn climbs_to(m: Map<Entity, Node>, from: Entity, target: Entity, fuel: nat) -> bool
    decreases fuel,
{
    if !m.dom().contains(from) {
        false
    } else {
        match m[from].parent {
            Some(p) => p == target || fuel == 0 || climbs_to(m, p, target, (fuel - 1) as nat),
            None => false,
        }
    }
}

/// What a change of parent leaves behind where it is accepted.
pub open spec fn reparented(m: Map<Entity, Node>, child: Entity, parent: Option<Entity>) -> Map<
    Entity,
    Node,
> {
    match parent {
        Some(p) => attached(detached(m, child), child, p),
        None => detached(m, child),
    }
}

/// Why a change of parent is refused, if it is.
pub open spec fn refusal(m: Map<Entity, Node>, child: Entity, parent: Option<Entity>, fuel: nat) -> Option<
    HierarchyError,
> {
    if !m.dom().contains(child) {
        Some(HierarchyError::Missing)
    } else {
        match parent {
            Some(p) => if !m.dom().contains(p) {
                Some(HierarchyError::Missing)
            } else if p == child || climbs_to(m, p, child, fuel) {
                Some(HierarchyError::Cycle)
            } else {
                None
            },
            None => None,
        }
    }
}

fn set_next(nodes: &mut Arena<Node>, e: Entity, v: Option<Entity>)
    requires
        old(nodes).wf(),
    ensures
        final(nodes).wf(),
        final(nodes).span() == old(nodes).span(),
        final(nodes)@ == with_next(old(nodes)@, e, v),
{
    match nodes.get_mut(e) {
        Some(n) => {
            n.next_sibling = v;
        },
        None => {},
    }
}

fn set_prev(nodes: &mut Arena<Node>, e: Entity, v: Option<Entity>)
    requires
        old(nodes).wf(),
    ensures
        final(nodes).wf(),
        final(nodes).span() == old(nodes).span(),
        final(nodes)@ == with_prev(old(nodes)@, e, v),
{
    match nodes.get_mut(e) {
        Some(n) => {
            n.prev_sibling = v;
        },
        None => {},
    }
}

fn set_first(nodes: &mut Arena<Node>, e: Entity, v: Option<Entity>)
    requires
        old(nodes).wf(),
    ensures
        final(nodes).wf(),
        final(nodes).span() == old(nodes).span(),
        final(nodes)@ == with_first(old(nodes)@, e, v),
{
    match nodes.get_mut(e) {
        Some(n) => {
            n.first_child = v;
        },
        None => {},
    }
}

/// Whether `ancestor` is reached from `e` by following `parent` links. A
/// climb that has not ended after as many steps as the arena has cells runs
/// in a cycle and counts as reaching it.
pub fn is_ancestor(nodes: &Arena<Node>, ancestor: Entity, e: Entity) -> (b: bool)
    requires
        nodes.wf(),
    ensures
        b == climbs_to(nodes@, e, ancestor, nodes.span()),
{
    let limit: usize = nodes.capacity();
    let mut cursor: Entity = e;
    let mut steps: usize = 0;
    let ghost m = nodes@;
    loop
        invariant
            steps <= limit,
            limit == nodes.span(),
            m == nodes@,
            climbs_to(m, e, ancestor, limit as nat) == climbs_to(
                m,
                cursor,
                ancestor,
                (limit - steps) as nat,
            ),
        decreases limit - steps,
    {
        let up = match nodes.get(cursor) {
            Some(n) => n.parent,
            None => None,
        };
        match up {
            Some(p) => {
                if p == ancestor || steps == limit {
                    return true;
                }
                cursor = p;
                steps = steps + 1;
            },
            None => {
                return false;
            },
        }
    }
}

/// Takes `child` out of its parent's child list and makes it a root. Its
/// own children stay with it. Where `child` holds no node, nothing changes.
pub fn detach(nodes: &mut Arena<Node>, child: Entity)
    requires
        old(nodes).wf(),
    ensures
        final(nodes).wf(),
        final(nodes).span() == old(nodes).span(),
        final(nodes)@ == detached(old(nodes)@, child),
        final(nodes)@.dom() == old(nodes)@.dom(),
        tidy(old(nodes)@) ==> tidy(final(nodes)@),
{
    proof {
        if tidy(nodes@) {
            lemma_detach_tidy(nodes@, child);
        }
    }
    let n: Node = match nodes.get(child) {
        Some(n) => *n,
        None => {
            return ;
        },
    };
    match n.prev_sibling {
        Some(p) => {
            set_next(nodes, p, n.next_sibling);
        },
        None => {
            match n.parent {
                Some(q) => {
                    let heads = match nodes.get(q) {
                        Some(qn) => qn.first_child == Some(child),
                        None => false,
                    };
                    if heads {
                        set_first(nodes, q, n.next_sibling);
                    }
                },
                None => {},
            }
        },
    }
    match n.next_sibling {
        Some(s) => {
            set_prev(nodes, s, n.prev_sibling);
        },
        None => {},
    }
    assert(nodes@.dom() =~= old(nodes)@.dom());
    match nodes.get_mut(child) {
        Some(own) => {
            own.parent = None;
            own.next_sibling = None;
            own.prev_sibling = None;
        },
        None => {},
    }
    assert(nodes@.dom() =~= old(nodes)@.dom());
}

/// Gives `child` the parent `parent`, or makes it a root where `parent` is
/// `None`: `child` is first taken out of its old sibling list, then put at
/// the head of the new parent's child list. Refused, with nothing changed,
/// where `child` or the new parent holds no node, or where the new parent is
/// `child` itself, sits below it, or sits on links that already run in a
/// cycle.
pub fn set_parent(nodes: &mut Arena<Node>, child: Entity, parent: Option<Entity>) -> (r: Result<
    (),
    HierarchyError,
>)
    requires
        old(nodes).wf(),
    ensures
        final(nodes).wf(),
        final(nodes).span() == old(nodes).span(),
        final(nodes)@.dom() == old(nodes)@.dom(),
        match refusal(old(nodes)@, child, parent, old(nodes).span()) {
            Some(why) => r == Err::<(), HierarchyError>(why) && final(nodes)@ == old(nodes)@,
            None => r is Ok && final(nodes)@ == reparented(old(nodes)@, child, parent),
        },
        tidy(old(nodes)@) ==> tidy(final(nodes)@),
{
    proof {
        if tidy(nodes@) && refusal(nodes@, child, parent, nodes.span()) is None {
            lemma_reparent_tidy(nodes@, child, parent, nodes.span());
        }
    }
    if !nodes.contains(child) {
        return Err(HierarchyError::Missing);
    }
    match parent {
        Some(p) => {
            if !nodes.contains(p) {
                return Err(HierarchyError::Missing);
            }
            if p == child || is_ancestor(nodes, child, p) {
                return Err(HierarchyError::Cycle);
            }
            detach(nodes, child);
            let head = nodes.get_unchecked(p).first_child;
            match nodes.get_mut(child) {
                Some(own) => {
                    own.parent = Some(p);
                    own.prev_sibling = None;
                    own.next_sibling = head;
                },
                None => {},
            }
            match head {
                Some(h) => {
                    set_prev(nodes, h, Some(child));
                },
                None => {},
            }
            set_first(nodes, p, Some(child));
            assert(nodes@.dom() =~= old(nodes)@.dom());
        },
        None => {
            detach(nodes, child);
        },
    }
    Ok(())
}

} // verus!
