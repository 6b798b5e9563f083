//! What a well-kept hierarchy looks like, and that taking an entity out of
//! its list and putting it under another parent keep it that way.

use crate::entity::Entity;
use crate::hierarchy::{chain, children_of, forest, subtree};
use crate::node::Node;
use crate::reparent::{attached, climbs_to, detached, refusal, reparented};
use vstd::prelude::*;

verus! {

/// The links of `x` agree with the nodes they name: its parent holds a
/// node; a root has no siblings; its next sibling points back at it and has
/// the same parent; its previous sibling points forward at it; its first
/// child names it as parent and has no previous sibling; and where `x` has a
/// parent but no previous sibling, it is that parent's first child.
pub open spec fn linked_at(m: Map<Entity, Node>, x: Entity) -> bool {
    let n = m[x];
    &&& (n.parent matches Some(p) ==> m.dom().contains(p))
    &&& (n.parent is None ==> n.next_sibling is None && n.prev_sibling is None)
    &&& (n.next_sibling matches Some(s) ==> m.dom().contains(s) && m[s].prev_sibling == Some(x)
        && m[s].parent == n.parent)
    &&& (n.prev_sibling matches Some(p) ==> m.dom().contains(p) && m[p].next_sibling == Some(x))
    &&& (n.first_child matches Some(c) ==> m.dom().contains(c) && m[c].parent == Some(x)
        && m[c].prev_sibling is None)
    &&& (n.parent matches Some(p) ==> n.prev_sibling is None ==> m[p].first_child == Some(x))
}

/// Every node's links agree with the nodes they name.
pub open spec fn linked(m: Map<Entity, Node>) -> bool {
    forall|x: Entity| #[trigger] m.dom().contains(x) ==> linked_at(m, x)
}

/// `rank` grows from every parent to its children.
pub open spec fn ranked(m: Map<Entity, Node>, rank: spec_fn(Entity) -> nat) -> bool {
    forall|x: Entity| #[trigger]
        m.dom().contains(x) ==> (m[x].parent matches Some(p) ==> rank(p) < rank(x))
}

/// No entity is its own ancestor: some rank grows from every parent to its
/// children.
pub open spec fn acyclic(m: Map<Entity, Node>) -> bool {
    exists|rank: spec_fn(Entity) -> nat| ranked(m, rank)
}

/// `place` grows from every entity to its next sibling.
pub open spec fn placed(m: Map<Entity, Node>, place: spec_fn(Entity) -> nat) -> bool {
    forall|x: Entity| #[trigger]
        m.dom().contains(x) ==> (m[x].prev_sibling matches Some(a) ==> place(a) < place(x))
}

/// No sibling list runs in a ring: some place grows from every entity to
/// its next sibling.
pub open spec fn lined(m: Map<Entity, Node>) -> bool {
    exists|place: spec_fn(Entity) -> nat| placed(m, place)
}

/// A well-kept hierarchy: the links agree with each other, no entity is its
/// own ancestor, and no sibling list runs in a ring.
pub open spec fn tidy(m: Map<Entity, Node>) -> bool {
    linked(m) && acyclic(m) && lined(m)
}

/// Taking an entity out of its list keeps the links in agreement.
pub proof fn lemma_detach_linked(m: Map<Entity, Node>, c: Entity)
    requires
        linked(m),
    ensures
        linked(detached(m, c)),
{
    let r = detached(m, c);
    if m.dom().contains(c) {
        let n = m[c];
        assert(linked_at(m, c));
        assert(r.dom() =~= m.dom());
        assert forall|x: Entity| #[trigger] r.dom().contains(x) implies linked_at(r, x) by {
            assert(linked_at(m, x));
            if n.prev_sibling is Some {
                assert(linked_at(m, n.prev_sibling.unwrap()));
            }
            if n.next_sibling is Some {
                assert(linked_at(m, n.next_sibling.unwrap()));
            }
            if n.parent is Some {
                assert(linked_at(m, n.parent.unwrap()));
            }
            let rx = r[x];
            if rx.parent is Some {
                assert(m.dom().contains(rx.parent.unwrap()));
                assert(linked_at(m, rx.parent.unwrap()));
            }
            if rx.next_sibling is Some {
                assert(m.dom().contains(rx.next_sibling.unwrap()));
                assert(linked_at(m, rx.next_sibling.unwrap()));
            }
            if rx.prev_sibling is Some {
                assert(m.dom().contains(rx.prev_sibling.unwrap()));
                assert(linked_at(m, rx.prev_sibling.unwrap()));
            }
            if rx.first_child is Some {
                assert(m.dom().contains(rx.first_child.unwrap()));
                assert(linked_at(m, rx.first_child.unwrap()));
            }
        }
    }
}

/// Taking an entity out of its list removes a parent link and adds none, so
/// a rank that grew along the links still does.
pub proof fn lemma_detach_ranked(m: Map<Entity, Node>, c: Entity, rank: spec_fn(Entity) -> nat)
    requires
        ranked(m, rank),
    ensures
        ranked(detached(m, c), rank),
{
    let r = detached(m, c);
    if m.dom().contains(c) {
        assert(r.dom() =~= m.dom());
        assert forall|x: Entity| #[trigger] r.dom().contains(x) implies (r[x].parent matches Some(p)
            ==> rank(p) < rank(x)) by {
            assert(m.dom().contains(x));
            assert(x != c ==> r[x].parent == m[x].parent);
        }
    }
}

/// Taking an entity out of its list joins its two neighbours, whose places
/// were in order before.
pub proof fn lemma_detach_placed(m: Map<Entity, Node>, c: Entity, place: spec_fn(Entity) -> nat)
    requires
        linked(m),
        placed(m, place),
    ensures
        placed(detached(m, c), place),
{
    let r = detached(m, c);
    if m.dom().contains(c) {
        assert(r.dom() =~= m.dom());
        assert(linked_at(m, c));
        assert forall|x: Entity| #[trigger] r.dom().contains(x) implies (
        r[x].prev_sibling matches Some(a) ==> place(a) < place(x)) by {
            assert(m.dom().contains(x));
            assert(linked_at(m, x));
            if m[c].next_sibling == Some(x) && x != c {
                assert(m[x].prev_sibling == Some(c));
            }
        }
    }
}

/// Taking an entity out of its list keeps a hierarchy well kept, and leaves
/// the entity a root without siblings.
pub proof fn lemma_detach_tidy(m: Map<Entity, Node>, c: Entity)
    requires
        tidy(m),
    ensures
        tidy(detached(m, c)),
        m.dom().contains(c) ==> detached(m, c)[c].parent is None && detached(
            m,
            c,
        )[c].next_sibling is None && detached(m, c)[c].prev_sibling is None,
{
    lemma_detach_linked(m, c);
    let rank = choose|rank: spec_fn(Entity) -> nat| ranked(m, rank);
    lemma_detach_ranked(m, c, rank);
    let place = choose|place: spec_fn(Entity) -> nat| placed(m, place);
    lemma_detach_placed(m, c, place);
}

/// Whether following `parent` links from `from` reaches `target` within
/// `fuel` steps.
pub open spec fn reaches(m: Map<Entity, Node>, from: Entity, target: Entity, fuel: nat) -> bool
    decreases fuel,
{
    if fuel == 0 || !m.dom().contains(from) {
        false
    } else {
        match m[from].parent {
            Some(p) => p == target || reaches(m, p, target, (fuel - 1) as nat),
            None => false,
        }
    }
}

/// Under a rank that grows along the links, a climb from `from` is over
/// after as many steps as the rank of `from`: more fuel finds nothing more.
pub proof fn lemma_rank_is_fuel_enough(
    m: Map<Entity, Node>,
    rank: spec_fn(Entity) -> nat,
    from: Entity,
    target: Entity,
    fuel: nat,
)
    requires
        ranked(m, rank),
        fuel >= rank(from),
    ensures
        reaches(m, from, target, fuel) == reaches(m, from, target, rank(from)),
    decreases fuel,
{
    if m.dom().contains(from) {
        match m[from].parent {
            Some(p) => {
                assert(rank(p) < rank(from));
                if p != target {
                    lemma_rank_is_fuel_enough(m, rank, p, target, (fuel - 1) as nat);
                    lemma_rank_is_fuel_enough(m, rank, p, target, (rank(from) - 1) as nat);
                }
            },
            None => {},
        }
    }
}

/// A climb that reaches its target within some number of steps is not
/// missed by the bounded climb, whatever its bound.
pub proof fn lemma_reaches_is_seen(
    m: Map<Entity, Node>,
    from: Entity,
    target: Entity,
    fuel: nat,
    bound: nat,
)
    requires
        reaches(m, from, target, fuel),
    ensures
        climbs_to(m, from, target, bound),
    decreases fuel,
{
    let p = m[from].parent.unwrap();
    if p != target && bound > 0 {
        lemma_reaches_is_seen(m, p, target, (fuel - 1) as nat, (bound - 1) as nat);
    }
}

/// What is reached in a hierarchy after `c` was taken out of its list was
/// reached before.
pub proof fn lemma_reaches_before_detach(
    m: Map<Entity, Node>,
    c: Entity,
    from: Entity,
    fuel: nat,
)
    requires
        reaches(detached(m, c), from, c, fuel),
    ensures
        reaches(m, from, c, fuel),
    decreases fuel,
{
    let r = detached(m, c);
    if m.dom().contains(c) {
        assert(r.dom() =~= m.dom());
        assert(from != c);
        assert(r[from].parent == m[from].parent);
        let p = r[from].parent.unwrap();
        if p != c {
            lemma_reaches_before_detach(m, c, p, (fuel - 1) as nat);
        }
    }
}

/// Putting a root without siblings at the head of another entity's child
/// list keeps the links in agreement.
pub proof fn lemma_attach_linked(m: Map<Entity, Node>, c: Entity, p: Entity)
    requires
        tidy(m),
        m.dom().contains(c),
        m.dom().contains(p),
        c != p,
        m[c].parent is None,
    ensures
        linked(attached(m, c, p)),
{
    let r = attached(m, c, p);
    let rank = choose|rank: spec_fn(Entity) -> nat| ranked(m, rank);
    assert(linked_at(m, c));
    assert(linked_at(m, p));
    assert(r.dom() =~= m.dom());
    let head = m[p].first_child;
    if head is Some {
        let h = head.unwrap();
        assert(linked_at(m, h));
        assert(h != c);
        assert(h != p) by {
            if h == p {
                assert(m[p].parent == Some(p));
                assert(rank(p) < rank(p));
            }
        }
    }
    assert forall|x: Entity| #[trigger] r.dom().contains(x) implies linked_at(r, x) by {
        assert(linked_at(m, x));
        let rx = r[x];
        if rx.parent is Some {
            assert(m.dom().contains(rx.parent.unwrap()));
            assert(linked_at(m, rx.parent.unwrap()));
        }
        if rx.next_sibling is Some {
            assert(m.dom().contains(rx.next_sibling.unwrap()));
            assert(linked_at(m, rx.next_sibling.unwrap()));
        }
        if rx.prev_sibling is Some {
            assert(m.dom().contains(rx.prev_sibling.unwrap()));
            assert(linked_at(m, rx.prev_sibling.unwrap()));
        }
        if rx.first_child is Some {
            assert(m.dom().contains(rx.first_child.unwrap()));
            assert(linked_at(m, rx.first_child.unwrap()));
        }
    }
}

/// Putting a root under an entity that does not sit below it keeps the
/// hierarchy free of cycles: the ranks of the root and of all below it are
/// raised above the new parent's.
pub proof fn lemma_attach_acyclic(m: Map<Entity, Node>, c: Entity, p: Entity)
    requires
        acyclic(m),
        m.dom().contains(c),
        m.dom().contains(p),
        c != p,
        m[c].parent is None,
        forall|fuel: nat| !reaches(m, p, c, fuel),
    ensures
        acyclic(attached(m, c, p)),
{
    let r = attached(m, c, p);
    let rank = choose|rank: spec_fn(Entity) -> nat| ranked(m, rank);
    let lift = rank(p) + 1;
    let raised = |x: Entity|
        if x == c || reaches(m, x, c, rank(x)) {
            (rank(x) + lift) as nat
        } else {
            rank(x)
        };
    assert(r.dom() =~= m.dom());
    assert forall|x: Entity| #[trigger] r.dom().contains(x) implies (r[x].parent matches Some(y)
        ==> raised(y) < raised(x)) by {
        if r[x].parent is Some {
            let y = r[x].parent.unwrap();
            if x == c {
                assert(y == p);
                assert(!reaches(m, p, c, rank(p)));
            } else {
                assert(m.dom().contains(x));
                assert(m[x].parent == Some(y));
                assert(rank(y) < rank(x));
                if y != c {
                    lemma_rank_is_fuel_enough(m, rank, y, c, (rank(x) - 1) as nat);
                }
            }
        }
    }
    assert(ranked(r, raised));
}

/// Putting a root without siblings at the head of a child list keeps the
/// sibling lists free of rings: the root takes the first place and all
/// others move one up.
pub proof fn lemma_attach_lined(m: Map<Entity, Node>, c: Entity, p: Entity)
    requires
        tidy(m),
        m.dom().contains(c),
        m.dom().contains(p),
        c != p,
        m[c].parent is None,
    ensures
        lined(attached(m, c, p)),
{
    let r = attached(m, c, p);
    let place = choose|place: spec_fn(Entity) -> nat| placed(m, place);
    let moved = |x: Entity|
        if x == c {
            0nat
        } else {
            place(x) + 1
        };
    assert(r.dom() =~= m.dom());
    assert(linked_at(m, c));
    assert(linked_at(m, p));
    assert forall|x: Entity| #[trigger] r.dom().contains(x) implies (
    r[x].prev_sibling matches Some(a) ==> moved(a) < moved(x)) by {
        assert(m.dom().contains(x));
        assert(linked_at(m, x));
    }
    assert(placed(r, moved));
}

/// A change of parent that is accepted keeps a hierarchy well kept.
pub proof fn lemma_reparent_tidy(
    m: Map<Entity, Node>,
    child: Entity,
    parent: Option<Entity>,
    fuel: nat,
)
    requires
        tidy(m),
        refusal(m, child, parent, fuel) is None,
    ensures
        tidy(reparented(m, child, parent)),
{
    lemma_detach_tidy(m, child);
    match parent {
        Some(p) => {
            let d = detached(m, child);
            assert(d.dom() =~= m.dom());
            assert forall|f: nat| !reaches(d, p, child, f) by {
                if reaches(d, p, child, f) {
                    lemma_reaches_before_detach(m, child, p, f);
                    lemma_reaches_is_seen(m, p, child, f, fuel);
                }
            }
            lemma_attach_linked(d, child, p);
            lemma_attach_acyclic(d, child, p);
            lemma_attach_lined(d, child, p);
        },
        None => {},
    }
}

/// Giving a new entity a node without links keeps a hierarchy well kept.
pub proof fn lemma_insert_unlinked_tidy(m: Map<Entity, Node>, e: Entity)
    requires
        tidy(m),
        !m.dom().contains(e),
    ensures
        tidy(m.insert(e, Node::unlinked())),
{
    let r = m.insert(e, Node::unlinked());
    let rank = choose|rank: spec_fn(Entity) -> nat| ranked(m, rank);
    assert forall|x: Entity| #[trigger] r.dom().contains(x) implies linked_at(r, x) by {
        if x != e {
            assert(linked_at(m, x));
        }
    }
    assert(ranked(r, rank)) by {
        assert forall|x: Entity| #[trigger] r.dom().contains(x) implies (r[x].parent matches Some(p)
            ==> rank(p) < rank(x)) by {
            if x != e {
                assert(m.dom().contains(x));
            }
        }
    }
    let place = choose|place: spec_fn(Entity) -> nat| placed(m, place);
    assert(placed(r, place)) by {
        assert forall|x: Entity| #[trigger] r.dom().contains(x) implies (
        r[x].prev_sibling matches Some(a) ==> place(a) < place(x)) by {
            if x != e {
                assert(m.dom().contains(x));
            }
        }
    }
}

/// In a hierarchy whose links agree and whose sibling lists hold no ring,
/// an entity without a first child is nobody's parent.
pub proof fn lemma_childless_is_no_parent(
    m: Map<Entity, Node>,
    place: spec_fn(Entity) -> nat,
    e: Entity,
    x: Entity,
)
    requires
        linked(m),
        placed(m, place),
        m.dom().contains(e),
        m[e].first_child is None,
        m.dom().contains(x),
    ensures
        m[x].parent != Some(e),
    decreases place(x),
{
    assert(linked_at(m, x));
    if m[x].parent == Some(e) {
        match m[x].prev_sibling {
            Some(a) => {
                assert(linked_at(m, a));
                lemma_childless_is_no_parent(m, place, e, a);
            },
            None => {},
        }
    }
}

/// Taking away the node of an entity without links keeps a hierarchy well
/// kept: nothing pointed at it.
pub proof fn lemma_remove_unlinked_tidy(m: Map<Entity, Node>, e: Entity)
    requires
        tidy(m),
        m.dom().contains(e),
        m[e] == Node::unlinked(),
    ensures
        tidy(m.remove(e)),
{
    let r = m.remove(e);
    let rank = choose|rank: spec_fn(Entity) -> nat| ranked(m, rank);
    let place = choose|place: spec_fn(Entity) -> nat| placed(m, place);
    assert(linked_at(m, e));
    assert forall|x: Entity| #[trigger] r.dom().contains(x) implies linked_at(r, x) by {
        assert(linked_at(m, x));
        lemma_childless_is_no_parent(m, place, e, x);
    }
    assert(ranked(r, rank));
    assert(placed(r, place));
}

/// More fuel reaches no less.
pub proof fn lemma_reaches_with_more(
    m: Map<Entity, Node>,
    from: Entity,
    target: Entity,
    fuel: nat,
    more: nat,
)
    requires
        reaches(m, from, target, fuel),
        fuel <= more,
    ensures
        reaches(m, from, target, more),
    decreases fuel,
{
    let p = m[from].parent.unwrap();
    if p != target {
        lemma_reaches_with_more(m, p, target, (fuel - 1) as nat, (more - 1) as nat);
    }
}

/// What reaches a child reaches the child's parent one step later.
pub proof fn lemma_reaches_parent(
    m: Map<Entity, Node>,
    from: Entity,
    via: Entity,
    target: Entity,
    fuel: nat,
)
    requires
        reaches(m, from, via, fuel),
        m.dom().contains(via),
        m[via].parent == Some(target),
    ensures
        reaches(m, from, target, fuel + 1),
    decreases fuel,
{
    let p = m[from].parent.unwrap();
    if p == via {
        assert(reaches(m, via, target, 1));
        lemma_reaches_with_more(m, via, target, 1, fuel);
    } else {
        lemma_reaches_parent(m, p, via, target, (fuel - 1) as nat);
    }
}

/// What is reached by climbing has a smaller rank.
pub proof fn lemma_reaches_rank(
    m: Map<Entity, Node>,
    rank: spec_fn(Entity) -> nat,
    from: Entity,
    target: Entity,
    fuel: nat,
)
    requires
        ranked(m, rank),
        reaches(m, from, target, fuel),
    ensures
        rank(target) < rank(from),
    decreases fuel,
{
    let p = m[from].parent.unwrap();
    assert(rank(p) < rank(from));
    if p != target {
        lemma_reaches_rank(m, rank, p, target, (fuel - 1) as nat);
    }
}

/// In a hierarchy whose links agree, every entity of a sibling list has the
/// parent that the first of them has.
pub proof fn lemma_chain_parent(
    m: Map<Entity, Node>,
    start: Option<Entity>,
    fuel: nat,
    parent: Option<Entity>,
    i: int,
)
    requires
        linked(m),
        0 <= i < chain(m, start, fuel).len(),
        m[start.unwrap()].parent == parent,
    ensures
        m.dom().contains(chain(m, start, fuel)[i]),
        m[chain(m, start, fuel)[i]].parent == parent,
    decreases fuel,
{
    let e = start.unwrap();
    let rest = chain(m, m[e].next_sibling, (fuel - 1) as nat);
    assert(chain(m, start, fuel) =~= seq![e] + rest);
    if i > 0 {
        assert(linked_at(m, e));
        assert(rest.len() > 0);
        lemma_chain_parent(m, m[e].next_sibling, (fuel - 1) as nat, parent, i - 1);
    }
}

/// In a hierarchy whose links agree, every child of `e` names `e` as its
/// parent.
pub proof fn lemma_children_name_parent(m: Map<Entity, Node>, e: Entity, fuel: nat, i: int)
    requires
        linked(m),
        0 <= i < children_of(m, e, fuel).len(),
    ensures
        m.dom().contains(children_of(m, e, fuel)[i]),
        m[children_of(m, e, fuel)[i]].parent == Some(e),
{
    assert(linked_at(m, e));
    let first = m[e].first_child;
    assert(first is Some) by {
        if first is None {
            assert(chain(m, first, fuel).len() == 0);
        }
    }
    lemma_chain_parent(m, first, fuel, Some(e), i);
}

/// In a hierarchy whose links agree, every entity that the visit of a tree
/// comes to after the root sits below the root, at most `depth` levels
/// down.
pub proof fn lemma_visit_goes_down(m: Map<Entity, Node>, e: Entity, fuel: nat, depth: nat, i: int)
    requires
        linked(m),
        1 <= i < subtree(m, e, fuel, depth).len(),
    ensures
        reaches(m, subtree(m, e, fuel, depth)[i], e, depth),
    decreases depth, 0nat,
{
    let kids = children_of(m, e, fuel);
    let below = (depth - 1) as nat;
    assert(depth > 0);
    assert(subtree(m, e, fuel, depth) == seq![e] + forest(m, kids, fuel, below));
    assert forall|j: int| 0 <= j < kids.len() implies m.dom().contains(#[trigger] kids[j])
        && m[kids[j]].parent == Some(e) by {
        lemma_children_name_parent(m, e, fuel, j);
    }
    lemma_forest_goes_down(m, kids, fuel, below, e, i - 1);
}

/// In a hierarchy whose links agree, every entity that the visits of the
/// trees under the children of `e` come to sits below `e`.
pub proof fn lemma_forest_goes_down(
    m: Map<Entity, Node>,
    list: Seq<Entity>,
    fuel: nat,
    depth: nat,
    e: Entity,
    i: int,
)
    requires
        linked(m),
        forall|j: int|
            0 <= j < list.len() ==> m.dom().contains(#[trigger] list[j]) && m[list[j]].parent == Some(
                e,
            ),
        0 <= i < forest(m, list, fuel, depth).len(),
    ensures
        reaches(m, forest(m, list, fuel, depth)[i], e, depth + 1),
    decreases depth, list.len() + 1,
{
    let front = forest(m, list.drop_last(), fuel, depth);
    let last = list.last();
    let block = subtree(m, last, fuel, depth);
    assert(forest(m, list, fuel, depth) == front + block);
    if i < front.len() {
        assert forall|j: int| 0 <= j < list.drop_last().len() implies m.dom().contains(
            #[trigger] list.drop_last()[j],
        ) && m[list.drop_last()[j]].parent == Some(e) by {
            assert(list.drop_last()[j] == list[j]);
        }
        lemma_forest_goes_down(m, list.drop_last(), fuel, depth, e, i);
    } else {
        let j = i - front.len();
        let x = block[j];
        assert(m.dom().contains(list[list.len() - 1]));
        if j == 0 {
            assert(x == last);
            assert(reaches(m, last, e, 1));
            lemma_reaches_with_more(m, last, e, 1, depth + 1);
        } else {
            lemma_visit_goes_down(m, last, fuel, depth, j);
            lemma_reaches_parent(m, x, last, e, depth);
        }
    }
}

/// In a well-kept hierarchy the visit of a tree comes to its root first and
/// never again: a parent is visited strictly before all that is below it.
pub proof fn lemma_root_comes_once(m: Map<Entity, Node>, e: Entity, fuel: nat, depth: nat, i: int)
    requires
        tidy(m),
        1 <= i < subtree(m, e, fuel, depth).len(),
    ensures
        subtree(m, e, fuel, depth)[0] == e,
        subtree(m, e, fuel, depth)[i] != e,
{
    let rank = choose|rank: spec_fn(Entity) -> nat| ranked(m, rank);
    lemma_visit_goes_down(m, e, fuel, depth, i);
    lemma_reaches_rank(m, rank, subtree(m, e, fuel, depth)[i], e, depth);
}

} // verus!
