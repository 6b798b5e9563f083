//! In a well-kept hierarchy that an arena holds, the walks miss nothing:
//! every child is in its parent's child list, and the visit of a tree comes
//! to every entity below its root.

use crate::arena::{one_per_index, Arena};
use crate::entity::Entity;
use crate::hierarchy::{chain, children_of, forest, lemma_chain_links, lemma_forest_split, preorder, subtree};
use crate::node::Node;
use crate::reparent::climbs_to;
use crate::tree::{
    lemma_children_name_parent, lemma_reaches_is_seen, lemma_reaches_with_more,
    lemma_visit_goes_down, linked, linked_at, placed, ranked, reaches, tidy,
};
use vstd::prelude::*;

verus! {

/// Every entity of `m` has an index below `span`, and no two share one.
pub open spec fn fits(m: Map<Entity, Node>, span: nat) -> bool {
    &&& one_per_index(m.dom())
    &&& forall|e: Entity| #[trigger] m.dom().contains(e) ==> (e.index as nat) < span
}

/// A list of different entities of `m` is no longer than the span that `m`
/// fits.
pub proof fn lemma_distinct_fit(m: Map<Entity, Node>, span: nat, s: Seq<Entity>)
    requires
        fits(m, span),
        forall|i: int| 0 <= i < s.len() ==> m.dom().contains(#[trigger] s[i]),
        forall|i: int, j: int| 0 <= i < j < s.len() ==> s[i] != s[j],
    ensures
        s.len() <= span,
{
    let idx = Seq::new(s.len(), |i: int| s[i].index as int);
    assert(idx.no_duplicates()) by {
        assert forall|i: int, j: int| 0 <= i < idx.len() && 0 <= j < idx.len() && i != j implies idx[i]
            != idx[j] by {
            assert(m.dom().contains(s[i]) && m.dom().contains(s[j]));
            if i < j {
                assert(s[i] != s[j]);
            } else {
                assert(s[j] != s[i]);
            }
        }
    }
    idx.unique_seq_to_set();
    vstd::set_lib::lemma_int_range(0, span as int);
    assert(idx.to_set().subset_of(vstd::set_lib::set_int_range(0, span as int))) by {
        assert forall|v: int| idx.to_set().contains(v) implies vstd::set_lib::set_int_range(
            0,
            span as int,
        ).contains(v) by {
            let i = choose|i: int| 0 <= i < idx.len() && idx[i] == v;
            assert(m.dom().contains(s[i]));
        }
    }
    vstd::set_lib::lemma_len_subset(idx.to_set(), vstd::set_lib::set_int_range(0, span as int));
}

/// Along a sibling list the places grow.
pub proof fn lemma_chain_places(
    m: Map<Entity, Node>,
    place: spec_fn(Entity) -> nat,
    start: Option<Entity>,
    fuel: nat,
    i: int,
    j: int,
)
    requires
        linked(m),
        placed(m, place),
        0 <= i < j < chain(m, start, fuel).len(),
    ensures
        place(chain(m, start, fuel)[i]) < place(chain(m, start, fuel)[j]),
    decreases j - i,
{
    let c = chain(m, start, fuel);
    lemma_chain_links(m, start, fuel, j - 1);
    lemma_chain_links(m, start, fuel, j);
    assert(linked_at(m, c[j - 1]));
    assert(m[c[j]].prev_sibling == Some(c[j - 1]));
    if i < j - 1 {
        lemma_chain_places(m, place, start, fuel, i, j - 1);
    }
}

/// A sibling list in a hierarchy that fits a span is no longer than the
/// span, whatever its fuel.
pub proof fn lemma_chain_fits(
    m: Map<Entity, Node>,
    place: spec_fn(Entity) -> nat,
    span: nat,
    start: Option<Entity>,
    fuel: nat,
)
    requires
        linked(m),
        placed(m, place),
        fits(m, span),
    ensures
        chain(m, start, fuel).len() <= span,
{
    let c = chain(m, start, fuel);
    assert forall|i: int| 0 <= i < c.len() implies m.dom().contains(#[trigger] c[i]) by {
        lemma_chain_links(m, start, fuel, i);
    }
    assert forall|i: int, j: int| 0 <= i < j < c.len() implies c[i] != c[j] by {
        lemma_chain_places(m, place, start, fuel, i, j);
    }
    lemma_distinct_fit(m, span, c);
}

/// With more fuel a sibling list only grows at its end.
pub proof fn lemma_chain_prefix(m: Map<Entity, Node>, start: Option<Entity>, fuel: nat, more: nat, i: int)
    requires
        fuel <= more,
        0 <= i < chain(m, start, fuel).len(),
    ensures
        i < chain(m, start, more).len(),
        chain(m, start, more)[i] == chain(m, start, fuel)[i],
    decreases fuel,
{
    let e = start.unwrap();
    assert(chain(m, start, fuel) =~= seq![e] + chain(m, m[e].next_sibling, (fuel - 1) as nat));
    assert(chain(m, start, more) =~= seq![e] + chain(m, m[e].next_sibling, (more - 1) as nat));
    if i > 0 {
        lemma_chain_prefix(m, m[e].next_sibling, (fuel - 1) as nat, (more - 1) as nat, i - 1);
    }
}

/// Where fuel is left, a sibling list goes on to the next sibling that
/// holds a node.
pub proof fn lemma_chain_step(m: Map<Entity, Node>, start: Option<Entity>, fuel: nat, i: int, x: Entity)
    requires
        0 <= i < chain(m, start, fuel).len(),
        i + 1 < fuel,
        m[chain(m, start, fuel)[i]].next_sibling == Some(x),
        m.dom().contains(x),
    ensures
        i + 1 < chain(m, start, fuel).len(),
        chain(m, start, fuel)[i + 1] == x,
    decreases fuel,
{
    let e = start.unwrap();
    let rest = chain(m, m[e].next_sibling, (fuel - 1) as nat);
    assert(chain(m, start, fuel) =~= seq![e] + rest);
    if i > 0 {
        lemma_chain_step(m, m[e].next_sibling, (fuel - 1) as nat, i - 1, x);
    } else {
        assert(rest =~= seq![x] + chain(m, m[x].next_sibling, (fuel - 2) as nat));
    }
}

/// In a well-kept hierarchy that fits a span, every entity is in the child
/// list of its parent. The result is its position there.
pub proof fn lemma_child_is_listed(
    m: Map<Entity, Node>,
    place: spec_fn(Entity) -> nat,
    span: nat,
    x: Entity,
    p: Entity,
) -> (i: int)
    requires
        linked(m),
        placed(m, place),
        fits(m, span),
        m.dom().contains(x),
        m[x].parent == Some(p),
    ensures
        0 <= i < children_of(m, p, span).len(),
        children_of(m, p, span)[i] == x,
    decreases place(x),
{
    assert(linked_at(m, x));
    let first = m[p].first_child;
    match m[x].prev_sibling {
        None => {
            assert(first == Some(x));
            assert(chain(m, first, span) =~= seq![x] + chain(
                m,
                m[x].next_sibling,
                (span - 1) as nat,
            ));
            0
        },
        Some(a) => {
            assert(linked_at(m, a));
            let before = lemma_child_is_listed(m, place, span, a, p);
            lemma_chain_fits(m, place, span, first, span);
            lemma_chain_prefix(m, first, span, span + 1, before);
            lemma_chain_step(m, first, span + 1, before, x);
            lemma_chain_fits(m, place, span, first, span + 1);
            lemma_chain_step(m, first, span, before, x);
            before + 1
        },
    }
}

/// In a well-kept hierarchy the child list of an entity holds exactly the
/// entities that name it as parent.
pub proof fn lemma_children_are_exact(nodes: &Arena<Node>, e: Entity, x: Entity)
    requires
        tidy(nodes@),
    ensures
        children_of(nodes@, e, nodes.span()).contains(x) <==> nodes@.dom().contains(x)
            && nodes@[x].parent == Some(e),
{
    let m = nodes@;
    let kids = children_of(m, e, nodes.span());
    nodes.lemma_shape();
    if kids.contains(x) {
        let i = choose|i: int| 0 <= i < kids.len() && kids[i] == x;
        lemma_children_name_parent(m, e, nodes.span(), i);
    }
    if m.dom().contains(x) && m[x].parent == Some(e) {
        let place = choose|place: spec_fn(Entity) -> nat| placed(m, place);
        let i = lemma_child_is_listed(m, place, nodes.span(), x, e);
    }
}

/// In a well-kept hierarchy the child list of an entity runs from its
/// first child along the `next_sibling` links to the child that has none.
pub proof fn lemma_children_run_to_the_end(nodes: &Arena<Node>, e: Entity)
    requires
        tidy(nodes@),
        children_of(nodes@, e, nodes.span()).len() > 0,
    ensures
        nodes@[e].first_child == Some(children_of(nodes@, e, nodes.span())[0]),
        forall|i: int|
            0 <= i < children_of(nodes@, e, nodes.span()).len() - 1 ==> (
            #[trigger] nodes@[children_of(nodes@, e, nodes.span())[i]]).next_sibling == Some(
                children_of(nodes@, e, nodes.span())[i + 1],
            ),
        nodes@[children_of(nodes@, e, nodes.span()).last()].next_sibling is None,
{
    let m = nodes@;
    let span = nodes.span();
    let kids = children_of(m, e, span);
    let last = kids.last();
    let place = choose|place: spec_fn(Entity) -> nat| placed(m, place);
    nodes.lemma_shape();
    lemma_chain_links(m, m[e].first_child, span, 0);
    assert forall|i: int| 0 <= i < kids.len() - 1 implies (#[trigger] m[kids[i]]).next_sibling
        == Some(kids[i + 1]) by {
        lemma_chain_links(m, m[e].first_child, span, i);
    }
    lemma_children_name_parent(m, e, span, kids.len() - 1);
    assert(linked_at(m, last));
    if m[last].next_sibling is Some {
        let s = m[last].next_sibling.unwrap();
        assert(linked_at(m, s));
        let j = lemma_child_is_listed(m, place, span, s, e);
        if j < kids.len() - 1 {
            lemma_chain_places(m, place, m[e].first_child, span, j, kids.len() - 1);
        }
    }
}

/// What the visit of one of several trees holds, the visit of them all
/// holds.
pub proof fn lemma_forest_has(
    m: Map<Entity, Node>,
    list: Seq<Entity>,
    fuel: nat,
    depth: nat,
    j: int,
    x: Entity,
)
    requires
        0 <= j < list.len(),
        subtree(m, list[j], fuel, depth).contains(x),
    ensures
        forest(m, list, fuel, depth).contains(x),
{
    lemma_forest_split(m, list, fuel, depth, j);
    let before = forest(m, list.take(j), fuel, depth);
    let block = subtree(m, list[j], fuel, depth);
    let t = choose|t: int| 0 <= t < block.len() && block[t] == x;
    assert(forest(m, list, fuel, depth)[before.len() + t] == x);
}

/// What the visit of several trees holds, the visit of one of them holds.
/// The result is the position of that tree in the list.
pub proof fn lemma_forest_part(
    m: Map<Entity, Node>,
    list: Seq<Entity>,
    fuel: nat,
    depth: nat,
    x: Entity,
) -> (j: int)
    requires
        forest(m, list, fuel, depth).contains(x),
    ensures
        0 <= j < list.len(),
        subtree(m, list[j], fuel, depth).contains(x),
    decreases list.len(),
{
    let whole = forest(m, list, fuel, depth);
    let t = choose|t: int| 0 <= t < whole.len() && whole[t] == x;
    let front = forest(m, list.drop_last(), fuel, depth);
    let block = subtree(m, list.last(), fuel, depth);
    assert(whole == front + block);
    if t < front.len() {
        assert(front[t] == x);
        let j = lemma_forest_part(m, list.drop_last(), fuel, depth, x);
        assert(list.drop_last()[j] == list[j]);
        j
    } else {
        assert(block[t - front.len()] == x);
        list.len() - 1
    }
}

/// In a well-kept hierarchy that fits a span, the visit of a tree that
/// comes to an entity comes to its children too, where it may descend one
/// level further.
pub proof fn lemma_child_of_visited(
    m: Map<Entity, Node>,
    place: spec_fn(Entity) -> nat,
    span: nat,
    e: Entity,
    y: Entity,
    x: Entity,
    depth: nat,
    more: nat,
)
    requires
        linked(m),
        placed(m, place),
        fits(m, span),
        subtree(m, e, span, depth).contains(y),
        m.dom().contains(x),
        m[x].parent == Some(y),
        more > depth,
    ensures
        subtree(m, e, span, more).contains(x),
    decreases depth,
{
    let kids = children_of(m, e, span);
    let below = (more - 1) as nat;
    assert(m.dom().contains(e));
    assert(subtree(m, e, span, more) == seq![e] + forest(m, kids, span, below));
    let found = if y == e {
        let i = lemma_child_is_listed(m, place, span, x, e);
        assert(subtree(m, x, span, below)[0] == x);
        i
    } else {
        let own = subtree(m, e, span, depth);
        let t = choose|t: int| 0 <= t < own.len() && own[t] == y;
        assert(depth > 0);
        let under = forest(m, kids, span, (depth - 1) as nat);
        assert(own == seq![e] + under);
        assert(under[t - 1] == y);
        let j = lemma_forest_part(m, kids, span, (depth - 1) as nat, y);
        lemma_child_of_visited(m, place, span, kids[j], y, x, (depth - 1) as nat, below);
        j
    };
    lemma_forest_has(m, kids, span, below, found, x);
    let all = forest(m, kids, span, below);
    let t = choose|t: int| 0 <= t < all.len() && all[t] == x;
    assert(subtree(m, e, span, more)[t + 1] == x);
}

/// In a well-kept hierarchy that fits a span, the visit of a tree comes to
/// every entity that climbs to the root within as many steps as the visit
/// may descend.
pub proof fn lemma_below_is_visited(
    m: Map<Entity, Node>,
    place: spec_fn(Entity) -> nat,
    span: nat,
    e: Entity,
    x: Entity,
    steps: nat,
    depth: nat,
)
    requires
        linked(m),
        placed(m, place),
        fits(m, span),
        m.dom().contains(e),
        reaches(m, x, e, steps),
        depth >= steps,
    ensures
        subtree(m, e, span, depth).contains(x),
    decreases steps,
{
    let y = m[x].parent.unwrap();
    if y == e {
        assert(subtree(m, e, span, 0)[0] == e);
        lemma_child_of_visited(m, place, span, e, e, x, 0, depth);
    } else {
        lemma_below_is_visited(m, place, span, e, y, (steps - 1) as nat, (depth - 1) as nat);
        lemma_child_of_visited(m, place, span, e, y, x, (depth - 1) as nat, depth);
    }
}

/// The entities on the climb from `x` to `e`, `x` first and `e` last: each
/// holds a node, their ranks fall, and the climb takes one step per entity
/// after the first.
pub proof fn lemma_climb_path(
    m: Map<Entity, Node>,
    rank: spec_fn(Entity) -> nat,
    x: Entity,
    e: Entity,
    steps: nat,
) -> (path: Seq<Entity>)
    requires
        ranked(m, rank),
        m.dom().contains(e),
        reaches(m, x, e, steps),
    ensures
        path.len() >= 2,
        path[0] == x,
        path.last() == e,
        forall|i: int| 0 <= i < path.len() ==> m.dom().contains(#[trigger] path[i]),
        forall|i: int, j: int| 0 <= i < j < path.len() ==> rank(path[j]) < rank(path[i]),
        reaches(m, x, e, (path.len() - 1) as nat),
    decreases steps,
{
    let y = m[x].parent.unwrap();
    assert(rank(y) < rank(x));
    if y == e {
        seq![x, e]
    } else {
        let rest = lemma_climb_path(m, rank, y, e, (steps - 1) as nat);
        let path = seq![x] + rest;
        assert forall|i: int, j: int| 0 <= i < j < path.len() implies rank(path[j]) < rank(
            path[i],
        ) by {
            assert(path[j] == rest[j - 1]);
            if i == 0 {
                if j > 1 {
                    assert(rank(rest[j - 1]) < rank(rest[0]));
                }
            } else {
                assert(path[i] == rest[i - 1]);
            }
        }
        assert forall|i: int| 0 <= i < path.len() implies m.dom().contains(#[trigger] path[i]) by {
            if i > 0 {
                assert(path[i] == rest[i - 1]);
            }
        }
        assert(path.last() == rest.last());
        path
    }
}

/// In a hierarchy without cycles that fits a span, whatever climbs to an
/// entity at all does so within the span.
pub proof fn lemma_climb_fits(
    m: Map<Entity, Node>,
    rank: spec_fn(Entity) -> nat,
    span: nat,
    x: Entity,
    e: Entity,
    steps: nat,
)
    requires
        ranked(m, rank),
        fits(m, span),
        m.dom().contains(e),
        reaches(m, x, e, steps),
    ensures
        reaches(m, x, e, span),
{
    let path = lemma_climb_path(m, rank, x, e, steps);
    assert forall|i: int, j: int| 0 <= i < j < path.len() implies path[i] != path[j] by {
        assert(rank(path[j]) < rank(path[i]));
    }
    lemma_distinct_fit(m, span, path);
    lemma_reaches_with_more(m, x, e, (path.len() - 1) as nat, span);
}

/// The entities on a bounded climb that never comes to its target: one per
/// step, each with a node, their ranks falling.
pub proof fn lemma_long_climb(
    m: Map<Entity, Node>,
    rank: spec_fn(Entity) -> nat,
    from: Entity,
    target: Entity,
    fuel: nat,
) -> (path: Seq<Entity>)
    requires
        ranked(m, rank),
        climbs_to(m, from, target, fuel),
        forall|steps: nat| !reaches(m, from, target, steps),
    ensures
        path.len() == fuel + 1,
        path[0] == from,
        forall|i: int| 0 <= i < path.len() ==> m.dom().contains(#[trigger] path[i]),
        forall|i: int, j: int| 0 <= i < j < path.len() ==> rank(path[j]) < rank(path[i]),
    decreases fuel,
{
    let p = m[from].parent.unwrap();
    assert(rank(p) < rank(from));
    assert(p != target) by {
        if p == target {
            assert(reaches(m, from, target, 1));
        }
    }
    if fuel == 0 {
        seq![from]
    } else {
        assert forall|steps: nat| !reaches(m, p, target, steps) by {
            if reaches(m, p, target, steps) {
                assert(reaches(m, from, target, steps + 1));
            }
        }
        let rest = lemma_long_climb(m, rank, p, target, (fuel - 1) as nat);
        let path = seq![from] + rest;
        assert forall|i: int, j: int| 0 <= i < j < path.len() implies rank(path[j]) < rank(
            path[i],
        ) by {
            assert(path[j] == rest[j - 1]);
            if i == 0 {
                if j > 1 {
                    assert(rank(rest[j - 1]) < rank(rest[0]));
                }
            } else {
                assert(path[i] == rest[i - 1]);
            }
        }
        assert forall|i: int| 0 <= i < path.len() implies m.dom().contains(#[trigger] path[i]) by {
            if i > 0 {
                assert(path[i] == rest[i - 1]);
            }
        }
        path
    }
}

/// In a well-kept hierarchy the bounded climb gives up on no one: it says
/// that `from` climbs to `target` exactly where it does. So a change of
/// parent is refused for a cycle only where the new parent is the child or
/// sits below it.
pub proof fn lemma_climb_is_exact(nodes: &Arena<Node>, from: Entity, target: Entity)
    requires
        tidy(nodes@),
    ensures
        climbs_to(nodes@, from, target, nodes.span()) <==> exists|steps: nat|
            reaches(nodes@, from, target, steps),
{
    let m = nodes@;
    let span = nodes.span();
    nodes.lemma_shape();
    if exists|steps: nat| reaches(m, from, target, steps) {
        let steps = choose|steps: nat| reaches(m, from, target, steps);
        lemma_reaches_is_seen(m, from, target, steps, span);
    } else if climbs_to(m, from, target, span) {
        let rank = choose|rank: spec_fn(Entity) -> nat| ranked(m, rank);
        let path = lemma_long_climb(m, rank, from, target, span);
        assert forall|i: int, j: int| 0 <= i < j < path.len() implies path[i] != path[j] by {
            assert(rank(path[j]) < rank(path[i]));
        }
        lemma_distinct_fit(m, span, path);
    }
}

/// In a well-kept hierarchy the visit of a tree holds the root and exactly
/// what is below it: every entity that climbs to the root is visited, and
/// whatever is visited after the root climbs to it.
pub proof fn lemma_visit_holds_the_tree(nodes: &Arena<Node>, e: Entity, x: Entity)
    requires
        tidy(nodes@),
        nodes@.dom().contains(e),
    ensures
        preorder(nodes, e).contains(x) <==> x == e || exists|steps: nat|
            reaches(nodes@, x, e, steps),
{
    let m = nodes@;
    let span = nodes.span();
    let visit = preorder(nodes, e);
    nodes.lemma_shape();
    assert(fits(m, span));
    assert(visit[0] == e);
    if visit.contains(x) && x != e {
        let t = choose|t: int| 0 <= t < visit.len() && visit[t] == x;
        lemma_visit_goes_down(m, e, span, span, t);
    }
    if exists|steps: nat| reaches(m, x, e, steps) {
        let steps = choose|steps: nat| reaches(m, x, e, steps);
        let rank = choose|rank: spec_fn(Entity) -> nat| ranked(m, rank);
        let place = choose|place: spec_fn(Entity) -> nat| placed(m, place);
        lemma_climb_fits(m, rank, span, x, e, steps);
        lemma_below_is_visited(m, place, span, e, x, span, span);
    }
}

} // verus!
