//! In a well-kept hierarchy the visit of a tree comes to every entity once,
//! and to every parent before all that is below it.

use crate::arena::Arena;
use crate::descent::{
    lemma_chain_places, lemma_forest_has, lemma_forest_part, lemma_visit_holds_the_tree,
};
use crate::entity::Entity;
use crate::hierarchy::{children_of, forest, pass_order, preorder, root_set, roots_of, subtree};
use crate::node::Node;
use crate::tree::{
    lemma_children_name_parent, lemma_reaches_rank, lemma_reaches_with_more, lemma_root_comes_once,
    lemma_visit_goes_down, linked, linked_at, placed, ranked, reaches, tidy,
};
use crate::views::lemma_ascending;
use vstd::prelude::*;

verus! {

/// What climbs to one entity, which climbs to another, climbs to the other.
pub proof fn lemma_reaches_onward(
    m: Map<Entity, Node>,
    from: Entity,
    via: Entity,
    target: Entity,
    first: nat,
    second: nat,
)
    requires
        reaches(m, from, via, first),
        reaches(m, via, target, second),
    ensures
        reaches(m, from, target, first + second),
    decreases first,
{
    let p = m[from].parent.unwrap();
    if p == via {
        lemma_reaches_with_more(m, via, target, second, (first + second - 1) as nat);
    } else {
        lemma_reaches_onward(m, p, via, target, (first - 1) as nat, second);
    }
}

/// The ancestors of an entity stand in one line: of two of them, one is
/// the other or climbs to it.
pub proof fn lemma_ancestors_in_line(
    m: Map<Entity, Node>,
    x: Entity,
    a: Entity,
    b: Entity,
    to_a: nat,
    to_b: nat,
)
    requires
        reaches(m, x, a, to_a),
        reaches(m, x, b, to_b),
    ensures
        a == b || reaches(m, a, b, to_b) || reaches(m, b, a, to_a),
    decreases to_a,
{
    let p = m[x].parent.unwrap();
    if p == a && p == b {
    } else if p == a {
        lemma_reaches_with_more(m, a, b, (to_b - 1) as nat, to_b);
    } else if p == b {
        lemma_reaches_with_more(m, b, a, (to_a - 1) as nat, to_a);
    } else {
        lemma_ancestors_in_line(m, p, a, b, (to_a - 1) as nat, (to_b - 1) as nat);
        if reaches(m, a, b, (to_b - 1) as nat) {
            lemma_reaches_with_more(m, a, b, (to_b - 1) as nat, to_b);
        }
        if reaches(m, b, a, (to_a - 1) as nat) {
            lemma_reaches_with_more(m, b, a, (to_a - 1) as nat, to_a);
        }
    }
}

/// In a hierarchy without cycles, a child of `e` does not sit at or above
/// another child of `e`.
pub proof fn lemma_siblings_apart(
    m: Map<Entity, Node>,
    rank: spec_fn(Entity) -> nat,
    e: Entity,
    a: Entity,
    b: Entity,
    steps: nat,
)
    requires
        ranked(m, rank),
        m.dom().contains(a),
        m.dom().contains(b),
        m[a].parent == Some(e),
        m[b].parent == Some(e),
    ensures
        !reaches(m, a, b, steps),
{
    if reaches(m, a, b, steps) {
        assert(rank(e) < rank(b));
        if e != b {
            lemma_reaches_rank(m, rank, e, b, (steps - 1) as nat);
        }
    }
}

/// Neither of `a` and `b` is the other or climbs to it.
pub open spec fn apart(m: Map<Entity, Node>, a: Entity, b: Entity) -> bool {
    &&& a != b
    &&& forall|steps: nat| !reaches(m, a, b, steps)
    &&& forall|steps: nat| !reaches(m, b, a, steps)
}

/// `list` holds entities with a node of which no two are the same or climb
/// to one another.
pub open spec fn unrelated(m: Map<Entity, Node>, list: Seq<Entity>) -> bool {
    &&& forall|j: int| 0 <= j < list.len() ==> m.dom().contains(#[trigger] list[j])
    &&& forall|i: int, j: int| 0 <= i < j < list.len() ==> apart(m, list[i], list[j])
}

/// The visits of the trees under two entities of which neither climbs to
/// the other have nothing in common.
pub proof fn lemma_blocks_apart(
    m: Map<Entity, Node>,
    a: Entity,
    b: Entity,
    fuel: nat,
    depth: nat,
    x: Entity,
)
    requires
        linked(m),
        m.dom().contains(a),
        m.dom().contains(b),
        apart(m, a, b),
        subtree(m, a, fuel, depth).contains(x),
    ensures
        !subtree(m, b, fuel, depth).contains(x),
{
    let of_a = subtree(m, a, fuel, depth);
    let of_b = subtree(m, b, fuel, depth);
    if of_b.contains(x) {
        let s = choose|s: int| 0 <= s < of_a.len() && of_a[s] == x;
        let t = choose|t: int| 0 <= t < of_b.len() && of_b[t] == x;
        assert(of_a[0] == a);
        assert(of_b[0] == b);
        if s >= 1 {
            lemma_visit_goes_down(m, a, fuel, depth, s);
        }
        if t >= 1 {
            lemma_visit_goes_down(m, b, fuel, depth, t);
        }
        if s >= 1 && t >= 1 {
            lemma_ancestors_in_line(m, x, a, b, depth, depth);
        }
    }
}

/// In a well-kept hierarchy the visit of a tree comes to no entity twice.
pub proof fn lemma_visit_once(m: Map<Entity, Node>, e: Entity, fuel: nat, depth: nat, s: int, t: int)
    requires
        tidy(m),
        0 <= s < t < subtree(m, e, fuel, depth).len(),
    ensures
        subtree(m, e, fuel, depth)[s] != subtree(m, e, fuel, depth)[t],
    decreases depth, 0nat,
{
    if s == 0 {
        lemma_root_comes_once(m, e, fuel, depth, t);
    } else {
        let kids = children_of(m, e, fuel);
        let below = (depth - 1) as nat;
        assert(subtree(m, e, fuel, depth) == seq![e] + forest(m, kids, fuel, below));
        lemma_children_unrelated(m, e, fuel);
        lemma_forest_once(m, kids, fuel, below, s - 1, t - 1);
    }
}

/// In a well-kept hierarchy no two children of `e` are the same or climb
/// to one another.
pub proof fn lemma_children_unrelated(m: Map<Entity, Node>, e: Entity, fuel: nat)
    requires
        tidy(m),
    ensures
        unrelated(m, children_of(m, e, fuel)),
{
    let kids = children_of(m, e, fuel);
    let rank = choose|rank: spec_fn(Entity) -> nat| ranked(m, rank);
    let place = choose|place: spec_fn(Entity) -> nat| placed(m, place);
    assert forall|j: int| 0 <= j < kids.len() implies m.dom().contains(#[trigger] kids[j]) by {
        lemma_children_name_parent(m, e, fuel, j);
    }
    assert forall|i: int, j: int| 0 <= i < j < kids.len() implies apart(m, kids[i], kids[j]) by {
        lemma_children_name_parent(m, e, fuel, i);
        lemma_children_name_parent(m, e, fuel, j);
        lemma_chain_places(m, place, m[e].first_child, fuel, i, j);
        assert forall|steps: nat| !reaches(m, kids[i], kids[j], steps) by {
            lemma_siblings_apart(m, rank, e, kids[i], kids[j], steps);
        }
        assert forall|steps: nat| !reaches(m, kids[j], kids[i], steps) by {
            lemma_siblings_apart(m, rank, e, kids[j], kids[i], steps);
        }
    }
}

/// Part of an unrelated list is unrelated.
pub proof fn lemma_unrelated_front(m: Map<Entity, Node>, list: Seq<Entity>)
    requires
        unrelated(m, list),
        list.len() > 0,
    ensures
        unrelated(m, list.drop_last()),
        m.dom().contains(list.last()),
{
    let rest = list.drop_last();
    assert forall|j: int| 0 <= j < rest.len() implies m.dom().contains(#[trigger] rest[j]) by {
        assert(rest[j] == list[j]);
    }
    assert forall|i: int, j: int| 0 <= i < j < rest.len() implies apart(m, rest[i], rest[j]) by {
        assert(rest[i] == list[i] && rest[j] == list[j]);
    }
    assert(m.dom().contains(list[list.len() - 1]));
}

/// In a well-kept hierarchy the visits of the trees under unrelated
/// entities come to no entity twice.
pub proof fn lemma_forest_once(
    m: Map<Entity, Node>,
    list: Seq<Entity>,
    fuel: nat,
    depth: nat,
    s: int,
    t: int,
)
    requires
        tidy(m),
        unrelated(m, list),
        0 <= s < t < forest(m, list, fuel, depth).len(),
    ensures
        forest(m, list, fuel, depth)[s] != forest(m, list, fuel, depth)[t],
    decreases depth, list.len() + 1,
{
    let whole = forest(m, list, fuel, depth);
    let rest = list.drop_last();
    let front = forest(m, rest, fuel, depth);
    let last = list.last();
    let block = subtree(m, last, fuel, depth);
    assert(whole == front + block);
    lemma_unrelated_front(m, list);
    if t < front.len() {
        lemma_forest_once(m, rest, fuel, depth, s, t);
    } else if s >= front.len() {
        lemma_visit_once(m, last, fuel, depth, s - front.len(), t - front.len());
    } else {
        let x = whole[s];
        assert(front[s] == x);
        let j = lemma_forest_part(m, rest, fuel, depth, x);
        assert(rest[j] == list[j]);
        assert(apart(m, list[j], list[list.len() - 1]));
        lemma_blocks_apart(m, list[j], last, fuel, depth, x);
        if whole[t] == x {
            assert(block[t - front.len()] == x);
        }
    }
}

/// In a well-kept hierarchy the visit of a tree comes to every entity
/// before it comes to anything below that entity: a parent is visited
/// strictly before all of its descendants.
pub proof fn lemma_parent_comes_first(
    m: Map<Entity, Node>,
    e: Entity,
    fuel: nat,
    depth: nat,
    above: int,
    below: int,
    steps: nat,
)
    requires
        tidy(m),
        0 <= above < subtree(m, e, fuel, depth).len(),
        0 <= below < subtree(m, e, fuel, depth).len(),
        reaches(m, subtree(m, e, fuel, depth)[below], subtree(m, e, fuel, depth)[above], steps),
    ensures
        above < below,
    decreases depth, 0nat,
{
    let rank = choose|rank: spec_fn(Entity) -> nat| ranked(m, rank);
    let visit = subtree(m, e, fuel, depth);
    lemma_reaches_rank(m, rank, visit[below], visit[above], steps);
    assert(visit[0] == e);
    if above >= 1 {
        lemma_visit_goes_down(m, e, fuel, depth, above);
        lemma_reaches_rank(m, rank, visit[above], e, depth);
        let kids = children_of(m, e, fuel);
        assert(visit == seq![e] + forest(m, kids, fuel, (depth - 1) as nat));
        lemma_children_unrelated(m, e, fuel);
        lemma_forest_parent_first(m, kids, fuel, (depth - 1) as nat, above - 1, below - 1, steps);
    }
}

/// In a well-kept hierarchy the visits of the trees under unrelated
/// entities come to every entity before they come to anything below it.
pub proof fn lemma_forest_parent_first(
    m: Map<Entity, Node>,
    list: Seq<Entity>,
    fuel: nat,
    depth: nat,
    above: int,
    below: int,
    steps: nat,
)
    requires
        tidy(m),
        unrelated(m, list),
        0 <= above < forest(m, list, fuel, depth).len(),
        0 <= below < forest(m, list, fuel, depth).len(),
        reaches(m, forest(m, list, fuel, depth)[below], forest(m, list, fuel, depth)[above], steps),
    ensures
        above < below,
    decreases depth, list.len() + 1,
{
    let whole = forest(m, list, fuel, depth);
    let rest = list.drop_last();
    let front = forest(m, rest, fuel, depth);
    let last = list.last();
    let block = subtree(m, last, fuel, depth);
    let a = whole[above];
    let b = whole[below];
    assert(whole == front + block);
    lemma_unrelated_front(m, list);
    if above < front.len() && below < front.len() {
        lemma_forest_parent_first(m, rest, fuel, depth, above, below, steps);
    } else if above >= front.len() && below >= front.len() {
        lemma_parent_comes_first(m, last, fuel, depth, above - front.len(), below - front.len(), steps);
    } else if above >= front.len() {
        let s = above - front.len();
        assert(block[s] == a);
        assert(block[0] == last);
        assert(front[below] == b);
        let j = lemma_forest_part(m, rest, fuel, depth, b);
        let other = rest[j];
        assert(other == list[j]);
        assert(apart(m, list[j], list[list.len() - 1]));
        let of_other = subtree(m, other, fuel, depth);
        let t = choose|t: int| 0 <= t < of_other.len() && of_other[t] == b;
        assert(of_other[0] == other);
        let far = steps + depth;
        if s >= 1 {
            lemma_visit_goes_down(m, last, fuel, depth, s);
            lemma_reaches_onward(m, b, a, last, steps, depth);
        } else {
            lemma_reaches_with_more(m, b, last, steps, far);
        }
        assert(reaches(m, b, last, far));
        if t >= 1 {
            lemma_visit_goes_down(m, other, fuel, depth, t);
            lemma_ancestors_in_line(m, b, last, other, far, depth);
        }
        assert(false);
    }
}

/// No two roots are the same or climb to one another.
pub proof fn lemma_roots_unrelated(nodes: &Arena<Node>)
    requires
        nodes.wf(),
    ensures
        unrelated(nodes@, roots_of(nodes)),
{
    let tops = roots_of(nodes);
    nodes.lemma_shape();
    lemma_ascending(root_set(nodes@), nodes.span());
    assert forall|j: int| 0 <= j < tops.len() implies nodes@.dom().contains(#[trigger] tops[j])
        && nodes@[tops[j]].parent is None by {
        assert(tops.contains(tops[j]));
    }
    assert forall|i: int, j: int| 0 <= i < j < tops.len() implies apart(nodes@, tops[i], tops[j]) by {
        assert(tops[i].index < tops[j].index);
        assert(nodes@[tops[i]].parent is None);
        assert(nodes@[tops[j]].parent is None);
    }
}

/// In a hierarchy without cycles whose links agree, every entity is a root
/// or climbs to one. The result is that root.
pub proof fn lemma_climbs_to_root(m: Map<Entity, Node>, rank: spec_fn(Entity) -> nat, x: Entity) -> (top:
    Entity)
    requires
        linked(m),
        ranked(m, rank),
        m.dom().contains(x),
    ensures
        m.dom().contains(top),
        m[top].parent is None,
        top == x || exists|steps: nat| reaches(m, x, top, steps),
    decreases rank(x),
{
    match m[x].parent {
        None => x,
        Some(p) => {
            assert(linked_at(m, x));
            let top = lemma_climbs_to_root(m, rank, p);
            if top == p {
                assert(reaches(m, x, top, 1));
            } else {
                let steps = choose|steps: nat| reaches(m, p, top, steps);
                assert(reaches(m, x, top, steps + 1));
            }
            top
        },
    }
}

/// In a well-kept hierarchy a pass over the whole hierarchy comes to
/// exactly the entities that hold a node.
pub proof fn lemma_pass_holds_all(nodes: &Arena<Node>, x: Entity)
    requires
        nodes.wf(),
        tidy(nodes@),
    ensures
        pass_order(nodes).contains(x) <==> nodes@.dom().contains(x),
{
    let m = nodes@;
    let span = nodes.span();
    let tops = roots_of(nodes);
    nodes.lemma_shape();
    lemma_ascending(root_set(m), span);
    if pass_order(nodes).contains(x) {
        let j = lemma_forest_part(m, tops, span, span, x);
        let visit = subtree(m, tops[j], span, span);
        let t = choose|t: int| 0 <= t < visit.len() && visit[t] == x;
        if t >= 1 {
            lemma_visit_goes_down(m, tops[j], span, span, t);
        }
    }
    if m.dom().contains(x) {
        let rank = choose|rank: spec_fn(Entity) -> nat| ranked(m, rank);
        let top = lemma_climbs_to_root(m, rank, x);
        assert(root_set(m).contains(top));
        assert(tops.contains(top));
        let j = choose|j: int| 0 <= j < tops.len() && tops[j] == top;
        lemma_visit_holds_the_tree(nodes, top, x);
        assert(preorder(nodes, top).contains(x));
        lemma_forest_has(m, tops, span, span, j, x);
    }
}

/// In a well-kept hierarchy a pass over the whole hierarchy comes to no
/// entity twice.
pub proof fn lemma_pass_once(nodes: &Arena<Node>, s: int, t: int)
    requires
        nodes.wf(),
        tidy(nodes@),
        0 <= s < t < pass_order(nodes).len(),
    ensures
        pass_order(nodes)[s] != pass_order(nodes)[t],
{
    lemma_roots_unrelated(nodes);
    lemma_forest_once(nodes@, roots_of(nodes), nodes.span(), nodes.span(), s, t);
}

/// In a well-kept hierarchy a pass over the whole hierarchy comes to every
/// entity before it comes to anything below it.
pub proof fn lemma_pass_parent_first(nodes: &Arena<Node>, above: int, below: int, steps: nat)
    requires
        nodes.wf(),
        tidy(nodes@),
        0 <= above < pass_order(nodes).len(),
        0 <= below < pass_order(nodes).len(),
        reaches(nodes@, pass_order(nodes)[below], pass_order(nodes)[above], steps),
    ensures
        above < below,
{
    lemma_roots_unrelated(nodes);
    lemma_forest_parent_first(
        nodes@,
        roots_of(nodes),
        nodes.span(),
        nodes.span(),
        above,
        below,
        steps,
    );
}

} // verus!
