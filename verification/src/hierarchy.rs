//! Walking the hierarchy: child lists, roots, and the pre-order visit that
//! layout and draw passes share.
//!
//! Links are plain data; a link that names an entity without a node ends the
//! list it belongs to. Every walk is bounded by the arena's span, so it ends
//! on any data, linked into a cycle or not.

use crate::arena::{ascending, Arena};
use crate::entity::Entity;
use crate::node::Node;
use crate::views::{
    lemma_ascending, lemma_ascending_unique, lemma_occupant_subset, strictly_ascending,
};
use vstd::prelude::*;

verus! {

/// The sibling list that starts at `start`: each entity that holds a node,
/// then the list from its `next_sibling`; at most `fuel` entities.
pub open spec fn chain(m: Map<Entity, Node>, start: Option<Entity>, fuel: nat) -> Seq<Entity>
    decreases fuel,
{
    if fuel == 0 {
        Seq::empty()
    } else {
        match start {
            Some(e) => if m.dom().contains(e) {
                seq![e] + chain(m, m[e].next_sibling, (fuel - 1) as nat)
            } else {
                Seq::empty()
            },
            None => Seq::empty(),
        }
    }
}

/// The children of `e`, first child first; none where `e` holds no node.
pub open spec fn children_of(m: Map<Entity, Node>, e: Entity, fuel: nat) -> Seq<Entity> {
    if m.dom().contains(e) {
        chain(m, m[e].first_child, fuel)
    } else {
        Seq::empty()
    }
}

/// The pre-order visit of the tree under `e`: `e` itself, then the subtree
/// of each child in sibling order. Child lists are cut at `fuel` entities
/// and the descent at `depth` levels.
pub open spec fn subtree(m: Map<Entity, Node>, e: Entity, fuel: nat, depth: nat) -> Seq<Entity>
    decreases depth, 0nat,
{
    if !m.dom().contains(e) {
        Seq::empty()
    } else if depth == 0 {
        seq![e]
    } else {
        seq![e] + forest(m, children_of(m, e, fuel), fuel, (depth - 1) as nat)
    }
}

/// The pre-order visits of the trees under each entity of `list`, one
/// after the other.
pub open spec fn forest(m: Map<Entity, Node>, list: Seq<Entity>, fuel: nat, depth: nat) -> Seq<
    Entity,
>
    decreases depth, list.len() + 1,
{
    if list.len() == 0 {
        Seq::empty()
    } else {
        forest(m, list.drop_last(), fuel, depth) + subtree(m, list.last(), fuel, depth)
    }
}

/// The entities whose node has no parent.
pub open spec fn root_set(m: Map<Entity, Node>) -> Set<Entity> {
    Set::new(|e: Entity| m.dom().contains(e) && m[e].parent is None)
}

/// The roots of `nodes`, by ascending index.
pub open spec fn roots_of(nodes: &Arena<Node>) -> Seq<Entity> {
    ascending(root_set(nodes@), nodes.span())
}

/// The pre-order visit of the tree under `root`, bounded by the arena's span
/// in width and depth.
pub open spec fn preorder(nodes: &Arena<Node>, root: Entity) -> Seq<Entity> {
    subtree(nodes@, root, nodes.span(), nodes.span())
}

/// The order of a pass over the whole hierarchy: the pre-order visit of each
/// root's tree, the roots by ascending index.
pub open spec fn pass_order(nodes: &Arena<Node>) -> Seq<Entity> {
    forest(nodes@, roots_of(nodes), nodes.span(), nodes.span())
}

/// A sibling list follows the links: it starts at `start`, every entity in
/// it holds a node, and each is followed by its `next_sibling`.
pub proof fn lemma_chain_links(m: Map<Entity, Node>, start: Option<Entity>, fuel: nat, i: int)
    requires
        0 <= i < chain(m, start, fuel).len(),
    ensures
        chain(m, start, fuel).len() <= fuel,
        start == Some(chain(m, start, fuel)[0]),
        m.dom().contains(chain(m, start, fuel)[i]),
        i + 1 < chain(m, start, fuel).len() ==> m[chain(m, start, fuel)[i]].next_sibling == Some(
            chain(m, start, fuel)[i + 1],
        ),
    decreases fuel,
{
    let e = start.unwrap();
    let rest = chain(m, m[e].next_sibling, (fuel - 1) as nat);
    assert(chain(m, start, fuel) =~= seq![e] + rest);
    if rest.len() > 0 {
        lemma_chain_links(m, m[e].next_sibling, (fuel - 1) as nat, 0);
    }
    if i > 0 {
        lemma_chain_links(m, m[e].next_sibling, (fuel - 1) as nat, i - 1);
    } else {
        lemma_chain_length(m, m[e].next_sibling, (fuel - 1) as nat);
    }
}

/// A sibling list is no longer than its fuel.
pub proof fn lemma_chain_length(m: Map<Entity, Node>, start: Option<Entity>, fuel: nat)
    ensures
        chain(m, start, fuel).len() <= fuel,
    decreases fuel,
{
    if fuel > 0 && start is Some && m.dom().contains(start.unwrap()) {
        lemma_chain_length(m, m[start.unwrap()].next_sibling, (fuel - 1) as nat);
    }
}

/// The visit of several trees is the visit of the first few, then of the
/// next one, then of the rest: each tree is visited as one block, in the
/// order of the list.
pub proof fn lemma_forest_split(m: Map<Entity, Node>, list: Seq<Entity>, fuel: nat, depth: nat, i: int)
    requires
        0 <= i < list.len(),
    ensures
        forest(m, list, fuel, depth) == forest(m, list.take(i), fuel, depth) + subtree(
            m,
            list[i],
            fuel,
            depth,
        ) + forest(m, list.skip(i + 1), fuel, depth),
    decreases list.len(),
{
    let front = list.drop_last();
    let tail = subtree(m, list.last(), fuel, depth);
    if i == list.len() - 1 {
        assert(list.take(i) =~= front);
        assert(list.skip(i + 1) =~= Seq::<Entity>::empty());
        assert(forest(m, list.skip(i + 1), fuel, depth) =~= Seq::<Entity>::empty());
        assert(forest(m, list, fuel, depth) =~= forest(m, front, fuel, depth) + tail
            + Seq::<Entity>::empty());
    } else {
        lemma_forest_split(m, front, fuel, depth, i);
        let after = list.skip(i + 1);
        assert(front.take(i) =~= list.take(i));
        assert(front[i] == list[i]);
        assert(after.drop_last() =~= front.skip(i + 1));
        assert(after.last() == list.last());
        assert(forest(m, after, fuel, depth) == forest(m, front.skip(i + 1), fuel, depth) + tail);
        assert(forest(m, list, fuel, depth) =~= forest(m, list.take(i), fuel, depth) + subtree(
            m,
            list[i],
            fuel,
            depth,
        ) + forest(m, after, fuel, depth));
    }
}

/// Pre-order: the visit of a tree starts with its root; then, for each
/// child in sibling order, come the subtrees of the earlier siblings, the
/// child's own subtree as one block, and the subtrees of the later siblings.
/// So a parent comes before all that is below it, and all that is below a
/// child comes before the child's next sibling.
pub proof fn lemma_preorder(m: Map<Entity, Node>, e: Entity, fuel: nat, depth: nat, i: int)
    requires
        m.dom().contains(e),
    ensures
        subtree(m, e, fuel, depth).len() >= 1,
        subtree(m, e, fuel, depth)[0] == e,
        depth > 0 && 0 <= i < children_of(m, e, fuel).len() ==> subtree(m, e, fuel, depth) == seq![e]
            + forest(m, children_of(m, e, fuel).take(i), fuel, (depth - 1) as nat) + subtree(
            m,
            children_of(m, e, fuel)[i],
            fuel,
            (depth - 1) as nat,
        ) + forest(m, children_of(m, e, fuel).skip(i + 1), fuel, (depth - 1) as nat),
{
    if depth > 0 && 0 <= i < children_of(m, e, fuel).len() {
        let kids = children_of(m, e, fuel);
        let below = (depth - 1) as nat;
        lemma_forest_split(m, kids, fuel, below, i);
        assert(subtree(m, e, fuel, depth) =~= seq![e] + forest(m, kids.take(i), fuel, below)
            + subtree(m, kids[i], fuel, below) + forest(m, kids.skip(i + 1), fuel, below));
    }
}

/// Siblings are visited in list order: of two children of `e`, the visit
/// of the tree under `e` comes to the earlier one first. The result is the
/// two positions.
pub proof fn lemma_siblings_in_order(
    m: Map<Entity, Node>,
    e: Entity,
    fuel: nat,
    depth: nat,
    i: int,
    j: int,
) -> (at: (int, int))
    requires
        m.dom().contains(e),
        depth > 0,
        0 <= i < j < children_of(m, e, fuel).len(),
    ensures
        0 < at.0 < at.1 < subtree(m, e, fuel, depth).len(),
        subtree(m, e, fuel, depth)[at.0] == children_of(m, e, fuel)[i],
        subtree(m, e, fuel, depth)[at.1] == children_of(m, e, fuel)[j],
{
    let kids = children_of(m, e, fuel);
    let below = (depth - 1) as nat;
    let all = forest(m, kids, fuel, below);
    lemma_chain_links(m, m[e].first_child, fuel, i);
    lemma_chain_links(m, m[e].first_child, fuel, j);
    lemma_forest_split(m, kids, fuel, below, j);
    let front = forest(m, kids.take(j), fuel, below);
    assert(subtree(m, kids[j], fuel, below)[0] == kids[j]);
    assert(all[front.len() as int] == kids[j]);
    lemma_forest_split(m, kids.take(j), fuel, below, i);
    let before = forest(m, kids.take(j).take(i), fuel, below);
    assert(kids.take(j)[i] == kids[i]);
    assert(subtree(m, kids[i], fuel, below)[0] == kids[i]);
    assert(front[before.len() as int] == kids[i]);
    assert(all[before.len() as int] == kids[i]);
    assert(subtree(m, e, fuel, depth) == seq![e] + all);
    ((before.len() + 1) as int, (front.len() + 1) as int)
}

/// The root scan is determined by the arena: any two lists that run by
/// strictly ascending index and hold exactly the roots are the same list, so
/// scanning twice without a change in between yields the same roots in the
/// same order.
pub proof fn lemma_root_scan_repeats(nodes: &Arena<Node>, first: Seq<Entity>, second: Seq<Entity>)
    requires
        strictly_ascending(first),
        strictly_ascending(second),
        forall|e: Entity| #[trigger]
            first.contains(e) <==> nodes@.dom().contains(e) && nodes@[e].parent is None,
        forall|e: Entity| #[trigger]
            second.contains(e) <==> nodes@.dom().contains(e) && nodes@[e].parent is None,
    ensures
        first == second,
{
    lemma_ascending_unique(first, second);
}

/// The children of `e`, first child first, following `next_sibling` until a
/// link names no node.
pub fn children(nodes: &Arena<Node>, e: Entity) -> (out: Vec<Entity>)
    requires
        nodes.wf(),
    ensures
        out@ == children_of(nodes@, e, nodes.span()),
{
    let mut out: Vec<Entity> = Vec::new();
    let limit: usize = nodes.capacity();
    let mut cursor: Option<Entity> = match nodes.get(e) {
        Some(n) => n.first_child,
        None => None,
    };
    let ghost m = nodes@;
    let ghost start = cursor;
    let ghost total = chain(m, start, limit as nat);
    let mut steps: usize = 0;
    while steps < limit
        invariant
            steps <= limit,
            m == nodes@,
            out@.len() == steps,
            total == out@ + chain(m, cursor, (limit - steps) as nat),
        ensures
            total == out@,
        decreases limit - steps,
    {
        let next = match cursor {
            Some(c) => match nodes.get(c) {
                Some(n) => Some((c, n.next_sibling)),
                None => None,
            },
            None => None,
        };
        match next {
            Some((c, after)) => {
                proof {
                    assert(chain(m, cursor, (limit - steps) as nat) == seq![c] + chain(
                        m,
                        after,
                        (limit - steps - 1) as nat,
                    ));
                    assert(out@.push(c) + chain(m, after, (limit - steps - 1) as nat) =~= out@ + (
                    seq![c] + chain(m, after, (limit - steps - 1) as nat)));
                }
                out.push(c);
                cursor = after;
                steps = steps + 1;
            },
            None => {
                proof {
                    assert(chain(m, cursor, (limit - steps) as nat) =~= Seq::<Entity>::empty());
                    assert(out@ + Seq::<Entity>::empty() =~= out@);
                }
                break ;
            },
        }
    }
    proof {
        if steps == limit {
            assert(chain(m, cursor, 0) =~= Seq::<Entity>::empty());
            assert(out@ + Seq::<Entity>::empty() =~= out@);
        }
    }
    out
}

/// The roots: the entities whose node has no parent, by ascending index,
/// each once.
pub fn roots(nodes: &Arena<Node>) -> (out: Vec<Entity>)
    requires
        nodes.wf(),
    ensures
        out@ == roots_of(nodes),
        strictly_ascending(out@),
        forall|e: Entity| #[trigger]
            out@.contains(e) <==> nodes@.dom().contains(e) && nodes@[e].parent is None,
{
    let n: usize = nodes.capacity();
    let ghost set = root_set(nodes@);
    let mut out: Vec<Entity> = Vec::new();
    let mut i: usize = 0;
    proof {
        nodes.lemma_shape();
    }
    while i < n
        invariant
            i <= n,
            n == nodes.span(),
            n <= 0x1_0000_0000,
            set == root_set(nodes@),
            crate::arena::one_per_index(nodes@.dom()),
            out@ == ascending(set, i as nat),
        decreases n - i,
    {
        proof {
            lemma_occupant_subset(nodes@.dom(), set, i as u32);
        }
        match nodes.holder(i as u32) {
            Some(e) => {
                if nodes.get_unchecked(e).is_root() {
                    out.push(e);
                }
            },
            None => {},
        }
        i = i + 1;
    }
    proof {
        lemma_ascending(set, n as nat);
    }
    out
}

/// Appends the pre-order visit of the tree under `e` to `out`.
fn visit(nodes: &Arena<Node>, e: Entity, depth: usize, out: &mut Vec<Entity>)
    requires
        nodes.wf(),
    ensures
        final(out)@ == old(out)@ + subtree(nodes@, e, nodes.span(), depth as nat),
    decreases depth,
{
    if !nodes.contains(e) {
        assert(out@ + Seq::<Entity>::empty() =~= out@);
        return ;
    }
    out.push(e);
    if depth == 0 {
        assert(old(out)@.push(e) =~= old(out)@ + seq![e]);
        return ;
    }
    let kids = children(nodes, e);
    let ghost base = out@;
    let ghost fuel = nodes.span();
    let mut i: usize = 0;
    while i < kids.len()
        invariant
            i <= kids@.len(),
            nodes.wf(),
            fuel == nodes.span(),
            depth > 0,
            out@ == base + forest(nodes@, kids@.take(i as int), fuel, (depth - 1) as nat),
        decreases kids@.len() - i,
    {
        let ghost before = out@;
        visit(nodes, kids[i], depth - 1, out);
        proof {
            let next = kids@.take(i + 1);
            assert(next.drop_last() =~= kids@.take(i as int));
            assert(next.last() == kids@[i as int]);
            assert(out@ =~= base + forest(nodes@, next, fuel, (depth - 1) as nat));
        }
        i = i + 1;
    }
    proof {
        assert(kids@.take(kids@.len() as int) =~= kids@);
        assert(base =~= old(out)@ + seq![e]);
        assert(out@ =~= old(out)@ + (seq![e] + forest(nodes@, kids@, fuel, (depth - 1) as nat)));
    }
}

/// The pre-order visit of the tree under `root`: `root`, then for each
/// child in sibling order the child's whole subtree before its next
/// sibling. Empty where `root` holds no node.
pub fn traverse(nodes: &Arena<Node>, root: Entity) -> (out: Vec<Entity>)
    requires
        nodes.wf(),
    ensures
        out@ == preorder(nodes, root),
{
    let mut out: Vec<Entity> = Vec::new();
    visit(nodes, root, nodes.capacity(), &mut out);
    assert(Seq::<Entity>::empty() + preorder(nodes, root) =~= preorder(nodes, root));
    out
}

/// The pre-order visits of the trees under each entity of `starts`, one
/// after the other in the order of `starts`.
pub fn traverse_all(nodes: &Arena<Node>, starts: &Vec<Entity>) -> (out: Vec<Entity>)
    requires
        nodes.wf(),
    ensures
        out@ == forest(nodes@, starts@, nodes.span(), nodes.span()),
{
    let mut out: Vec<Entity> = Vec::new();
    let depth: usize = nodes.capacity();
    let mut i: usize = 0;
    while i < starts.len()
        invariant
            i <= starts@.len(),
            nodes.wf(),
            depth == nodes.span(),
            out@ == forest(nodes@, starts@.take(i as int), nodes.span(), nodes.span()),
        decreases starts@.len() - i,
    {
        visit(nodes, starts[i], depth, &mut out);
        proof {
            let next = starts@.take(i + 1);
            assert(next.drop_last() =~= starts@.take(i as int));
            assert(next.last() == starts@[i as int]);
        }
        i = i + 1;
    }
    proof {
        assert(starts@.take(starts@.len() as int) =~= starts@);
    }
    out
}

} // verus!
