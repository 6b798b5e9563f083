//! Index-ordered views: the entities that hold one component, or two.

use crate::arena::{ascending, occupant, one_per_index, Arena};
use crate::entity::Entity;
use vstd::prelude::*;

verus! {

/// `s` runs by strictly ascending index, so it holds no entity twice.
pub open spec fn strictly_ascending(s: Seq<Entity>) -> bool {
    forall|i: int, j: int| 0 <= i < j < s.len() ==> s[i].index < s[j].index
}

/// The smaller of two spans.
pub open spec fn lesser(a: nat, b: nat) -> nat {
    if a <= b {
        a
    } else {
        b
    }
}

/// Within a set that has one entity per index, the occupant of an index in a
/// subset is the set's own occupant there, where the subset keeps it.
pub proof fn lemma_occupant_subset(dom: Set<Entity>, sub: Set<Entity>, index: u32)
    requires
        one_per_index(dom),
        sub.subset_of(dom),
    ensures
        occupant(sub, index) == (match occupant(dom, index) {
            Some(e) => if sub.contains(e) {
                Some(e)
            } else {
                None
            },
            None => None,
        }),
{
    if exists|g: u32| sub.contains(Entity { index, generation: g }) {
        let g = choose|g: u32| sub.contains(Entity { index, generation: g });
        let e = Entity { index, generation: g };
        assert(dom.contains(e));
        let h = choose|h: u32| dom.contains(Entity { index, generation: h });
        assert(dom.contains(Entity { index, generation: h }));
        assert(Entity { index, generation: h } == e);
    } else {
        match occupant(dom, index) {
            Some(e) => {
                assert(e.index == index);
                assert(!sub.contains(Entity { index, generation: e.generation }));
            },
            None => {},
        }
    }
}

/// What an ascending scan holds: exactly the entities of the set below the
/// limit, each once, by strictly ascending index.
pub proof fn lemma_ascending(dom: Set<Entity>, limit: nat)
    requires
        one_per_index(dom),
        limit <= 0x1_0000_0000,
    ensures
        forall|e: Entity| #[trigger]
            ascending(dom, limit).contains(e) <==> dom.contains(e) && (e.index as nat) < limit,
        strictly_ascending(ascending(dom, limit)),
    decreases limit,
{
    if limit > 0 {
        let below = (limit - 1) as nat;
        let rest = ascending(dom, below);
        lemma_ascending(dom, below);
        let s = ascending(dom, limit);
        let at: u32 = below as u32;
        match occupant(dom, at) {
            Some(top) => {
                let g = choose|g: u32| dom.contains(Entity { index: at, generation: g });
                assert(dom.contains(Entity { index: at, generation: g }));
                assert(dom.contains(top) && top.index == below);
                assert(s == rest.push(top));
                assert forall|e: Entity| #[trigger]
                    s.contains(e) <==> dom.contains(e) && (e.index as nat) < limit by {
                    if s.contains(e) {
                        let i = choose|i: int| 0 <= i < s.len() && s[i] == e;
                        if i < rest.len() {
                            assert(rest[i] == e);
                            assert(rest.contains(e));
                        }
                    }
                    if dom.contains(e) && (e.index as nat) < limit {
                        if e.index == below {
                            assert(e == top);
                            assert(s[rest.len() as int] == e);
                        } else {
                            assert(rest.contains(e));
                            let i = choose|i: int| 0 <= i < rest.len() && rest[i] == e;
                            assert(s[i] == e);
                        }
                    }
                }
                assert forall|i: int, j: int| 0 <= i < j < s.len() implies s[i].index
                    < s[j].index by {
                    if j == rest.len() {
                        let e = rest[i];
                        assert(s[i] == e);
                        assert(rest.contains(e));
                        assert((e.index as nat) < below);
                        assert(s[j] == top);
                    } else {
                        assert(s[i] == rest[i]);
                        assert(s[j] == rest[j]);
                    }
                }
            },
            None => {
                assert(s == rest);
                assert forall|e: Entity| #[trigger]
                    s.contains(e) <==> dom.contains(e) && (e.index as nat) < limit by {
                    if dom.contains(e) && (e.index as nat) < limit {
                        if e.index == at {
                            assert(e == Entity { index: at, generation: e.generation });
                            assert(dom.contains(Entity { index: at, generation: e.generation }));
                            assert(false);
                        }
                        assert((e.index as nat) < below);
                        assert(rest.contains(e));
                    }
                    if s.contains(e) {
                        assert(rest.contains(e));
                    }
                }
            },
        }
    } else {
        assert(ascending(dom, limit) =~= Seq::<Entity>::empty());
    }
}

/// A strictly ascending list is determined by its members: two such lists
/// with the same members are the same list.
pub proof fn lemma_ascending_unique(a: Seq<Entity>, b: Seq<Entity>)
    requires
        strictly_ascending(a),
        strictly_ascending(b),
        forall|e: Entity| a.contains(e) <==> b.contains(e),
    ensures
        a == b,
    decreases a.len(),
{
    if a.len() == 0 {
        if b.len() > 0 {
            assert(b.contains(b[0]));
            let i = choose|i: int| 0 <= i < a.len() && a[i] == b[0];
        }
        assert(a =~= b);
    } else {
        let x = a.last();
        assert(a.contains(x)) by {
            assert(a[a.len() - 1] == x);
        }
        assert(b.contains(x));
        let j = choose|j: int| 0 <= j < b.len() && b[j] == x;
        let y = b.last();
        assert(b.contains(y)) by {
            assert(b[b.len() - 1] == y);
        }
        assert(a.contains(y));
        let i = choose|i: int| 0 <= i < a.len() && a[i] == y;
        assert(y.index <= x.index);
        assert(x.index <= y.index);
        assert(j == b.len() - 1);
        assert(x == y);
        let a0 = a.drop_last();
        let b0 = b.drop_last();
        assert forall|e: Entity| a0.contains(e) <==> b0.contains(e) by {
            if a0.contains(e) {
                let k = choose|k: int| 0 <= k < a0.len() && a0[k] == e;
                assert(a[k] == e);
                assert(e.index < x.index);
                assert(a.contains(e));
                assert(b.contains(e));
                let l = choose|l: int| 0 <= l < b.len() && b[l] == e;
                assert(l < b.len() - 1);
                assert(b0[l] == e);
            }
            if b0.contains(e) {
                let k = choose|k: int| 0 <= k < b0.len() && b0[k] == e;
                assert(b[k] == e);
                assert(e.index < y.index);
                assert(b.contains(e));
                assert(a.contains(e));
                let l = choose|l: int| 0 <= l < a.len() && a[l] == e;
                assert(l < a.len() - 1);
                assert(a0[l] == e);
            }
        }
        assert(strictly_ascending(a0)) by {
            assert forall|p: int, q: int| 0 <= p < q < a0.len() implies a0[p].index
                < a0[q].index by {
                assert(a0[p] == a[p] && a0[q] == a[q]);
            }
        }
        assert(strictly_ascending(b0)) by {
            assert forall|p: int, q: int| 0 <= p < q < b0.len() implies b0[p].index
                < b0[q].index by {
                assert(b0[p] == b[p] && b0[q] == b[q]);
            }
        }
        lemma_ascending_unique(a0, b0);
        assert(a =~= a0.push(x));
        assert(b =~= b0.push(y));
    }
}

/// The entities that hold a value in `arena`, by ascending index.
pub fn view_with<T>(arena: &Arena<T>) -> (out: Vec<Entity>)
    requires
        arena.wf(),
    ensures
        out@ == arena.ordered(),
        strictly_ascending(out@),
        forall|e: Entity| #[trigger] out@.contains(e) <==> arena@.dom().contains(e),
{
    let n: usize = arena.capacity();
    let mut out: Vec<Entity> = Vec::new();
    let mut i: usize = 0;
    proof {
        arena.lemma_shape();
    }
    while i < n
        invariant
            i <= n,
            n == arena.span(),
            n <= 0x1_0000_0000,
            out@ == ascending(arena@.dom(), i as nat),
        decreases n - i,
    {
        match arena.holder(i as u32) {
            Some(e) => {
                out.push(e);
            },
            None => {},
        }
        i = i + 1;
    }
    proof {
        lemma_ascending(arena@.dom(), n as nat);
    }
    out
}

/// The entities that hold a value in both arenas, by ascending index.
pub fn view_with_2<T, U>(first: &Arena<T>, second: &Arena<U>) -> (out: Vec<Entity>)
    requires
        first.wf(),
        second.wf(),
    ensures
        out@ == ascending(
            first@.dom().intersect(second@.dom()),
            lesser(first.span(), second.span()),
        ),
        strictly_ascending(out@),
        forall|e: Entity| #[trigger]
            out@.contains(e) <==> first@.dom().contains(e) && second@.dom().contains(e),
{
    let a: usize = first.capacity();
    let b: usize = second.capacity();
    let n: usize = if a <= b {
        a
    } else {
        b
    };
    let ghost both = first@.dom().intersect(second@.dom());
    let mut out: Vec<Entity> = Vec::new();
    let mut i: usize = 0;
    proof {
        first.lemma_shape();
        second.lemma_shape();
    }
    while i < n
        invariant
            i <= n,
            n == lesser(first.span(), second.span()),
            n <= 0x1_0000_0000,
            both == first@.dom().intersect(second@.dom()),
            one_per_index(first@.dom()),
            out@ == ascending(both, i as nat),
        decreases n - i,
    {
        proof {
            lemma_occupant_subset(first@.dom(), both, i as u32);
        }
        match first.holder(i as u32) {
            Some(e) => {
                if second.contains(e) {
                    out.push(e);
                }
            },
            None => {},
        }
        i = i + 1;
    }
    proof {
        lemma_ascending(both, n as nat);
    }
    out
}

} // verus!
