//! Connected components of the lattice: groups of stones and regions of
//! empty cells, both read off a map from points to colours.
use vstd::prelude::*;

use crate::lattice::{in_bounds, is_neighbor, unit_step, Position};
use crate::stone::StoneColor;

verus! {

/// What occupies `p`: the colour of its stone, or `None` when it is empty.
pub open spec fn content(b: Map<Position, StoneColor>, p: Position) -> Option<StoneColor> {
    if b.contains_key(p) {
        Some(b[p])
    } else {
        None
    }
}

/// `path` runs through in-bounds cells that all hold `k`, each one a unit step
/// from the one before.
pub open spec fn is_walk(
    b: Map<Position, StoneColor>,
    n: int,
    k: Option<StoneColor>,
    path: Seq<Position>,
) -> bool {
    &&& path.len() > 0
    &&& forall|i: int|
        0 <= i < path.len() ==> in_bounds(n, #[trigger] path[i]) && content(b, path[i]) == k
    &&& forall|i: int| 0 <= i < path.len() - 1 ==> #[trigger] unit_step(path[i], path[i + 1])
}

/// `q` is reached from `p` through cells that hold what `p` holds.
pub open spec fn joined(b: Map<Position, StoneColor>, n: int, p: Position, q: Position) -> bool {
    exists|path: Seq<Position>|
        #[trigger] is_walk(b, n, content(b, p), path) && path[0] == p && path.last() == q
}

/// The maximal connected set of cells with the same content as `p`: the group
/// of a stone, or the region of an empty cell.
pub open spec fn component(b: Map<Position, StoneColor>, n: int, p: Position) -> Set<Position> {
    Set::new(|q: Position| joined(b, n, p, q))
}

/// The empty cells next to some member of `g`.
pub open spec fn liberty_set(b: Map<Position, StoneColor>, n: int, g: Set<Position>) -> Set<
    Position,
> {
    Set::new(
        |q: Position| !b.contains_key(q) && exists|s: Position| g.contains(s) && is_neighbor(n, s, q),
    )
}

/// `s` is closed under same-content steps from the content of `p`.
pub open spec fn closed_from(
    b: Map<Position, StoneColor>,
    n: int,
    p: Position,
    s: Set<Position>,
) -> bool {
    forall|u: Position, v: Position|
        s.contains(u) && #[trigger] unit_step(u, v) && in_bounds(n, v) && content(b, v) == content(
            b,
            p,
        ) ==> #[trigger] s.contains(v)
}

pub proof fn lemma_joined_refl(b: Map<Position, StoneColor>, n: int, p: Position)
    requires
        in_bounds(n, p),
    ensures
        joined(b, n, p, p),
        component(b, n, p).contains(p),
{
    let path = seq![p];
    assert(is_walk(b, n, content(b, p), path));
}

pub proof fn lemma_joined_facts(b: Map<Position, StoneColor>, n: int, p: Position, q: Position)
    requires
        joined(b, n, p, q),
    ensures
        in_bounds(n, p),
        in_bounds(n, q),
        content(b, q) == content(b, p),
{
    let path = choose|path: Seq<Position>|
        #[trigger] is_walk(b, n, content(b, p), path) && path[0] == p && path.last() == q;
    assert(path[0] == p);
    assert(path[path.len() - 1] == q);
}

pub proof fn lemma_joined_extend(
    b: Map<Position, StoneColor>,
    n: int,
    p: Position,
    q: Position,
    r: Position,
)
    requires
        joined(b, n, p, q),
        unit_step(q, r),
        in_bounds(n, r),
        content(b, r) == content(b, p),
    ensures
        joined(b, n, p, r),
{
    let path = choose|path: Seq<Position>|
        #[trigger] is_walk(b, n, content(b, p), path) && path[0] == p && path.last() == q;
    let np = path.push(r);
    assert forall|i: int| 0 <= i < np.len() - 1 implies #[trigger] unit_step(np[i], np[i + 1]) by {
        if i < path.len() - 1 {
            assert(np[i] == path[i] && np[i + 1] == path[i + 1]);
        } else {
            assert(np[i] == q && np[i + 1] == r);
        }
    }
    assert forall|i: int| 0 <= i < np.len() implies in_bounds(n, #[trigger] np[i]) && content(
        b,
        np[i],
    ) == content(b, p) by {
        if i < path.len() {
            assert(np[i] == path[i]);
        }
    }
    assert(is_walk(b, n, content(b, p), np));
    assert(np[0] == p);
}

proof fn lemma_unit_step_symmetric(p: Position, q: Position)
    ensures
        unit_step(p, q) == unit_step(q, p),
{
}

pub proof fn lemma_joined_symmetric(b: Map<Position, StoneColor>, n: int, p: Position, q: Position)
    requires
        joined(b, n, p, q),
    ensures
        joined(b, n, q, p),
{
    lemma_joined_facts(b, n, p, q);
    let path = choose|path: Seq<Position>|
        #[trigger] is_walk(b, n, content(b, p), path) && path[0] == p && path.last() == q;
    let len = path.len();
    let rp = Seq::new(len, |i: int| path[len - 1 - i]);
    assert forall|i: int| 0 <= i < rp.len() - 1 implies #[trigger] unit_step(rp[i], rp[i + 1]) by {
        let j = len - 2 - i;
        assert(unit_step(path[j], path[j + 1]));
        lemma_unit_step_symmetric(path[j], path[j + 1]);
    }
    assert forall|i: int| 0 <= i < rp.len() implies in_bounds(n, #[trigger] rp[i]) && content(
        b,
        rp[i],
    ) == content(b, q) by {
        assert(rp[i] == path[len - 1 - i]);
    }
    assert(is_walk(b, n, content(b, q), rp));
    assert(rp[0] == q);
    assert(rp.last() == p);
}

/// A set that holds `p` and is closed under same-content steps holds the
/// whole component of `p`.
pub proof fn lemma_closed_covers(b: Map<Position, StoneColor>, n: int, p: Position, s: Set<Position>)
    requires
        s.contains(p),
        closed_from(b, n, p, s),
    ensures
        component(b, n, p).subset_of(s),
{
    assert forall|q: Position| component(b, n, p).contains(q) implies s.contains(q) by {
        let path = choose|path: Seq<Position>|
            #[trigger] is_walk(b, n, content(b, p), path) && path[0] == p && path.last() == q;
        lemma_closed_walk(b, n, p, s, path, path.len() - 1);
    }
}

proof fn lemma_closed_walk(
    b: Map<Position, StoneColor>,
    n: int,
    p: Position,
    s: Set<Position>,
    path: Seq<Position>,
    i: int,
)
    requires
        s.contains(p),
        closed_from(b, n, p, s),
        is_walk(b, n, content(b, p), path),
        path[0] == p,
        0 <= i < path.len(),
    ensures
        s.contains(path[i]),
    decreases i,
{
    if i > 0 {
        lemma_closed_walk(b, n, p, s, path, i - 1);
        let j = i - 1;
        assert(unit_step(path[j], path[j + 1]));
        assert(in_bounds(n, path[i]));
    }
}

/// The component of `p` is itself closed under same-content steps.
pub proof fn lemma_component_closed(b: Map<Position, StoneColor>, n: int, p: Position)
    ensures
        closed_from(b, n, p, component(b, n, p)),
{
    assert forall|u: Position, v: Position|
        component(b, n, p).contains(u) && #[trigger] unit_step(u, v) && in_bounds(n, v) && content(
            b,
            v,
        ) == content(b, p) implies #[trigger] component(b, n, p).contains(v) by {
        lemma_joined_extend(b, n, p, u, v);
    }
}

/// Two cells of one component have the same component.
pub proof fn lemma_component_same(b: Map<Position, StoneColor>, n: int, p: Position, q: Position)
    requires
        joined(b, n, p, q),
    ensures
        component(b, n, q) == component(b, n, p),
        content(b, q) == content(b, p),
{
    lemma_joined_facts(b, n, p, q);
    lemma_joined_symmetric(b, n, p, q);
    lemma_component_closed(b, n, p);
    lemma_component_closed(b, n, q);
    assert(closed_from(b, n, q, component(b, n, p)));
    assert(closed_from(b, n, p, component(b, n, q)));
    lemma_closed_covers(b, n, q, component(b, n, p));
    lemma_closed_covers(b, n, p, component(b, n, q));
    assert(component(b, n, q) =~= component(b, n, p));
}

} // verus!
