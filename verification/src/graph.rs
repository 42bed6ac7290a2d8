//! Mathematical model of the adjacency structure.
//!
//! A graph is a sequence of node records, one per node index; each record is
//! a sequence of `(neighbor, weight)` pairs. Walks and their costs give the
//! vocabulary for the solvers' contracts: a returned cost is always the cost
//! of some walk from the start node to the goal node.

use vstd::prelude::*;

verus! {

/// The mathematical content of an adjacency list: each row of `Vec`s
/// replaced by its sequence view.
pub open spec fn graph_view(g: Seq<Vec<(usize, u32)>>) -> Seq<Seq<(usize, u32)>> {
    g.map_values(|row: Vec<(usize, u32)>| row@)
}

/// Every edge target is a valid node index.
pub open spec fn wf_graph(g: Seq<Seq<(usize, u32)>>) -> bool {
    forall|u: int, i: int|
        0 <= u < g.len() && 0 <= i < g[u].len() ==> (#[trigger] g[u][i]).0 < g.len()
}

/// There is an edge from `u` to `v` of weight `w`.
pub open spec fn edge_of(g: Seq<Seq<(usize, u32)>>, u: usize, v: usize, w: u32) -> bool {
    &&& (u as int) < g.len()
    &&& exists|i: int| 0 <= i < g[u as int].len() && g[u as int][i] == (v, w)
}

/// Some edge of the graph points into `v`.
pub open spec fn has_edge_into(g: Seq<Seq<(usize, u32)>>, v: usize) -> bool {
    exists|u: int, i: int|
        0 <= u < g.len() && 0 <= i < g[u].len() && (#[trigger] g[u][i]).0 == v
}

/// The node a walk is at after `j + 1` of its steps; `j == -1` is the
/// start node itself.
pub open spec fn walk_node(s: usize, steps: Seq<(usize, u32)>, j: int) -> usize {
    if j < 0 {
        s
    } else {
        steps[j].0
    }
}

/// `steps` lists, in order, the `(node reached, edge weight)` pairs of a
/// walk that begins at `s`; the walk ends at `t`.
pub open spec fn is_walk(g: Seq<Seq<(usize, u32)>>, s: usize, t: usize, steps: Seq<(usize, u32)>) -> bool {
    &&& forall|j: int|
        0 <= j < steps.len() ==> edge_of(
            g,
            walk_node(s, steps, j - 1),
            (#[trigger] steps[j]).0,
            steps[j].1,
        )
    &&& walk_node(s, steps, steps.len() - 1) == t
}

/// Total edge weight of a walk, as an unbounded integer.
pub open spec fn walk_cost(steps: Seq<(usize, u32)>) -> int
    decreases steps.len(),
{
    if steps.len() == 0 {
        0
    } else {
        walk_cost(steps.drop_last()) + steps.last().1
    }
}

/// Some walk from `s` to `t` costs exactly `c`.
pub open spec fn reachable_with_cost(g: Seq<Seq<(usize, u32)>>, s: usize, t: usize, c: int) -> bool {
    exists|steps: Seq<(usize, u32)>| is_walk(g, s, t, steps) && walk_cost(steps) == c
}

/// The number of adjacency entries among the first `upto` node records.
pub open spec fn edge_entries_upto(g: Seq<Seq<(usize, u32)>>, upto: int) -> int
    decreases upto,
{
    if upto <= 0 {
        0
    } else {
        edge_entries_upto(g, upto - 1) + g[upto - 1].len()
    }
}

/// The total number of adjacency entries of the graph; an undirected edge
/// contributes one entry per endpoint.
pub open spec fn total_edge_entries(g: Seq<Seq<(usize, u32)>>) -> int {
    edge_entries_upto(g, g.len() as int)
}

/// Every walk from `s` to `t` costs at least `c`.
pub open spec fn cost_is_minimal(g: Seq<Seq<(usize, u32)>>, s: usize, t: usize, c: int) -> bool {
    forall|steps: Seq<(usize, u32)>| #[trigger] is_walk(g, s, t, steps) ==> walk_cost(steps) >= c
}

/// What a search from `s` to `t` may report. `Some(c)` is the exact optimum:
/// `c` is the cost of an actual walk and no walk is cheaper. `None` means no
/// walk costs less than `u32::MAX`, the "infinite" sentinel of the distance
/// table; in particular an unreachable `t` is always reported `None`.
pub open spec fn search_outcome_ok(
    g: Seq<Seq<(usize, u32)>>,
    s: usize,
    t: usize,
    r: Option<u32>,
) -> bool {
    match r {
        Some(c) => {
            &&& c < u32::MAX
            &&& reachable_with_cost(g, s, t, c as int)
            &&& cost_is_minimal(g, s, t, c as int)
        },
        None => cost_is_minimal(g, s, t, u32::MAX as int),
    }
}

/// Law: the search outcome is a function of the graph and the endpoints
/// alone. Any two results that both satisfy `search_outcome_ok` for the same
/// graph, start and goal are equal; in particular the standard and the
/// batched search always report the identical cost.
pub proof fn lemma_search_outcomes_agree(
    g: Seq<Seq<(usize, u32)>>,
    s: usize,
    t: usize,
    r1: Option<u32>,
    r2: Option<u32>,
)
    requires
        search_outcome_ok(g, s, t, r1),
        search_outcome_ok(g, s, t, r2),
    ensures
        r1 == r2,
{
    if r1 is Some && r2 is Some {
        let c1 = r1->Some_0;
        let c2 = r2->Some_0;
        let steps1 = choose|steps: Seq<(usize, u32)>|
            is_walk(g, s, t, steps) && walk_cost(steps) == c1 as int;
        let steps2 = choose|steps: Seq<(usize, u32)>|
            is_walk(g, s, t, steps) && walk_cost(steps) == c2 as int;
        assert(walk_cost(steps1) >= c2);
        assert(walk_cost(steps2) >= c1);
    } else if r1 is Some {
        let c1 = r1->Some_0;
        let steps1 = choose|steps: Seq<(usize, u32)>|
            is_walk(g, s, t, steps) && walk_cost(steps) == c1 as int;
        assert(walk_cost(steps1) >= u32::MAX);
    } else if r2 is Some {
        let c2 = r2->Some_0;
        let steps2 = choose|steps: Seq<(usize, u32)>|
            is_walk(g, s, t, steps) && walk_cost(steps) == c2 as int;
        assert(walk_cost(steps2) >= u32::MAX);
    }
}

/// A walk's cost is non-negative: every edge weight is.
pub proof fn lemma_walk_cost_nonneg(steps: Seq<(usize, u32)>)
    ensures
        walk_cost(steps) >= 0,
    decreases steps.len(),
{
    if steps.len() > 0 {
        lemma_walk_cost_nonneg(steps.drop_last());
    }
}

/// Removing a walk's last step leaves a walk to the previous node, and the
/// removed step is an edge from that node to the old endpoint.
pub proof fn lemma_walk_prefix(g: Seq<Seq<(usize, u32)>>, s: usize, t: usize, steps: Seq<(usize, u32)>)
    requires
        is_walk(g, s, t, steps),
        steps.len() > 0,
    ensures
        is_walk(g, s, walk_node(s, steps, steps.len() - 2), steps.drop_last()),
        walk_cost(steps) == walk_cost(steps.drop_last()) + steps.last().1,
        edge_of(g, walk_node(s, steps, steps.len() - 2), t, steps.last().1),
{
    let prefix = steps.drop_last();
    assert forall|j: int| 0 <= j < prefix.len() implies edge_of(
        g,
        walk_node(s, prefix, j - 1),
        (#[trigger] prefix[j]).0,
        prefix[j].1,
    ) by {
        assert(edge_of(g, walk_node(s, steps, j - 1), (steps[j]).0, steps[j].1));
        assert(walk_node(s, prefix, j - 1) == walk_node(s, steps, j - 1));
    }
    assert(edge_of(
        g,
        walk_node(s, steps, steps.len() - 2),
        (steps[steps.len() - 1]).0,
        steps[steps.len() - 1].1,
    ));
}

/// The empty walk stays at its start node and costs nothing.
pub proof fn lemma_reach_self(g: Seq<Seq<(usize, u32)>>, s: usize)
    ensures
        reachable_with_cost(g, s, s, 0),
{
    let steps = Seq::<(usize, u32)>::empty();
    assert(is_walk(g, s, s, steps));
    assert(walk_cost(steps) == 0);
}

/// Appending an edge `(u, v, w)` to a walk ending at `u` yields a walk
/// ending at `v` whose cost grows by exactly `w`.
pub proof fn lemma_walk_extend(
    g: Seq<Seq<(usize, u32)>>,
    s: usize,
    u: usize,
    v: usize,
    w: u32,
    steps: Seq<(usize, u32)>,
)
    requires
        is_walk(g, s, u, steps),
        edge_of(g, u, v, w),
    ensures
        is_walk(g, s, v, steps.push((v, w))),
        walk_cost(steps.push((v, w))) == walk_cost(steps) + w,
{
    let longer = steps.push((v, w));
    assert forall|j: int| 0 <= j < longer.len() implies edge_of(
        g,
        walk_node(s, longer, j - 1),
        (#[trigger] longer[j]).0,
        longer[j].1,
    ) by {
        if j < steps.len() {
            assert(edge_of(g, walk_node(s, steps, j - 1), steps[j].0, steps[j].1));
            assert(walk_node(s, longer, j - 1) == walk_node(s, steps, j - 1));
        } else {
            assert(walk_node(s, longer, j - 1) == u);
        }
    }
    assert(longer.drop_last() =~= steps);
}

/// A node reachable at cost `c` over an edge of weight `w` is reachable at
/// cost `c + w`.
pub proof fn lemma_reach_step(g: Seq<Seq<(usize, u32)>>, s: usize, u: usize, v: usize, w: u32, c: int)
    requires
        reachable_with_cost(g, s, u, c),
        edge_of(g, u, v, w),
    ensures
        reachable_with_cost(g, s, v, c + w),
{
    let steps = choose|steps: Seq<(usize, u32)>| is_walk(g, s, u, steps) && walk_cost(steps) == c;
    lemma_walk_extend(g, s, u, v, w, steps);
}

} // verus!
