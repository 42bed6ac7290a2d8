//! The two search algorithms and the counters they report.

use vstd::prelude::*;
use vstd::multiset::Multiset;

use crate::graph::cost_is_minimal;
use crate::graph::edge_entries_upto;
use crate::graph::edge_of;
use crate::graph::graph_view;
use crate::graph::has_edge_into;
use crate::graph::is_walk;
use crate::graph::lemma_reach_self;
use crate::graph::lemma_reach_step;
use crate::graph::lemma_walk_cost_nonneg;
use crate::graph::lemma_walk_prefix;
use crate::graph::reachable_with_cost;
use crate::graph::total_edge_entries;
use crate::graph::search_outcome_ok;
use crate::graph::walk_cost;
use crate::graph::walk_node;
use crate::graph::wf_graph;
use crate::open_set::OpenSet;

verus! {

broadcast use vstd::multiset::group_multiset_properties;

/// Counters of one solver call: nodes popped and accepted (`expansions`),
/// insertions into the open set (`heap_pushes`), and edge-relaxation
/// attempts whether or not they improved a distance (`nodes_relaxed`).
///
/// Each counter only grows during a call; the two push/relax counters
/// saturate at `usize::MAX` rather than wrap.
#[derive(Debug, Clone)]
pub struct Stats {
    pub expansions: usize,
    pub heap_pushes: usize,
    pub nodes_relaxed: usize,
}

impl Default for Stats {
    fn default() -> (s: Stats)
        ensures
            s.expansions == 0,
            s.heap_pushes == 0,
            s.nodes_relaxed == 0,
    {
        Stats { expansions: 0, heap_pushes: 0, nodes_relaxed: 0 }
    }
}

/// The tentative distance a relaxation proposes: `d + w`, clamped to
/// `u32::MAX` so that near-maximum distances can never wrap around to a
/// spuriously small value. `u32::MAX` doubles as the "infinite" sentinel,
/// and a clamped sum is never an improvement over any stored distance.
pub open spec fn relaxed_distance(d: u32, w: u32) -> u32 {
    if d + w > u32::MAX {
        u32::MAX
    } else {
        (d + w) as u32
    }
}

/// Law: relaxation arithmetic saturates instead of wrapping. The proposed
/// distance is the exact sum whenever that sum is representable, is clamped
/// to the sentinel otherwise, and in particular is never below either
/// operand, so no relaxation can manufacture a smaller-than-true distance.
pub proof fn lemma_relaxation_saturates(d: u32, w: u32)
    ensures
        d + w <= u32::MAX ==> relaxed_distance(d, w) == d + w,
        d + w > u32::MAX ==> relaxed_distance(d, w) == u32::MAX,
        relaxed_distance(d, w) >= d,
        relaxed_distance(d, w) >= w,
        relaxed_distance(d, w) <= d + w,
{
}

/// Relaxation arithmetic: the tentative distance for a neighbor reached
/// from distance `d` over an edge of weight `w`.
fn relax(d: u32, w: u32) -> (t: u32)
    ensures
        t == relaxed_distance(d, w),
{
    d.saturating_add(w)
}

/// The estimated remaining cost from `_node` to the goal. This is the seam
/// where an admissible heuristic would plug into the search skeleton; the
/// zero estimate makes both searches plain Dijkstra, for which every
/// estimate is trivially admissible.
fn zero_estimate(_node: usize) -> (h: u32)
    ensures
        h == 0,
{
    0
}

/// A vector of `n` copies of `x`.
fn filled<T: Copy>(n: usize, x: T) -> (v: Vec<T>)
    ensures
        v@.len() == n,
        forall|i: int| 0 <= i < n ==> v@[i] == x,
{
    let mut v: Vec<T> = Vec::new();
    let mut i: usize = 0;
    while i < n
        invariant
            i <= n,
            v@.len() == i,
            forall|j: int| 0 <= j < i ==> v@[j] == x,
        decreases n - i,
    {
        v.push(x);
        i = i + 1;
    }
    v
}

/// How many entries of `s` are `true`.
pub closed spec fn count_true(s: Seq<bool>) -> int
    decreases s.len(),
{
    if s.len() == 0 {
        0
    } else {
        count_true(s.drop_last()) + if s.last() {
            1int
        } else {
            0int
        }
    }
}

proof fn lemma_count_true_bounds(s: Seq<bool>)
    ensures
        0 <= count_true(s) <= s.len(),
    decreases s.len(),
{
    if s.len() > 0 {
        lemma_count_true_bounds(s.drop_last());
    }
}

proof fn lemma_count_true_all_false(s: Seq<bool>)
    requires
        forall|j: int| 0 <= j < s.len() ==> !(#[trigger] s[j]),
    ensures
        count_true(s) == 0,
    decreases s.len(),
{
    if s.len() > 0 {
        lemma_count_true_all_false(s.drop_last());
    }
}

proof fn lemma_count_true_set(s: Seq<bool>, i: int)
    requires
        0 <= i < s.len(),
        !s[i],
    ensures
        count_true(s.update(i, true)) == count_true(s) + 1,
        count_true(s) <= s.len() - 1,
    decreases s.len(),
{
    lemma_count_true_bounds(s.drop_last());
    let t = s.update(i, true);
    if i == s.len() - 1 {
        assert(t.drop_last() =~= s.drop_last());
    } else {
        lemma_count_true_set(s.drop_last(), i);
        assert(t.drop_last() =~= s.drop_last().update(i, true));
        assert(t.last() == s.last());
    }
}

/// The number of adjacency entries of closed nodes among the first `upto`
/// node records: the relaxation budget the standard search has spent.
spec fn visited_entries_upto(g: Seq<Seq<(usize, u32)>>, vis: Seq<bool>, upto: int) -> int
    decreases upto,
{
    if upto <= 0 {
        0
    } else {
        visited_entries_upto(g, vis, upto - 1) + if vis[upto - 1] {
            g[upto - 1].len() as int
        } else {
            0int
        }
    }
}

spec fn visited_edge_entries(g: Seq<Seq<(usize, u32)>>, vis: Seq<bool>) -> int {
    visited_entries_upto(g, vis, g.len() as int)
}

proof fn lemma_visited_entries_le(g: Seq<Seq<(usize, u32)>>, vis: Seq<bool>, upto: int)
    ensures
        0 <= visited_entries_upto(g, vis, upto) <= edge_entries_upto(g, upto),
    decreases upto,
{
    if upto > 0 {
        lemma_visited_entries_le(g, vis, upto - 1);
    }
}

proof fn lemma_visited_entries_zero(g: Seq<Seq<(usize, u32)>>, vis: Seq<bool>, upto: int)
    requires
        upto <= vis.len(),
        forall|j: int| 0 <= j < vis.len() ==> !(#[trigger] vis[j]),
    ensures
        visited_entries_upto(g, vis, upto) == 0,
    decreases upto,
{
    if upto > 0 {
        lemma_visited_entries_zero(g, vis, upto - 1);
    }
}

proof fn lemma_visited_entries_set(g: Seq<Seq<(usize, u32)>>, vis: Seq<bool>, u: int, upto: int)
    requires
        upto <= vis.len(),
        0 <= u < vis.len(),
        !vis[u],
    ensures
        visited_entries_upto(g, vis.update(u, true), upto) == visited_entries_upto(g, vis, upto)
            + if u < upto {
            g[u].len() as int
        } else {
            0int
        },
    decreases upto,
{
    if upto > 0 {
        lemma_visited_entries_set(g, vis, u, upto - 1);
        if u == upto - 1 {
            assert(vis.update(u, true)[upto - 1]);
        } else {
            assert(vis.update(u, true)[upto - 1] == vis[upto - 1]);
        }
    }
}

/// An open-set entry is sound: its node index is valid, the stored distance
/// table is at least as good as the entry's key, the key is below the
/// "infinite" sentinel, and the node is the start node or has an edge into
/// it (the only ways a node ever gets pushed).
spec fn entry_ok(g: Seq<Seq<(usize, u32)>>, gs: Seq<u32>, start: usize, e: (u32, usize)) -> bool {
    &&& (e.1 as int) < g.len()
    &&& gs[e.1 as int] <= e.0
    &&& e.0 < u32::MAX
    &&& (e.1 == start || has_edge_into(g, e.1))
}

spec fn open_ok(
    g: Seq<Seq<(usize, u32)>>,
    gs: Seq<u32>,
    start: usize,
    m: Multiset<(u32, usize)>,
) -> bool {
    forall|e: (u32, usize)| #[trigger] m.count(e) > 0 ==> entry_ok(g, gs, start, e)
}

/// A node held in a wave buffer (frontier or pivot accumulator) is sound:
/// valid index, finite stored distance, and pushable into the open set.
spec fn node_ok(g: Seq<Seq<(usize, u32)>>, gs: Seq<u32>, start: usize, v: usize) -> bool {
    &&& (v as int) < g.len()
    &&& gs[v as int] < u32::MAX
    &&& (v == start || has_edge_into(g, v))
}

spec fn nodes_ok(g: Seq<Seq<(usize, u32)>>, gs: Seq<u32>, start: usize, ns: Seq<usize>) -> bool {
    forall|j: int| 0 <= j < ns.len() ==> node_ok(g, gs, start, #[trigger] ns[j])
}

/// The first `upto` edges out of `x` are relaxed: each target's stored
/// distance is no worse than `x`'s stored distance plus the edge weight.
spec fn relaxed_upto(g: Seq<Seq<(usize, u32)>>, gs: Seq<u32>, x: usize, upto: int) -> bool {
    forall|i: int|
        0 <= i < upto ==> gs[(#[trigger] g[x as int][i]).0 as int] <= gs[x as int] + g[x as int][i].1
}

/// All edges out of `x` are relaxed at `x`'s current stored distance.
spec fn relaxed_at(g: Seq<Seq<(usize, u32)>>, gs: Seq<u32>, x: usize) -> bool {
    relaxed_upto(g, gs, x, g[x as int].len() as int)
}

/// `x` occurs in `ns` at position `lo` or later.
spec fn pending_from(ns: Seq<usize>, lo: int, x: usize) -> bool {
    exists|j: int| lo <= j < ns.len() && ns[j] == x
}

/// Appending to a buffer keeps every pending occurrence and adds the new
/// element.
proof fn lemma_pending_push(ns: Seq<usize>, x: usize)
    ensures
        forall|y: usize, lo: int| 0 <= lo && #[trigger] pending_from(ns, lo, y) ==> pending_from(
            ns.push(x),
            lo,
            y,
        ),
        forall|y: usize| #[trigger] ns.contains(y) ==> ns.push(x).contains(y),
        pending_from(ns.push(x), 0, x),
        ns.push(x).contains(x),
{
    assert(ns.push(x)[ns.len() as int] == x);
    assert forall|y: usize, lo: int| 0 <= lo && pending_from(ns, lo, y) implies pending_from(
        ns.push(x),
        lo,
        y,
    ) by {
        assert(exists|j: int| lo <= j < ns.len() && ns[j] == y);
        let j = choose|j: int| lo <= j < ns.len() && ns[j] == y;
        assert(lo <= j < ns.len() && ns[j] == y);
        assert(ns.push(x)[j] == y);
    }
    assert forall|y: usize| ns.contains(y) implies ns.push(x).contains(y) by {
        assert(exists|j: int| 0 <= j < ns.len() && ns[j] == y);
        let j = choose|j: int| 0 <= j < ns.len() && ns[j] == y;
        assert(0 <= j < ns.len() && ns[j] == y);
        assert(ns.push(x)[j] == y);
    }
}

/// The frontier bookkeeping is adequate: every node with a finite stored
/// distance either has an open-set entry at exactly that distance, or has
/// all its edges relaxed already. This is the fact the optimality argument
/// at each pop rests on.
spec fn frontier_adequate(g: Seq<Seq<(usize, u32)>>, gs: Seq<u32>, m: Multiset<(u32, usize)>) -> bool {
    forall|x: int|
        0 <= x < g.len() && (#[trigger] gs[x]) < u32::MAX ==> m.count((gs[x], x as usize)) > 0
            || relaxed_at(g, gs, x as usize)
}

/// Mid-wave version of `frontier_adequate`: a node may instead be pending in
/// the tail of the current frontier (`p1` from `lo1`), in the next frontier
/// (`p2`) or in the pivot accumulator (`p3`), all of which are relaxed or
/// pushed before the wave's bookkeeping is next relied on.
spec fn adequate_except(
    g: Seq<Seq<(usize, u32)>>,
    gs: Seq<u32>,
    m: Multiset<(u32, usize)>,
    p1: Seq<usize>,
    lo1: int,
    p2: Seq<usize>,
    p3: Seq<usize>,
) -> bool {
    forall|x: int|
        0 <= x < g.len() && (#[trigger] gs[x]) < u32::MAX ==> m.count((gs[x], x as usize)) > 0
            || relaxed_at(g, gs, x as usize)
            || pending_from(p1, lo1, x as usize)
            || pending_from(p2, 0, x as usize)
            || pending_from(p3, 0, x as usize)
}

/// The standard search keeps a sharper form: a node not yet closed always
/// has an open-set entry at its current distance (every improvement pushes
/// at once), and a closed node is fully relaxed; `pend` exempts the node
/// whose relaxation loop is still running (`-1`: no exemption).
spec fn adequate_std(
    g: Seq<Seq<(usize, u32)>>,
    vis: Seq<bool>,
    gs: Seq<u32>,
    m: Multiset<(u32, usize)>,
    pend: int,
) -> bool {
    forall|x: int|
        0 <= x < g.len() && (#[trigger] gs[x]) < u32::MAX ==> m.count((gs[x], x as usize)) > 0
            || (vis[x] && relaxed_at(g, gs, x as usize))
            || x == pend
}

/// Every closed node (except `skip`, still mid-relaxation; `-1`: none) has
/// a finite stored distance that no walk from the start node undercuts, and
/// its edges fully relaxed.
spec fn closed_ok(
    g: Seq<Seq<(usize, u32)>>,
    start: usize,
    vis: Seq<bool>,
    gs: Seq<u32>,
    skip: int,
) -> bool {
    forall|v: int|
        0 <= v < g.len() && vis[v] && v != skip ==> (#[trigger] gs[v]) < u32::MAX
            && relaxed_at(g, gs, v as usize)
            && cost_is_minimal(g, start, v as usize, gs[v] as int)
}

/// The goal always keeps an open-set entry at its current finite distance
/// (or is about to get one from the pivots from `lo` on): goal capture
/// never leaves it covered only by relaxation.
spec fn goal_covered(
    gs: Seq<u32>,
    m: Multiset<(u32, usize)>,
    goal: usize,
    piv: Seq<usize>,
    lo: int,
) -> bool {
    gs[goal as int] < u32::MAX ==> m.count((gs[goal as int], goal)) > 0
        || pending_from(piv, lo, goal)
}

/// If the open set is adequate, then along any walk cheaper than the
/// sentinel either some open entry's key undercuts the walk's cost, or the
/// walk's endpoint already stores a distance no worse than that cost.
proof fn lemma_open_adequate(
    g: Seq<Seq<(usize, u32)>>,
    start: usize,
    gs: Seq<u32>,
    m: Multiset<(u32, usize)>,
    t: usize,
    steps: Seq<(usize, u32)>,
)
    requires
        wf_graph(g),
        gs.len() == g.len(),
        (start as int) < g.len(),
        gs[start as int] == 0,
        is_walk(g, start, t, steps),
        walk_cost(steps) < u32::MAX,
        frontier_adequate(g, gs, m),
    ensures
        (exists|e: (u32, usize)| m.count(e) > 0 && e.0 <= walk_cost(steps)) || gs[t as int]
            <= walk_cost(steps),
    decreases steps.len(),
{
    lemma_walk_cost_nonneg(steps);
    if steps.len() == 0 {
        assert(t == start);
    } else {
        let prefix = steps.drop_last();
        let p = walk_node(start, steps, steps.len() - 2);
        let w = steps.last().1;
        lemma_walk_prefix(g, start, t, steps);
        lemma_open_adequate(g, start, gs, m, p, prefix);
        if exists|e: (u32, usize)| m.count(e) > 0 && e.0 <= walk_cost(prefix) {
            let e = choose|e: (u32, usize)| m.count(e) > 0 && e.0 <= walk_cost(prefix);
            assert(e.0 <= walk_cost(steps));
        } else {
            assert(gs[p as int] <= walk_cost(prefix));
            assert((p as int) < g.len());
            assert(gs[p as int] < u32::MAX);
            if m.count((gs[p as int], p)) > 0 {
                assert((gs[p as int], p).0 <= walk_cost(steps));
            } else {
                assert(relaxed_at(g, gs, p));
                let i = choose|i: int| 0 <= i < g[p as int].len() && g[p as int][i] == (t, w);
                assert(gs[(g[p as int][i]).0 as int] <= gs[p as int] + g[p as int][i].1);
                assert(gs[t as int] <= walk_cost(steps));
            }
        }
    }
}

/// The distance table is sound: the start node's distance is 0, and every
/// finite entry is the cost of an actual walk from the start node.
spec fn scores_ok(g: Seq<Seq<(usize, u32)>>, start: usize, gs: Seq<u32>) -> bool {
    &&& gs.len() == g.len()
    &&& gs[start as int] == 0
    &&& forall|v: int|
        0 <= v < gs.len() && (#[trigger] gs[v]) < u32::MAX ==> reachable_with_cost(
            g,
            start,
            v as usize,
            gs[v] as int,
        )
}

/// A search instance: borrows nothing, owns a read-only adjacency list.
/// `self@` is the graph as a sequence of rows of `(neighbor, weight)` pairs.
pub struct Solver {
    graph: Vec<Vec<(usize, u32)>>,
}

impl View for Solver {
    type V = Seq<Seq<(usize, u32)>>;

    closed spec fn view(&self) -> Seq<Seq<(usize, u32)>> {
        graph_view(self.graph@)
    }
}

impl Solver {
    /// The graph's edge targets are all valid node indices.
    pub open spec fn wf(&self) -> bool {
        wf_graph(self@)
    }

    pub fn new(graph: Vec<Vec<(usize, u32)>>) -> (s: Self)
        requires
            wf_graph(graph_view(graph@)),
        ensures
            s@ == graph_view(graph@),
            s.wf(),
    {
        Solver { graph }
    }

    /// Classic lazy-deletion Dijkstra (A* with the zero estimate): returns
    /// the cost of a shortest path from `start` to `goal`, or `None` when
    /// the open set empties without reaching `goal`, together with the
    /// run's counters.
    #[verifier::loop_isolation(false)]
    pub fn solve_std(&self, start: usize, goal: usize) -> (r: (Option<u32>, Stats))
        requires
            self.wf(),
            start < self@.len(),
            goal < self@.len(),
        ensures
            r.1.heap_pushes >= r.1.expansions,
            1 <= r.1.expansions <= self@.len(),
            r.1.nodes_relaxed <= total_edge_entries(self@),
            r.1.heap_pushes <= 1 + r.1.nodes_relaxed,
            search_outcome_ok(self@, start, goal, r.0),
            start == goal ==> r.0 == Some(0u32) && r.1.expansions == 1 && r.1.heap_pushes == 1
                && r.1.nodes_relaxed == 0,
            start != goal && !has_edge_into(self@, goal) ==> r.0 is None,
    {
        let n = self.graph.len();
        let mut stats = Stats::default();
        let mut open = OpenSet::new();
        let mut g_score: Vec<u32> = filled(n, u32::MAX);
        let mut visited: Vec<bool> = filled(n, false);

        g_score.set(start, 0);
        open.push(zero_estimate(start), start);
        stats.heap_pushes = stats.heap_pushes.saturating_add(1);

        proof {
            lemma_reach_self(self@, start);
            lemma_count_true_all_false(visited@);
            lemma_visited_entries_zero(self@, visited@, self@.len() as int);
        }

        while open.len() > 0
            invariant
                g_score@.len() == n,
                visited@.len() == n,
                scores_ok(self@, start, g_score@),
                open_ok(self@, g_score@, start, open@),
                adequate_std(self@, visited@, g_score@, open@, -1),
                closed_ok(self@, start, visited@, g_score@, -1),
                !visited@[goal as int],
                goal_covered(g_score@, open@, goal, Seq::<usize>::empty(), 0),
                stats.expansions == count_true(visited@),
                stats.expansions <= n,
                stats.nodes_relaxed <= visited_edge_entries(self@, visited@),
                stats.heap_pushes <= 1 + stats.nodes_relaxed,
                stats.heap_pushes >= stats.expansions + open@.len() || stats.heap_pushes
                    == usize::MAX,
                stats.expansions == 0 ==> open@ =~= Multiset::<(u32, usize)>::empty().insert(
                    (0u32, start),
                ),
                stats.expansions == 0 ==> forall|v: int| 0 <= v < n ==> !(#[trigger] visited@[v]),
                start == goal ==> stats.expansions == 0,
                start == goal ==> stats.heap_pushes == 1 && stats.nodes_relaxed == 0,
            decreases n - stats.expansions, open@.len(),
        {
            let ghost open0 = open@;
            let (cur_f, cur_u) = open.pop_min();
            proof {
                assert(entry_ok(self@, g_score@, start, (cur_f, cur_u)));
                if stats.expansions == 0 {
                    assert((cur_f, cur_u) == (0u32, start));
                }
            }
            if !visited[cur_u] {
                proof {
                    // The popped entry is never stale here: an unclosed node
                    // always has an open entry at its current distance, and
                    // the pop took a minimal key.
                    assert(g_score@[cur_u as int] == cur_f);
                    assert(frontier_adequate(self@, g_score@, open0)) by {
                        assert forall|x: int|
                            0 <= x < self@.len() && (#[trigger] g_score@[x])
                                < u32::MAX implies open0.count((g_score@[x], x as usize)) > 0
                            || relaxed_at(self@, g_score@, x as usize) by {}
                    }
                    // No walk undercuts the popped distance: along a cheaper
                    // walk, some open entry's key would undercut the minimal
                    // popped key.
                    assert forall|steps: Seq<(usize, u32)>|
                        is_walk(self@, start, cur_u, steps) implies walk_cost(steps)
                        >= g_score@[cur_u as int] by {
                        if walk_cost(steps) < g_score@[cur_u as int] {
                            lemma_open_adequate(self@, start, g_score@, open0, cur_u, steps);
                        }
                    }
                    assert(cost_is_minimal(self@, start, cur_u, g_score@[cur_u as int] as int));
                    lemma_count_true_set(visited@, cur_u as int);
                    lemma_visited_entries_set(self@, visited@, cur_u as int, self@.len() as int);
                }
                visited.set(cur_u, true);
                stats.expansions = stats.expansions + 1;

                if cur_u == goal {
                    proof {
                        assert(g_score@[goal as int] < u32::MAX);
                        assert(reachable_with_cost(
                            self@,
                            start,
                            goal,
                            g_score@[goal as int] as int,
                        ));
                        lemma_visited_entries_le(self@, visited@, self@.len() as int);
                    }
                    return (Some(g_score[cur_u]), stats);
                }
                // An entry worse than the node's current best is stale: the
                // node stays closed, but relaxation for this pop is skipped.
                // (With a minimal-key pop this never fires — proved above —
                // but the guard is part of the lazy-deletion discipline.)
                if cur_f <= g_score[cur_u] {
                    let mut ei: usize = 0;
                    while ei < self.graph[cur_u].len()
                        invariant
                            ei <= self@[cur_u as int].len(),
                            g_score@.len() == n,
                            scores_ok(self@, start, g_score@),
                            open_ok(self@, g_score@, start, open@),
                            adequate_std(self@, visited@, g_score@, open@, cur_u as int),
                            closed_ok(self@, start, visited@, g_score@, cur_u as int),
                            relaxed_upto(self@, g_score@, cur_u, ei as int),
                            g_score@[cur_u as int] == cur_f,
                            cost_is_minimal(self@, start, cur_u, cur_f as int),
                            goal_covered(g_score@, open@, goal, Seq::<usize>::empty(), 0),
                            visited@[cur_u as int],
                            stats.expansions == count_true(visited@),
                            stats.expansions <= n,
                            stats.nodes_relaxed + (self@[cur_u as int].len() - ei)
                                <= visited_edge_entries(self@, visited@),
                            stats.heap_pushes <= 1 + stats.nodes_relaxed,
                            stats.heap_pushes >= stats.expansions + open@.len()
                                || stats.heap_pushes == usize::MAX,
                            stats.expansions >= 1,
                        decreases self@[cur_u as int].len() - ei,
                    {
                        let (v, w) = self.graph[cur_u][ei];
                        stats.nodes_relaxed = stats.nodes_relaxed.saturating_add(1);
                        let tentative = relax(g_score[cur_u], w);
                        if tentative < g_score[v] {
                            proof {
                                assert(self@[cur_u as int][ei as int] == (v, w));
                                assert(edge_of(self@, cur_u, v, w));
                                assert(g_score@[cur_u as int] < u32::MAX);
                                lemma_reach_step(
                                    self@,
                                    start,
                                    cur_u,
                                    v,
                                    w,
                                    g_score@[cur_u as int] as int,
                                );
                                // A closed node's distance is already
                                // minimal, so the improvement target is open.
                                if visited@[v as int] {
                                    let steps = choose|steps: Seq<(usize, u32)>|
                                        is_walk(self@, start, v, steps) && walk_cost(steps)
                                            == g_score@[cur_u as int] + w;
                                    assert(walk_cost(steps) >= g_score@[v as int]);
                                }
                            }
                            g_score.set(v, tentative);
                            let f = tentative + zero_estimate(v);
                            open.push(f, v);
                            stats.heap_pushes = stats.heap_pushes.saturating_add(1);
                        }
                        ei = ei + 1;
                    }
                }
                proof {
                    assert(relaxed_at(self@, g_score@, cur_u));
                    assert(adequate_std(self@, visited@, g_score@, open@, -1))
                        by {
                        assert forall|x: int|
                            0 <= x < self@.len() && (#[trigger] g_score@[x])
                                < u32::MAX implies open@.count((g_score@[x], x as usize)) > 0 || (
                            visited@[x] && relaxed_at(self@, g_score@, x as usize)) by {

                        }
                    }
                    assert(closed_ok(self@, start, visited@, g_score@, -1));
                }
            }
        }
        proof {
            assert forall|steps: Seq<(usize, u32)>|
                is_walk(self@, start, goal, steps) implies walk_cost(steps) >= u32::MAX as int by {
                if walk_cost(steps) < u32::MAX {
                    assert(frontier_adequate(self@, g_score@, open@)) by {
                        assert forall|x: int|
                            0 <= x < self@.len() && (#[trigger] g_score@[x])
                                < u32::MAX implies open@.count((g_score@[x], x as usize)) > 0
                            || relaxed_at(self@, g_score@, x as usize) by {}
                    }
                    lemma_open_adequate(self@, start, g_score@, open@, goal, steps);
                }
            }
            lemma_visited_entries_le(self@, visited@, self@.len() as int);
        }
        (None, stats)
    }


    /// One batching wave from the just-closed node `cur_u`: up to `k`
    /// rounds of breadth-first relaxation, accumulating in `next_pivots`
    /// the nodes the caller then pushes onto the open set. The open set
    /// itself is untouched; `open_now` is its current contents, which the
    /// bookkeeping invariants speak about.
    #[verifier::loop_isolation(false)]
    #[verifier::rlimit(100)]
    fn wave(
        &self,
        start: usize,
        goal: usize,
        k: usize,
        cur_u: usize,
        g_score: &mut Vec<u32>,
        visited: &Vec<bool>,
        frontier: &mut Vec<usize>,
        next_frontier: &mut Vec<usize>,
        next_pivots: &mut Vec<usize>,
        stats: &mut Stats,
        open_now: Ghost<Multiset<(u32, usize)>>,
    )
        requires
            self.wf(),
            start < self@.len(),
            goal < self@.len(),
            k >= 1,
            (cur_u as int) < self@.len(),
            cur_u != goal,
            old(g_score)@.len() == self@.len(),
            visited@.len() == self@.len(),
            scores_ok(self@, start, old(g_score)@),
            open_ok(self@, old(g_score)@, start, open_now@),
            closed_ok(self@, start, visited@, old(g_score)@, cur_u as int),
            visited@[cur_u as int],
            old(g_score)@[cur_u as int] < u32::MAX,
            cost_is_minimal(self@, start, cur_u, old(g_score)@[cur_u as int] as int),
            adequate_except(
                self@,
                old(g_score)@,
                open_now@,
                seq![cur_u],
                0,
                Seq::<usize>::empty(),
                Seq::<usize>::empty(),
            ),
            goal_covered(old(g_score)@, open_now@, goal, Seq::<usize>::empty(), 0),
        ensures
            final(g_score)@.len() == self@.len(),
            scores_ok(self@, start, final(g_score)@),
            open_ok(self@, final(g_score)@, start, open_now@),
            nodes_ok(self@, final(g_score)@, start, final(next_pivots)@),
            closed_ok(self@, start, visited@, final(g_score)@, -1),
            adequate_except(
                self@,
                final(g_score)@,
                open_now@,
                final(next_pivots)@,
                0,
                Seq::<usize>::empty(),
                Seq::<usize>::empty(),
            ),
            goal_covered(final(g_score)@, open_now@, goal, final(next_pivots)@, 0),
            final(stats).expansions == old(stats).expansions,
            final(stats).heap_pushes == old(stats).heap_pushes,
            final(stats).nodes_relaxed >= old(stats).nodes_relaxed,
            final(next_pivots)@.len() <= 1 + 2 * (final(stats).nodes_relaxed - old(
                stats,
            ).nodes_relaxed) || final(stats).nodes_relaxed == usize::MAX,
    {
                // Local wave: up to k rounds of breadth-first relaxation
                // from the just-closed node.
                frontier.clear();
                frontier.push(cur_u);
                next_pivots.clear();

                proof {
                    assert(frontier@ == seq![cur_u]);
                    assert(frontier@[0] == cur_u);
                    assert(pending_from(frontier@, 0, cur_u));
                }

                let mut step: usize = 0;
                while step < k
                    invariant
                        step <= k,
                        g_score@.len() == self@.len(),
                        scores_ok(self@, start, g_score@),
                        open_ok(self@, g_score@, start, open_now@),
                        nodes_ok(self@, g_score@, start, frontier@),
                        nodes_ok(self@, g_score@, start, next_pivots@),
                        closed_ok(self@, start, visited@, g_score@, cur_u as int),
                        g_score@[cur_u as int] < u32::MAX,
                        cost_is_minimal(self@, start, cur_u, g_score@[cur_u as int] as int),
                        adequate_except(
                            self@,
                            g_score@,
                            open_now@,
                            frontier@,
                            0,
                            Seq::<usize>::empty(),
                            next_pivots@,
                        ),
                        goal_covered(g_score@, open_now@, goal, next_pivots@, 0),
                        step == 0 ==> frontier@ == seq![cur_u],
                        step >= 1 ==> relaxed_at(self@, g_score@, cur_u),
                        step >= k ==> forall|j: int|
                            0 <= j < frontier@.len() ==> next_pivots@.contains(
                                #[trigger] frontier@[j],
                            ),
                        stats.expansions == old(stats).expansions,
                        stats.heap_pushes == old(stats).heap_pushes,
                        stats.nodes_relaxed >= old(stats).nodes_relaxed,
                        step < k ==> (next_pivots@.len() + frontier@.len() <= 1 + 2 * (
                        stats.nodes_relaxed - old(stats).nodes_relaxed) || stats.nodes_relaxed
                            == usize::MAX),
                        step >= k ==> (next_pivots@.len() <= 1 + 2 * (stats.nodes_relaxed - old(
                        stats,
                        ).nodes_relaxed) || stats.nodes_relaxed == usize::MAX),
                    decreases k - step,
                {
                    next_frontier.clear();

                    let mut fi: usize = 0;
                    while fi < frontier.len()
                        invariant
                            fi <= frontier@.len(),
                            g_score@.len() == self@.len(),
                            scores_ok(self@, start, g_score@),
                            open_ok(self@, g_score@, start, open_now@),
                            nodes_ok(self@, g_score@, start, frontier@),
                            nodes_ok(self@, g_score@, start, next_frontier@),
                            nodes_ok(self@, g_score@, start, next_pivots@),
                            closed_ok(self@, start, visited@, g_score@, cur_u as int),
                            g_score@[cur_u as int] < u32::MAX,
                            cost_is_minimal(self@, start, cur_u, g_score@[cur_u as int] as int),
                            adequate_except(
                                self@,
                                g_score@,
                                open_now@,
                                frontier@,
                                fi as int,
                                next_frontier@,
                                next_pivots@,
                            ),
                            goal_covered(g_score@, open_now@, goal, next_pivots@, 0),
                            step == 0 && fi >= 1 ==> relaxed_at(self@, g_score@, cur_u),
                            step >= 1 ==> relaxed_at(self@, g_score@, cur_u),
                            stats.expansions == old(stats).expansions,
                            stats.heap_pushes == old(stats).heap_pushes,
                            stats.nodes_relaxed >= old(stats).nodes_relaxed,
                            next_pivots@.len() + next_frontier@.len() + frontier@.len() <= 1 + 2
                                * (stats.nodes_relaxed - old(stats).nodes_relaxed)
                                || stats.nodes_relaxed == usize::MAX,
                        decreases frontier@.len() - fi,
                    {
                        let u = frontier[fi];
                        let mut ei: usize = 0;
                        while ei < self.graph[u].len()
                            invariant
                                ei <= self@[u as int].len(),
                                g_score@.len() == self@.len(),
                                scores_ok(self@, start, g_score@),
                                open_ok(self@, g_score@, start, open_now@),
                                nodes_ok(self@, g_score@, start, frontier@),
                                nodes_ok(self@, g_score@, start, next_frontier@),
                                nodes_ok(self@, g_score@, start, next_pivots@),
                                closed_ok(self@, start, visited@, g_score@, cur_u as int),
                                g_score@[cur_u as int] < u32::MAX,
                                cost_is_minimal(self@, start, cur_u, g_score@[cur_u as int] as int),
                                adequate_except(
                                    self@,
                                    g_score@,
                                    open_now@,
                                    frontier@,
                                    fi as int,
                                    next_frontier@,
                                    next_pivots@,
                                ),
                                goal_covered(g_score@, open_now@, goal, next_pivots@, 0),
                                relaxed_upto(self@, g_score@, u, ei as int),
                                step == 0 && fi >= 1 ==> relaxed_at(self@, g_score@, cur_u),
                                step >= 1 ==> relaxed_at(self@, g_score@, cur_u),
                                stats.expansions == old(stats).expansions,
                                stats.heap_pushes == old(stats).heap_pushes,
                                stats.nodes_relaxed >= old(stats).nodes_relaxed,
                                next_pivots@.len() + next_frontier@.len() + frontier@.len() <= 1
                                    + 2 * (stats.nodes_relaxed - old(stats).nodes_relaxed)
                                    || stats.nodes_relaxed == usize::MAX,
                            decreases self@[u as int].len() - ei,
                        {
                            let (v, w) = self.graph[u][ei];
                            stats.nodes_relaxed = stats.nodes_relaxed.saturating_add(1);
                            let tentative = relax(g_score[u], w);
                            if tentative < g_score[v] {
                                proof {
                                    assert(self@[u as int][ei as int] == (v, w));
                                    assert(edge_of(self@, u, v, w));
                                    assert(g_score@[u as int] < u32::MAX);
                                    lemma_reach_step(
                                        self@,
                                        start,
                                        u,
                                        v,
                                        w,
                                        g_score@[u as int] as int,
                                    );
                                    // A closed node's distance is already
                                    // minimal, so the improved node is open.
                                    if visited@[v as int] {
                                        let steps = choose|steps: Seq<(usize, u32)>|
                                            is_walk(self@, start, v, steps) && walk_cost(steps)
                                                == g_score@[u as int] + w;
                                        assert(walk_cost(steps) >= g_score@[v as int]);
                                    }
                                }
                                let ghost gs0 = g_score@;
                                g_score.set(v, tentative);
                                let ghost nf0 = next_frontier@;
                                next_frontier.push(v);
                                proof {
                                    lemma_pending_push(nf0, v);
                                }
                                // Goal capture: never leave the goal stranded
                                // inside an unflushed frontier.
                                if v == goal {
                                    let ghost piv0 = next_pivots@;
                                    next_pivots.push(v);
                                    proof {
                                        lemma_pending_push(piv0, v);
                                    }
                                }
                                proof {
                                    assert(!visited@[v as int]);
                                    assert forall|v2: int|
                                        0 <= v2 < self@.len() && visited@[v2] && v2 != cur_u as int
                                            implies (#[trigger] g_score@[v2]) < u32::MAX
                                        && relaxed_at(self@, g_score@, v2 as usize)
                                        && cost_is_minimal(
                                        self@,
                                        start,
                                        v2 as usize,
                                        g_score@[v2] as int,
                                    ) by {
                                        let xu = v2 as usize;
                                        assert(g_score@.len() <= usize::MAX) by {
                                            assert(g_score.len() == g_score@.len());
                                        }
                                        assert(xu as int == v2);
                                        assert(v2 != v as int);
                                        assert(gs0[v2] < u32::MAX);
                                        assert(relaxed_at(self@, gs0, xu));
                                        assert(g_score@[v2] == gs0[v2]);
                                        assert(relaxed_at(self@, g_score@, xu)) by {
                                            assert forall|i: int|
                                                0 <= i < self@[xu as int].len() implies g_score@[(
                                            #[trigger] self@[xu as int][i]).0 as int] <= g_score@[xu as int]
                                                + self@[xu as int][i].1 by {
                                                let tgt = (self@[xu as int][i]).0;
                                                assert(gs0[tgt as int] <= gs0[xu as int]
                                                    + self@[xu as int][i].1);
                                                assert(g_score@ == gs0.update(v as int, tentative));
                                                if tgt as int == v as int {
                                                    assert(g_score@[tgt as int] == tentative);
                                                    assert(tentative < gs0[v as int]);
                                                } else {
                                                    assert(g_score@[tgt as int] == gs0[tgt as int]);
                                                }
                                                assert(g_score@[xu as int] == gs0[xu as int]);
                                            }
                                        }
                                    }
                                    assert(closed_ok(
                                        self@,
                                        start,
                                        visited@,
                                        g_score@,
                                        cur_u as int,
                                    ));
                                }
                            }
                            ei = ei + 1;
                        }
                        proof {
                            assert(relaxed_at(self@, g_score@, u));
                        }
                        fi = fi + 1;
                    }

                    if next_frontier.len() == 0 {
                        // Local dead end: flush the whole frontier and end
                        // the wave.
                        let mut j: usize = 0;
                        while j < frontier.len()
                            invariant
                                j <= frontier@.len(),
                                nodes_ok(self@, g_score@, start, frontier@),
                                nodes_ok(self@, g_score@, start, next_pivots@),
                                adequate_except(
                                    self@,
                                    g_score@,
                                    open_now@,
                                    frontier@,
                                    frontier@.len() as int,
                                    next_frontier@,
                                    next_pivots@,
                                ),
                                goal_covered(g_score@, open_now@, goal, next_pivots@, 0),
                                forall|j2: int|
                                    0 <= j2 < j ==> next_pivots@.contains(#[trigger] frontier@[j2]),
                                next_pivots@.len() + (frontier@.len() - j) <= 1 + 2 * (
                                stats.nodes_relaxed - old(stats).nodes_relaxed)
                                    || stats.nodes_relaxed == usize::MAX,
                            decreases frontier@.len() - j,
                        {
                            let ghost piv0 = next_pivots@;
                            next_pivots.push(frontier[j]);
                            proof {
                                lemma_pending_push(piv0, frontier@[j as int]);
                            }
                            j = j + 1;
                        }
                        step = k;
                    } else {
                        core::mem::swap(frontier, next_frontier);

                        if step == k - 1 {
                            // Final round: flush the surviving frontier.
                            let mut j: usize = 0;
                            while j < frontier.len()
                                invariant
                                    j <= frontier@.len(),
                                    nodes_ok(self@, g_score@, start, frontier@),
                                    nodes_ok(self@, g_score@, start, next_pivots@),
                                    adequate_except(
                                        self@,
                                        g_score@,
                                        open_now@,
                                        frontier@,
                                        0,
                                        Seq::<usize>::empty(),
                                        next_pivots@,
                                    ),
                                    goal_covered(g_score@, open_now@, goal, next_pivots@, 0),
                                    forall|j2: int|
                                        0 <= j2 < j ==> next_pivots@.contains(
                                            #[trigger] frontier@[j2],
                                        ),
                                    next_pivots@.len() + (frontier@.len() - j) <= 1 + 2 * (
                                    stats.nodes_relaxed - old(stats).nodes_relaxed)
                                        || stats.nodes_relaxed == usize::MAX,
                                decreases frontier@.len() - j,
                            {
                                let ghost piv0 = next_pivots@;
                                next_pivots.push(frontier[j]);
                                proof {
                                    lemma_pending_push(piv0, frontier@[j as int]);
                                }
                                j = j + 1;
                            }
                        }
                        step = step + 1;
                    }
                }

                proof {
                    assert(relaxed_at(self@, g_score@, cur_u));
                    assert(closed_ok(self@, start, visited@, g_score@, -1));
                    // Whatever the wave left pending in the frontier has
                    // been flushed into the pivots.
                    assert(adequate_except(
                        self@,
                        g_score@,
                        open_now@,
                        next_pivots@,
                        0,
                        Seq::<usize>::empty(),
                        Seq::<usize>::empty(),
                    )) by {
                        assert forall|x: int|
                            0 <= x < self@.len() && (#[trigger] g_score@[x])
                                < u32::MAX implies open_now@.count((g_score@[x], x as usize)) > 0
                            || relaxed_at(self@, g_score@, x as usize)
                            || pending_from(next_pivots@, 0, x as usize) by {
                            if pending_from(frontier@, 0, x as usize) {
                                let j = choose|j: int|
                                    0 <= j < frontier@.len() && frontier@[j] == x as usize;
                                assert(next_pivots@.contains(frontier@[j]));
                                let j2 = choose|j2: int|
                                    0 <= j2 < next_pivots@.len() && next_pivots@[j2] == x as usize;
                                assert(pending_from(next_pivots@, 0, x as usize));
                            }
                        }
                    }
                }

    }

    /// Batched-frontier search: per pop, up to `k` rounds of breadth-first
    /// relaxation run from the just-closed node, and only the surviving
    /// frontier ("pivots") re-enters the open set. Returns the same optimal
    /// cost as the standard search, with (typically) fewer heap pushes.
    #[verifier::loop_isolation(false)]
    #[verifier::rlimit(100)]
    pub fn solve_batch(&self, start: usize, goal: usize, k: usize) -> (r: (Option<u32>, Stats))
        requires
            self.wf(),
            start < self@.len(),
            goal < self@.len(),
            k >= 1,
        ensures
            r.1.heap_pushes >= r.1.expansions,
            1 <= r.1.expansions <= self@.len(),
            r.1.heap_pushes <= 1 + 2 * r.1.nodes_relaxed + r.1.expansions,
            search_outcome_ok(self@, start, goal, r.0),
            start == goal ==> r.0 == Some(0u32) && r.1.expansions == 1 && r.1.heap_pushes == 1
                && r.1.nodes_relaxed == 0,
            start != goal && !has_edge_into(self@, goal) ==> r.0 is None,
    {
        let n = self.graph.len();
        let mut stats = Stats::default();
        let mut open = OpenSet::new();
        let mut g_score: Vec<u32> = filled(n, u32::MAX);
        let mut visited: Vec<bool> = filled(n, false);

        g_score.set(start, 0);
        open.push(zero_estimate(start), start);
        stats.heap_pushes = stats.heap_pushes.saturating_add(1);

        // Reusable wave buffers, cleared (not reallocated) per expansion.
        let mut frontier: Vec<usize> = Vec::new();
        let mut next_frontier: Vec<usize> = Vec::new();
        let mut next_pivots: Vec<usize> = Vec::new();

        proof {
            lemma_reach_self(self@, start);
            lemma_count_true_all_false(visited@);
        }

        while open.len() > 0
            invariant
                g_score@.len() == n,
                visited@.len() == n,
                scores_ok(self@, start, g_score@),
                open_ok(self@, g_score@, start, open@),
                stats.expansions == count_true(visited@),
                stats.expansions <= n,
                stats.heap_pushes >= stats.expansions + open@.len() || stats.heap_pushes
                    == usize::MAX,
                stats.expansions == 0 ==> open@ =~= Multiset::<(u32, usize)>::empty().insert(
                    (0u32, start),
                ),
                stats.expansions == 0 ==> forall|v: int| 0 <= v < n ==> !(#[trigger] visited@[v]),
                start == goal ==> stats.expansions == 0,
                start == goal ==> stats.heap_pushes == 1 && stats.nodes_relaxed == 0,
                stats.heap_pushes <= 1 + 2 * stats.nodes_relaxed + stats.expansions,
                frontier_adequate(self@, g_score@, open@),
                closed_ok(self@, start, visited@, g_score@, -1),
                !visited@[goal as int],
                goal_covered(g_score@, open@, goal, Seq::<usize>::empty(), 0),
            decreases n - stats.expansions, open@.len(),
        {
            let ghost open0 = open@;
            let (_cur_f, cur_u) = open.pop_min();
            proof {
                assert(entry_ok(self@, g_score@, start, (_cur_f, cur_u)));
                if stats.expansions == 0 {
                    assert((_cur_f, cur_u) == (0u32, start));
                }
            }
            if !visited[cur_u] {
                proof {
                    // No walk undercuts the popped distance: along a cheaper
                    // walk, some open entry's key would undercut the minimal
                    // popped key, which already bounds the stored distance.
                    assert forall|steps: Seq<(usize, u32)>|
                        is_walk(self@, start, cur_u, steps) implies walk_cost(steps)
                        >= g_score@[cur_u as int] by {
                        if walk_cost(steps) < g_score@[cur_u as int] {
                            lemma_open_adequate(self@, start, g_score@, open0, cur_u, steps);
                        }
                    }
                    assert(cost_is_minimal(self@, start, cur_u, g_score@[cur_u as int] as int));
                    lemma_count_true_set(visited@, cur_u as int);
                }
                visited.set(cur_u, true);
                stats.expansions = stats.expansions + 1;

                if cur_u == goal {
                    proof {
                        assert(g_score@[goal as int] < u32::MAX);
                        assert(reachable_with_cost(
                            self@,
                            start,
                            goal,
                            g_score@[goal as int] as int,
                        ));
                    }
                    return (Some(g_score[cur_u]), stats);
                }
                proof {
                    assert(start != goal);
                }

                proof {
                    assert(seq![cur_u][0] == cur_u);
                    assert(pending_from(seq![cur_u], 0, cur_u));
                    assert(adequate_except(
                        self@,
                        g_score@,
                        open@,
                        seq![cur_u],
                        0,
                        Seq::<usize>::empty(),
                        Seq::<usize>::empty(),
                    )) by {
                        assert forall|x: int|
                            0 <= x < self@.len() && (#[trigger] g_score@[x])
                                < u32::MAX implies open@.count((g_score@[x], x as usize)) > 0
                            || relaxed_at(self@, g_score@, x as usize)
                            || pending_from(seq![cur_u], 0, x as usize) by {
                            if x != cur_u as int {
                                assert(((g_score@[x], x as usize)) != ((_cur_f, cur_u)));
                                assert(open@.count((g_score@[x], x as usize)) == open0.count(
                                    (g_score@[x], x as usize),
                                ));
                            }
                        }
                    }
                }
                // Local wave: up to k rounds of breadth-first relaxation
                // from the just-closed node.
                self.wave(
                    start,
                    goal,
                    k,
                    cur_u,
                    &mut g_score,
                    &visited,
                    &mut frontier,
                    &mut next_frontier,
                    &mut next_pivots,
                    &mut stats,
                    Ghost(open@),
                );

                proof {
                    assert(next_pivots@.len() <= usize::MAX) by {
                        assert(next_pivots.len() == next_pivots@.len());
                    }
                }
                // Batch push: one heap push per pivot; duplicates and stale
                // entries are tolerated by the lazy-deletion pop above.
                let mut pi: usize = 0;
                while pi < next_pivots.len()
                    invariant
                        pi <= next_pivots@.len(),
                        g_score@.len() == n,
                        scores_ok(self@, start, g_score@),
                        open_ok(self@, g_score@, start, open@),
                        nodes_ok(self@, g_score@, start, next_pivots@),
                        adequate_except(
                            self@,
                            g_score@,
                            open@,
                            next_pivots@,
                            pi as int,
                            Seq::<usize>::empty(),
                            Seq::<usize>::empty(),
                        ),
                        goal_covered(g_score@, open@, goal, next_pivots@, pi as int),
                        stats.expansions == count_true(visited@),
                        1 <= stats.expansions <= n,
                        stats.heap_pushes >= stats.expansions + open@.len() || stats.heap_pushes
                            == usize::MAX,
                        stats.heap_pushes + (next_pivots@.len() - pi) <= 1 + 2
                            * stats.nodes_relaxed + stats.expansions,
                    decreases next_pivots@.len() - pi,
                {
                    let p = next_pivots[pi];
                    let f = g_score[p] + zero_estimate(p);
                    open.push(f, p);
                    stats.heap_pushes = stats.heap_pushes.saturating_add(1);
                    pi = pi + 1;
                }
                proof {
                    assert(frontier_adequate(self@, g_score@, open@)) by {
                        assert forall|x: int|
                            0 <= x < self@.len() && (#[trigger] g_score@[x])
                                < u32::MAX implies open@.count((g_score@[x], x as usize)) > 0
                            || relaxed_at(self@, g_score@, x as usize) by {}
                    }
                    assert(goal_covered(g_score@, open@, goal, Seq::<usize>::empty(), 0));
                }
            }
        }
        proof {
            assert forall|steps: Seq<(usize, u32)>|
                is_walk(self@, start, goal, steps) implies walk_cost(steps) >= u32::MAX as int by {
                if walk_cost(steps) < u32::MAX {
                    lemma_open_adequate(self@, start, g_score@, open@, goal, steps);
                }
            }
        }
        (None, stats)
    }
}

} // verus!
