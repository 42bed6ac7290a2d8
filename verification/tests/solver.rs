use astar_batch::Solver;
use astar_batch::Stats;

/// Adds an undirected edge, keeping the graph symmetric.
fn add_edge(g: &mut Vec<Vec<(usize, u32)>>, u: usize, v: usize, w: u32) {
    g[u].push((v, w));
    g[v].push((u, w));
}

fn empty_graph(n: usize) -> Vec<Vec<(usize, u32)>> {
    let mut g = Vec::new();
    for _ in 0..n {
        g.push(Vec::new());
    }
    g
}

/// A 3-node path 0-1-2 with unit weights.
fn three_node_path() -> Vec<Vec<(usize, u32)>> {
    let mut g = empty_graph(3);
    add_edge(&mut g, 0, 1, 1);
    add_edge(&mut g, 1, 2, 1);
    g
}

fn check_counters(n: usize, stats: &Stats) {
    assert!(stats.expansions >= 1);
    assert!(stats.expansions <= n);
    assert!(stats.heap_pushes >= stats.expansions);
}

#[test]
fn self_path_zero_cost() {
    let solver = Solver::new(three_node_path());
    for start in 0..3 {
        let (cost, stats) = solver.solve_std(start, start);
        assert_eq!(cost, Some(0));
        assert_eq!(stats.expansions, 1);
        assert_eq!(stats.heap_pushes, 1);
        assert_eq!(stats.nodes_relaxed, 0);

        let (cost_b, stats_b) = solver.solve_batch(start, start, 2);
        assert_eq!(cost_b, Some(0));
        assert_eq!(stats_b.expansions, 1);
        assert_eq!(stats_b.heap_pushes, 1);
        assert_eq!(stats_b.nodes_relaxed, 0);
    }
}

#[test]
fn three_node_path_standard_counts() {
    // The textbook run: each node is pushed once as its best improves.
    let solver = Solver::new(three_node_path());
    let (cost, stats) = solver.solve_std(0, 2);
    assert_eq!(cost, Some(2));
    assert_eq!(stats.expansions, 3);
    assert_eq!(stats.heap_pushes, 3);
}

#[test]
fn k_sensitivity_three_node_path() {
    // Deeper waves never push more: heap_pushes is non-increasing in k on
    // this path graph, while the cost stays the optimum.
    let solver = Solver::new(three_node_path());
    let mut previous_pushes = None;
    for k in 1..=4 {
        let (cost, stats) = solver.solve_batch(0, 2, k);
        assert_eq!(cost, Some(2));
        if let Some(p) = previous_pushes {
            assert!(stats.heap_pushes <= p);
        }
        previous_pushes = Some(stats.heap_pushes);
    }
    // Exact counts for this graph: the k=1 wave re-pushes the goal found by
    // goal capture and the flushed frontier separately; deeper waves share
    // one batch.
    assert_eq!(solver.solve_batch(0, 2, 1).1.heap_pushes, 4);
    assert_eq!(solver.solve_batch(0, 2, 2).1.heap_pushes, 3);
    assert_eq!(solver.solve_batch(0, 2, 3).1.heap_pushes, 3);
}

#[test]
fn equivalence_on_fixed_graphs() {
    let mut graphs: Vec<Vec<Vec<(usize, u32)>>> = Vec::new();

    // Path with varied weights.
    let mut g = empty_graph(5);
    add_edge(&mut g, 0, 1, 3);
    add_edge(&mut g, 1, 2, 1);
    add_edge(&mut g, 2, 3, 7);
    add_edge(&mut g, 3, 4, 2);
    graphs.push(g);

    // Ring with a chord: two competing routes.
    let mut g = empty_graph(6);
    add_edge(&mut g, 0, 1, 2);
    add_edge(&mut g, 1, 2, 2);
    add_edge(&mut g, 2, 3, 2);
    add_edge(&mut g, 3, 4, 2);
    add_edge(&mut g, 4, 5, 2);
    add_edge(&mut g, 5, 0, 2);
    add_edge(&mut g, 0, 3, 5);
    graphs.push(g);

    // Multigraph: parallel edges of different weights, plus a zero weight.
    let mut g = empty_graph(4);
    add_edge(&mut g, 0, 1, 9);
    add_edge(&mut g, 0, 1, 4);
    add_edge(&mut g, 1, 2, 0);
    add_edge(&mut g, 2, 3, 6);
    add_edge(&mut g, 0, 3, 11);
    graphs.push(g);

    // Two components: some pairs are unreachable.
    let mut g = empty_graph(5);
    add_edge(&mut g, 0, 1, 1);
    add_edge(&mut g, 1, 2, 5);
    add_edge(&mut g, 3, 4, 2);
    graphs.push(g);

    for graph in graphs {
        let n = graph.len();
        let solver = Solver::new(graph);
        for start in 0..n {
            for goal in 0..n {
                let (cost_std, stats_std) = solver.solve_std(start, goal);
                check_counters(n, &stats_std);
                for k in 1..=4 {
                    let (cost_batch, stats_batch) = solver.solve_batch(start, goal, k);
                    assert_eq!(cost_std, cost_batch, "start {start} goal {goal} k {k}");
                    check_counters(n, &stats_batch);
                }
            }
        }
    }
}

#[test]
fn isolated_node_unreachable() {
    // Node 3 has no edges at all: searches to it exhaust the open set and
    // report unreachability as a normal result.
    let mut g = empty_graph(4);
    add_edge(&mut g, 0, 1, 2);
    add_edge(&mut g, 1, 2, 2);
    let solver = Solver::new(g);

    let (cost, stats) = solver.solve_std(0, 3);
    assert_eq!(cost, None);
    check_counters(4, &stats);
    assert_eq!(stats.expansions, 3);

    for k in 1..=3 {
        let (cost_b, stats_b) = solver.solve_batch(0, 3, k);
        assert_eq!(cost_b, None);
        check_counters(4, &stats_b);
    }
}

#[test]
fn overflow_saturates_instead_of_wrapping() {
    let big = u32::MAX - 1;

    // The only route's cost exceeds u32::MAX: saturation keeps the sum at
    // the "infinite" sentinel, so the goal is reported unreachable rather
    // than reachable at a wrapped-around (too small) cost.
    let mut g = empty_graph(3);
    add_edge(&mut g, 0, 1, big);
    add_edge(&mut g, 1, 2, big);
    let solver = Solver::new(g);
    assert_eq!(solver.solve_std(0, 2).0, None);
    for k in 1..=3 {
        assert_eq!(solver.solve_batch(0, 2, k).0, None);
    }

    // A direct near-maximum edge: wrapping arithmetic on the two-hop route
    // would fabricate a distance smaller than big; saturation must not.
    let mut g = empty_graph(3);
    add_edge(&mut g, 0, 1, big);
    add_edge(&mut g, 1, 2, big);
    add_edge(&mut g, 0, 2, big);
    let solver = Solver::new(g);
    assert_eq!(solver.solve_std(0, 2).0, Some(big));
    for k in 1..=3 {
        assert_eq!(solver.solve_batch(0, 2, k).0, Some(big));
    }
}

#[test]
fn duplicate_relaxations_do_not_change_costs() {
    // A dense diamond grid revisits nodes from several frontier copies in
    // one wave; results must be unaffected by the duplicate relaxations.
    let mut g = empty_graph(8);
    add_edge(&mut g, 0, 1, 1);
    add_edge(&mut g, 0, 2, 1);
    add_edge(&mut g, 1, 3, 1);
    add_edge(&mut g, 2, 3, 1);
    add_edge(&mut g, 1, 4, 2);
    add_edge(&mut g, 2, 5, 2);
    add_edge(&mut g, 3, 6, 1);
    add_edge(&mut g, 4, 7, 1);
    add_edge(&mut g, 5, 7, 1);
    add_edge(&mut g, 6, 7, 1);
    let solver = Solver::new(g);
    let (cost_std, _) = solver.solve_std(0, 7);
    assert_eq!(cost_std, Some(4));
    for k in 1..=6 {
        let (cost_batch, stats_batch) = solver.solve_batch(0, 7, k);
        assert_eq!(cost_batch, Some(4));
        check_counters(8, &stats_batch);
    }
}

#[test]
fn zero_weight_edges() {
    let mut g = empty_graph(3);
    add_edge(&mut g, 0, 1, 0);
    add_edge(&mut g, 1, 2, 0);
    let solver = Solver::new(g);
    assert_eq!(solver.solve_std(0, 2).0, Some(0));
    assert_eq!(solver.solve_batch(0, 2, 2).0, Some(0));
}

#[test]
fn stats_start_at_zero() {
    let stats = Stats::default();
    assert_eq!(stats.expansions, 0);
    assert_eq!(stats.heap_pushes, 0);
    assert_eq!(stats.nodes_relaxed, 0);
}

#[test]
fn two_isolated_nodes_counters() {
    // Exhausting the open set on an edgeless graph: one expansion, the
    // initial push only, no relaxation attempts for the standard solver;
    // the batch wave's dead-end flush re-pushes the closed start node once.
    let g = empty_graph(2);
    let solver = Solver::new(g);

    let (cost, stats) = solver.solve_std(0, 1);
    assert_eq!(cost, None);
    assert_eq!(stats.expansions, 1);
    assert_eq!(stats.heap_pushes, 1);
    assert_eq!(stats.nodes_relaxed, 0);

    let (cost_b, stats_b) = solver.solve_batch(0, 1, 1);
    assert_eq!(cost_b, None);
    assert_eq!(stats_b.expansions, 1);
    assert_eq!(stats_b.heap_pushes, 2);
    assert_eq!(stats_b.nodes_relaxed, 0);
}

#[test]
fn batch_saturating_instance_counters() {
    // A near-maximum first hop: (u32::MAX-1) + 10 saturates to the
    // sentinel, so node 2 is never improved and stays unreached.
    let big = u32::MAX - 1;
    let mut g = empty_graph(3);
    g[0].push((1, big));
    g[1].push((0, big));
    g[1].push((2, 10));
    g[2].push((1, 10));
    let solver = Solver::new(g);
    let (cost, stats) = solver.solve_batch(0, 2, 1);
    assert_eq!(cost, None);
    assert_eq!(stats.expansions, 2);
    assert_eq!(stats.heap_pushes, 3);
    assert_eq!(stats.nodes_relaxed, 3);
}

#[test]
fn parallel_edges_push_bound() {
    // Three parallel edges to the goal: each improvement both captures the
    // goal and leaves it in the flushed frontier, so one successful
    // relaxation can back two pivot pushes. The pushes stay within
    // 1 + 2 * nodes_relaxed + expansions, the bound the contract states.
    let mut g = empty_graph(2);
    add_edge(&mut g, 0, 1, 10);
    add_edge(&mut g, 0, 1, 5);
    add_edge(&mut g, 0, 1, 3);
    let solver = Solver::new(g);
    let (cost, stats) = solver.solve_batch(0, 1, 1);
    assert_eq!(cost, Some(3));
    assert_eq!(stats.expansions, 2);
    assert_eq!(stats.heap_pushes, 7);
    assert_eq!(stats.nodes_relaxed, 3);
    assert!(stats.heap_pushes <= 1 + 2 * stats.nodes_relaxed + stats.expansions);

    let (cost_std, stats_std) = solver.solve_std(0, 1);
    assert_eq!(cost_std, Some(3));
    assert!(stats_std.heap_pushes <= 1 + stats_std.nodes_relaxed);
}
