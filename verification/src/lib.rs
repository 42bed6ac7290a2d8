//! Single-source shortest-path search on weighted undirected graphs.
//!
//! Two solvers share one read-only adjacency structure: a classic
//! priority-queue search (Dijkstra, i.e. A* with a zero heuristic) and a
//! batched-frontier variant that runs up to `k` rounds of local breadth-first
//! relaxation per pop to trade heap operations for extra edge relaxations.
//! Both report a `Stats` record of expansions, heap pushes and relaxation
//! attempts.
//!
//! Both solvers are verified against the same exact specification
//! ([`graph::search_outcome_ok`]): a returned cost is the minimum walk cost
//! from start to goal, and "unreachable" is returned exactly when no walk
//! costs less than the `u32::MAX` sentinel. Since the specification
//! determines the result ([`graph::lemma_search_outcomes_agree`]), the two
//! algorithms always agree.

pub mod graph;
mod open_set;
pub mod solver;

pub use solver::Solver;
pub use solver::Stats;
