//! Branch-and-bound synthesis of minimum expected-cost plans for the
//! `(source, target, units)` decision problem: a plan graph maps each state to
//! a chosen move (amplify the units, or split the target into a sub-problem),
//! and the evaluator resolves the expected number of moves even when the plan
//! graph contains cycles, by folding the cost through affine forms and solving
//! the resulting linear equation in closed form.

pub mod cost;
pub mod divider;
pub mod heuristic;
pub mod heuristic_cache;
pub mod plan;
pub mod ratio;
pub mod search;
pub mod state;

pub use cost::LinCost;
pub use cost::PlanCost;
pub use divider::Divider;
pub use heuristic::Heuristic;
pub use heuristic::TableHeuristic;
pub use heuristic::ZeroHeuristic;
pub use heuristic_cache::HeuristicCache;
pub use heuristic_cache::NaiveSolver;
pub use heuristic_cache::Solver;
pub use plan::ApplyError;
pub use plan::Plan;
pub use plan::PlanBranch;
pub use ratio::CostVal;
pub use search::best_solver;
pub use search::naive_solver;
pub use state::Action;
pub use state::State;
