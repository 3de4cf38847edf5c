use plansearch::best_solver;
use plansearch::naive_solver;
use plansearch::Action;
use plansearch::PlanBranch;
use plansearch::CostVal;
use plansearch::HeuristicCache;
use plansearch::NaiveSolver;
use plansearch::State;
use plansearch::ZeroHeuristic;

#[test]
fn naive_solver_resolves_fully() {
    let plan = naive_solver(State::new(2, 6));
    let cost = plan.exact_cost().unwrap();
    // 3 throws to reach 8 units, then map 6; the leftover of 2 units loops
    // back through two throws, giving 3 + (1/4) * (8/3) = 11/3
    assert!(cost.eq_val(CostVal::finite(11, 3)));
}

#[test]
fn best_solver_beats_or_matches_naive() {
    let start = State::new(2, 6);
    let naive_cost = naive_solver(start).exact_cost().unwrap();
    let mut zero = ZeroHeuristic;
    let best = best_solver(start, &mut zero, 300);
    let best_cost = best.exact_cost().unwrap();
    assert!(best_cost.le(naive_cost));
    // for this instance the naive strategy is already optimal: the search
    // cannot find anything cheaper than 11/3
    assert!(best_cost.eq_val(CostVal::finite(11, 3)));
    assert_eq!(best.start(), start);
}

#[test]
fn cached_naive_heuristic_matches_direct_cost() {
    let start = State::new(6, 8);
    let mut cache = HeuristicCache::new(NaiveSolver);
    let first = cache.calculate(start);
    let second = cache.calculate(start);
    assert!(first.eq_val(second));
    let direct = naive_solver(start).exact_cost().unwrap();
    assert!(first.eq_val(direct));
}

#[test]
fn degenerate_cycle_cost_is_non_finite() {
    // a source of 1 throws back to the same state: the linear solve divides
    // by zero, so the confirmed cost is non-finite
    let plan = naive_solver(State::new(1, 2));
    let cost = plan.exact_cost().unwrap();
    assert!(!cost.is_finite());
}

#[test]
fn naive_solver_follows_the_rule() {
    // (2,3): throw at 1 and 2 units, map the full target at 4, leaving the
    // start state itself as the remainder
    let plan = naive_solver(State::new(2, 3));
    for &(s, b) in plan.plans().iter() {
        match b {
            PlanBranch::Solved => assert_eq!(s.target, 1),
            PlanBranch::Throw { next } => {
                assert!(s.units < s.target);
                assert_eq!(next.units, s.units * s.source);
            }
            PlanBranch::Mapped { units, .. } => {
                assert!(s.units >= s.target);
                assert_eq!(units, s.target);
            }
            PlanBranch::Pending { .. } => panic!("naive plans are fully resolved"),
        }
    }
    assert_eq!(plan.plans().len(), 4);
}
