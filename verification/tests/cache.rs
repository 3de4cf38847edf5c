use plansearch::CostVal;
use plansearch::HeuristicCache;
use plansearch::Plan;
use plansearch::Solver;
use plansearch::State;

struct CountingSolver {
    calls: Vec<State>,
}

impl Solver for CountingSolver {
    fn admits(&self, _s: State) -> bool {
        true
    }

    fn spec_solution_cost(&self, _s: State) -> CostVal {
        CostVal::NonFinite
    }

    fn solve(&mut self, s: State) -> Plan {
        self.calls.push(s);
        Plan::new(s)
    }
}

#[test]
fn heuristic_cache_test() {
    let mut cache = HeuristicCache::new(CountingSolver { calls: vec![] });

    assert!(cache.calculate(State::new(1, 1)).eq_val(CostVal::finite(0, 1)));
    assert!(cache.calculate(State::new(2, 1)).eq_val(CostVal::finite(0, 1)));
    assert!(cache.calculate(State::new(1, 1)).eq_val(CostVal::finite(0, 1)));
    assert!(cache.calculate(State::new(2, 1)).eq_val(CostVal::finite(0, 1)));

    // the solver ran exactly once per distinct state, in request order
    assert_eq!(cache.solver.calls.len(), 2);
    assert_eq!(cache.solver.calls[0].source, 1);
    assert_eq!(cache.solver.calls[1].source, 2);
}
