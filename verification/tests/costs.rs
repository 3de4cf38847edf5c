use plansearch::LinCost;
use plansearch::Action;
use plansearch::CostVal;
use plansearch::Plan;
use plansearch::PlanCost;
use plansearch::State;
use plansearch::TableHeuristic;
use plansearch::ZeroHeuristic;

fn fin(num: i64, den: i64) -> CostVal {
    CostVal::finite(num, den)
}

#[test]
fn solve_linear_equation() {
    let state_1 = State::new(1, 1);
    let state_2 = State::new(2, 2);

    let value = LinCost::Value(fin(3, 1)).solve_linear_equation(state_1, fin(4, 1), fin(5, 1));
    assert_eq!(value, LinCost::Value(fin(17, 1)));

    let value = LinCost::Cycle {
        base: state_2,
        a: fin(3, 1),
        b: fin(4, 1),
    }
    .solve_linear_equation(state_1, fin(5, 1), fin(6, 1));
    assert_eq!(
        value,
        LinCost::Cycle {
            base: state_2,
            a: fin(15, 1),
            b: fin(26, 1),
        }
    );

    let value = LinCost::Cycle {
        base: state_1,
        a: fin(3, 1),
        b: fin(4, 1),
    }
    .solve_linear_equation(state_1, fin(5, 1), fin(6, 1));
    match value {
        LinCost::Value(v) => assert!(v.eq_val(fin(-26, 14))),
        _ => panic!("expected a settled value"),
    }
}

#[test]
fn cost_solved() {
    let plan = Plan::new(State::new(5, 1));
    let mut zero = ZeroHeuristic;
    let cost = plan.cost(&mut zero);
    assert!(!cost.estimated);
    assert!(cost.value.eq_val(fin(0, 1)));
}

#[test]
fn cost_pending() {
    let plan = Plan::new(State::new(5, 2));
    let mut h = TableHeuristic::new(vec![], fin(7, 1));
    let cost = plan.cost(&mut h);
    assert!(cost.estimated);
    assert!(cost.value.eq_val(fin(7, 1)));
}

#[test]
fn cost_throw() {
    let state = State::new(5, 2);
    let mut plan = Plan::new(state);
    plan.apply(state, Action::Throw).unwrap();
    let mut h = TableHeuristic::new(vec![], fin(7, 1));
    let cost = plan.cost(&mut h);
    assert!(cost.estimated);
    assert!(cost.value.eq_val(fin(8, 1)));

    plan.mark_solved(State {
        source: 5,
        target: 2,
        units: 5,
    });
    let mut zero = ZeroHeuristic;
    let cost = plan.cost(&mut zero);
    assert!(!cost.estimated);
    assert!(cost.value.eq_val(fin(1, 1)));
}

#[test]
fn cost_map_with_remaining() {
    let state = State {
        source: 5,
        target: 6,
        units: 17,
    };
    let sub_state = State {
        source: 5,
        target: 3,
        units: 1,
    };
    let remaining = State {
        source: 5,
        target: 6,
        units: 15,
    };

    let mut plan = Plan::new(state);
    plan.apply(state, Action::MapUnits(2)).unwrap();

    let mut h = TableHeuristic::new(vec![(sub_state, fin(10, 1)), (remaining, fin(20, 1))], fin(0, 1));
    let cost = plan.cost(&mut h);
    assert!(cost.estimated);
    // 2/17 * 10 + 15/17 * 20
    assert!(cost.value.eq_val(fin(320, 17)));

    plan.mark_solved(remaining);
    let cost = plan.cost(&mut h);
    assert!(cost.estimated);
    // 2/17 * 10
    assert!(cost.value.eq_val(fin(20, 17)));

    plan.mark_solved(sub_state);
    let mut zero = ZeroHeuristic;
    let cost = plan.cost(&mut zero);
    assert!(!cost.estimated);
    assert!(cost.value.eq_val(fin(0, 1)));
}

#[test]
fn cost_map_without_remaining() {
    let state = State {
        source: 5,
        target: 6,
        units: 2,
    };
    let sub_state = State {
        source: 5,
        target: 3,
        units: 1,
    };

    let mut plan = Plan::new(state);
    plan.apply(state, Action::MapUnits(2)).unwrap();

    let mut h = TableHeuristic::new(vec![(sub_state, fin(10, 1))], fin(0, 1));
    let cost = plan.cost(&mut h);
    assert!(cost.estimated);
    assert!(cost.value.eq_val(fin(10, 1)));

    plan.mark_solved(sub_state);
    let mut zero = ZeroHeuristic;
    let cost = plan.cost(&mut zero);
    assert!(!cost.estimated);
    assert!(cost.value.eq_val(fin(0, 1)));
}

#[test]
fn cycle() {
    let state = State::new(2, 3);
    let mut plan = Plan::new(state);
    plan.apply(state, Action::Throw).unwrap();
    plan.apply(
        State {
            source: 2,
            target: 3,
            units: 2,
        },
        Action::Throw,
    )
    .unwrap();
    plan.apply(
        State {
            source: 2,
            target: 3,
            units: 4,
        },
        Action::MapUnits(3),
    )
    .unwrap();

    let mut zero = ZeroHeuristic;
    let cost = plan.cost(&mut zero);
    assert!(!cost.estimated);
    assert!(cost.value.eq_val(fin(8, 3)));
}

#[test]
fn cost_is_deterministic() {
    let state = State {
        source: 5,
        target: 6,
        units: 17,
    };
    let mut plan = Plan::new(state);
    plan.apply(state, Action::MapUnits(2)).unwrap();

    let sub_state = State {
        source: 5,
        target: 3,
        units: 1,
    };
    let mut h = TableHeuristic::new(vec![(sub_state, fin(10, 1))], fin(20, 1));
    let first: PlanCost = plan.cost(&mut h);
    let second: PlanCost = plan.cost(&mut h);
    assert_eq!(first, second);
}

#[test]
fn exact_cost_none_while_pending() {
    let plan = Plan::new(State::new(5, 2));
    assert!(plan.exact_cost().is_none());

    let solved = Plan::new(State::new(5, 1));
    let c = solved.exact_cost().unwrap();
    assert!(c.eq_val(fin(0, 1)));
}
