use plansearch::Action;
use plansearch::ApplyError;
use plansearch::Plan;
use plansearch::PlanBranch;
use plansearch::Divider;
use plansearch::State;

#[test]
fn apply_errors() {
    let start = State {
        source: 5,
        target: 6,
        units: 17,
    };
    let mut plan = Plan::new(start);

    let absent = State {
        source: 5,
        target: 6,
        units: 3,
    };
    assert!(matches!(
        plan.apply(absent, Action::Throw),
        Err(ApplyError::StateDoesNotExist)
    ));

    // 5 does not divide 6
    assert!(matches!(
        plan.apply(start, Action::MapUnits(5)),
        Err(ApplyError::MapDoesNotDivide)
    ));

    plan.apply(start, Action::MapUnits(3)).unwrap();
    assert!(matches!(
        plan.apply(start, Action::Throw),
        Err(ApplyError::StateNotPending)
    ));

    // the leftover state's floor was raised to 3, so a split of 2 is refused
    let remaining = State {
        source: 5,
        target: 6,
        units: 14,
    };
    assert!(matches!(
        plan.apply(remaining, Action::MapUnits(2)),
        Err(ApplyError::MapToFewUnits)
    ));
    // while a split at the floor itself is accepted
    plan.apply(remaining, Action::MapUnits(3)).unwrap();
}

#[test]
fn possible_actions_lists_open_moves() {
    let start = State {
        source: 2,
        target: 6,
        units: 4,
    };
    let plan = Plan::new(start);
    let divider = Divider::new(6);
    let actions = plan.possible_actions(&divider);
    assert_eq!(actions.len(), 3);
    assert!(matches!(actions[0], (s, Action::Throw) if s == start));
    assert!(matches!(actions[1], (s, Action::MapUnits(2)) if s == start));
    assert!(matches!(actions[2], (s, Action::MapUnits(3)) if s == start));
}

#[test]
fn apply_inserts_referenced_states_once() {
    let start = State::new(2, 6);
    let mut plan = Plan::new(start);
    plan.apply(start, Action::Throw).unwrap();
    let next = State {
        source: 2,
        target: 6,
        units: 2,
    };
    // both states are present exactly once
    assert_eq!(plan.plans().len(), 2);
    assert_eq!(plan.plans()[0].0, start);
    assert_eq!(plan.plans()[1].0, next);
    assert!(matches!(plan.plans()[0].1, PlanBranch::Throw { next: n } if n == next));
    assert!(matches!(
        plan.plans()[1].1,
        PlanBranch::Pending { min_map_units: 2 }
    ));

    // a solved state's branch never changes under further applies
    let mut solved_plan = Plan::new(State::new(7, 1));
    assert!(matches!(solved_plan.plans()[0].1, PlanBranch::Solved));
    assert!(matches!(
        solved_plan.apply(State::new(7, 1), Action::Throw),
        Err(ApplyError::StateNotPending)
    ));
    assert!(matches!(solved_plan.plans()[0].1, PlanBranch::Solved));
}

#[test]
fn start_and_plans_accessors() {
    let start = State::new(3, 4);
    let plan = Plan::new(start);
    assert_eq!(plan.start(), start);
    assert_eq!(plan.plans().len(), 1);
}

#[test]
fn possible_actions_with_one_unit() {
    // a single unit is below every admissible divisor, so only a throw opens
    let start = State::new(2, 6);
    let plan = Plan::new(start);
    let divider = Divider::new(6);
    let actions = plan.possible_actions(&divider);
    assert_eq!(actions.len(), 1);
    assert!(matches!(actions[0], (s, Action::Throw) if s == start));
}
