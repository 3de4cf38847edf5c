use vstd::prelude::*;

use crate::heuristic::hfun;
use crate::heuristic::Heuristic;
use crate::heuristic::ZeroHeuristic;
use crate::plan::has_key;
use crate::plan::is_pending;
use crate::plan::key_index;
use crate::plan::keys_distinct;
use crate::plan::lookup;
use crate::plan::plan_wf;
use crate::plan::Entries;
use crate::plan::Plan;
use crate::plan::PlanBranch;
use crate::ratio::cv_add;
use crate::ratio::cv_div;
use crate::ratio::cv_eq;
use crate::ratio::cv_mul;
use crate::ratio::cv_sub;
use crate::ratio::cv_wf;
use crate::ratio::CostVal;
use crate::state::State;

verus! {

broadcast use vstd::seq_lib::lemma_seq_contains_after_push;

/// An intermediate evaluation result: either a settled cost, or the affine
/// form `a * x + b` where `x` stands for the still-unknown cost of `base`,
/// the state at which a cycle was detected.
#[derive(Debug, Clone, Copy, PartialEq, Eq, Structural)]
pub enum LinCost {
    Value(CostVal),
    Cycle { base: State, a: CostVal, b: CostVal },
}

/// An evaluation result with its taint: `estimated` is set as soon as any
/// pending state's heuristic value entered the computation.
#[derive(Debug, Clone, Copy, PartialEq, Eq, Structural)]
pub struct InnerCost {
    pub estimated: bool,
    pub value: LinCost,
}

/// The cost of a plan from its start state: the expected number of moves,
/// and whether any pending state's heuristic estimate entered it.
#[derive(Debug, Clone, Copy, PartialEq, Eq, Structural)]
pub struct PlanCost {
    pub estimated: bool,
    pub value: CostVal,
}

pub open spec fn cv_zero() -> CostVal {
    CostVal::Finite { num: 0, den: 1 }
}

pub open spec fn cv_one() -> CostVal {
    CostVal::Finite { num: 1, den: 1 }
}

pub open spec fn lin_wf(v: LinCost) -> bool {
    match v {
        LinCost::Value(z) => cv_wf(z),
        LinCost::Cycle { base, a, b } => cv_wf(a) && cv_wf(b),
    }
}

/// The settled cost a finished evaluation carries (a still-open affine form
/// has no settled value).
pub open spec fn lin_value_of(v: LinCost) -> CostVal {
    match v {
        LinCost::Value(z) => z,
        LinCost::Cycle { .. } => CostVal::NonFinite,
    }
}

/// Fold `x = p * inner + q`: a settled inner cost maps through the affine
/// transform; an open form folds its coefficients, and closes — solving
/// `x = a x + b` as `x = b / (1 - a)` — exactly when the enclosing state is
/// the cycle's base.
pub open spec fn s_solve_linear(v: LinCost, state: State, p: CostVal, q: CostVal) -> LinCost {
    match v {
        LinCost::Value(z) => LinCost::Value(cv_add(cv_mul(p, z), q)),
        LinCost::Cycle { base, a, b } => {
            if base != state {
                LinCost::Cycle { base, a: cv_mul(a, p), b: cv_add(cv_mul(b, p), q) }
            } else {
                LinCost::Value(
                    cv_div(cv_add(cv_mul(b, p), q), cv_sub(cv_one(), cv_mul(a, p))),
                )
            }
        },
    }
}

/// The affine form opened at the moment a cycle is detected: `1 * x + 0`.
pub open spec fn s_cycle_start(base: State) -> InnerCost {
    InnerCost {
        estimated: false,
        value: LinCost::Cycle { base, a: cv_one(), b: cv_zero() },
    }
}

/// What cost evaluation needs of one branch: referenced states are present,
/// a throw and a leftover keep the target, and a sub-problem strictly
/// shrinks it.
pub open spec fn cost_branch_wf(es: Entries, s: State, b: PlanBranch) -> bool {
    match b {
        PlanBranch::Throw { next } => has_key(es, next) && next.target == s.target,
        PlanBranch::Mapped { units, sub_problem, remaining } => {
            &&& has_key(es, sub_problem)
            &&& sub_problem.target < s.target
            &&& match remaining {
                Some(r) => has_key(es, r) && r.target == s.target && s.units >= 1,
                None => true,
            }
        },
        _ => true,
    }
}

/// What cost evaluation needs of the whole graph.
pub open spec fn cost_wf(es: Entries) -> bool {
    &&& keys_distinct(es)
    &&& forall|i: int|
        0 <= i < es.len() ==> cost_branch_wf(es, (#[trigger] es[i]).0, es[i].1)
}

/// The domain on which the evaluation is defined.
pub open spec fn s_cost_guard(es: Entries, visited: Set<State>, state: State) -> bool {
    &&& cost_wf(es)
    &&& has_key(es, state)
    &&& visited.finite()
    &&& forall|q: State| visited.contains(q) ==> #[trigger] has_key(es, q)
}

/// The full graph invariant gives everything the evaluation needs.
pub proof fn lemma_plan_wf_cost_wf(es: Entries, start: State)
    requires
        plan_wf(es, start),
    ensures
        cost_wf(es),
{
    assert forall|i: int| 0 <= i < es.len() implies cost_branch_wf(
        es,
        (#[trigger] es[i]).0,
        es[i].1,
    ) by {
        let s = es[i].0;
        let b = es[i].1;
        assert(crate::plan::branch_wf(es, s, b));
        match b {
            PlanBranch::Mapped { units, sub_problem, remaining } => {
                let j = key_index(es, sub_problem);
                assert(0 <= j < es.len() && es[j].0 == sub_problem);
                assert(sub_problem.target >= 1);
                assert(sub_problem.target < s.target) by (nonlinear_arith)
                    requires
                        (units as int) * (sub_problem.target as int) == s.target as int,
                        units >= 2,
                        sub_problem.target >= 1,
                ;
            },
            _ => {},
        }
    }
}

/// A set of states all present in the graph cannot outnumber its entries.
proof fn lemma_visited_bound(es: Entries, visited: Set<State>)
    requires
        visited.finite(),
        forall|q: State| visited.contains(q) ==> #[trigger] has_key(es, q),
    ensures
        visited.len() <= es.len(),
{
    broadcast use vstd::seq_lib::seq_to_set_is_finite;

    let keys = es.map_values(|e: (State, PlanBranch)| e.0);
    assert forall|q: State| visited.contains(q) implies #[trigger] keys.to_set().contains(
        q,
    ) by {
        assert(has_key(es, q));
        let i = key_index(es, q);
        assert(0 <= i < es.len() && es[i].0 == q);
        assert(keys[i] == q);
        assert(keys.contains(q));
    }
    assert(visited <= keys.to_set());
    keys.lemma_cardinality_of_set();
    vstd::set_lib::lemma_len_subset(visited, keys.to_set());
}

#[via_fn]
proof fn s_inner_cost_decreases(
    es: Entries,
    visited: Set<State>,
    state: State,
    h: spec_fn(State) -> CostVal,
) {
    if s_cost_guard(es, visited, state) {
        lemma_visited_bound(es, visited);
        let i = key_index(es, state);
        assert(0 <= i < es.len() && es[i].0 == state);
        assert(cost_branch_wf(es, state, es[i].1));
        assert(lookup(es, state) == Some(es[i].1));
        match lookup(es, state) {
            Some(PlanBranch::Throw { next }) => {
                if !visited.contains(state) {
                    assert(visited.insert(state).len() == visited.len() + 1);
                    lemma_visited_bound(es, visited.insert(state));
                }
            },
            Some(PlanBranch::Mapped { units, sub_problem, remaining }) => {
                if !visited.contains(state) {
                    assert(visited.insert(state).len() == visited.len() + 1);
                    lemma_visited_bound(es, visited.insert(state));
                    assert(Set::<State>::empty().len() == 0);
                }
            },
            _ => {},
        }
    }
}

/// The expected cost of `state`, with `visited` the set of branching states
/// currently on the evaluation path: a solved state costs nothing, a pending
/// state answers its heuristic estimate (tainting the result), a throw adds
/// one move, and a map move mixes the sub-problem's settled cost with the
/// leftover's cost, weighted by the fraction of units committed. Revisiting a
/// state on the current path opens an affine form that the enclosing
/// combinators fold and the cycle's base closes.
pub open spec fn s_inner_cost(
    es: Entries,
    visited: Set<State>,
    state: State,
    h: spec_fn(State) -> CostVal,
) -> InnerCost
    decreases state.target, es.len() - visited.len(),
        when s_cost_guard(es, visited, state)
        via s_inner_cost_decreases
{
    match lookup(es, state) {
        Some(PlanBranch::Solved) => InnerCost { estimated: false, value: LinCost::Value(cv_zero()) },
        Some(PlanBranch::Pending { .. }) => InnerCost {
            estimated: true,
            value: LinCost::Value(h(state)),
        },
        Some(PlanBranch::Throw { next }) => {
            if visited.contains(state) {
                s_cycle_start(state)
            } else {
                let nc = s_inner_cost(es, visited.insert(state), next, h);
                InnerCost {
                    estimated: nc.estimated,
                    value: s_solve_linear(nc.value, state, cv_one(), cv_one()),
                }
            }
        },
        Some(PlanBranch::Mapped { units, sub_problem, remaining }) => {
            if visited.contains(state) {
                s_cycle_start(state)
            } else {
                let sc = s_inner_cost(es, Set::empty(), sub_problem, h);
                let sub_val = lin_value_of(sc.value);
                match remaining {
                    None => InnerCost { estimated: sc.estimated, value: LinCost::Value(sub_val) },
                    Some(r) => {
                        let ratio = CostVal::Finite {
                            num: units as i64,
                            den: state.units as i64,
                        };
                        let rc = s_inner_cost(es, visited.insert(state), r, h);
                        InnerCost {
                            estimated: sc.estimated || rc.estimated,
                            value: s_solve_linear(
                                rc.value,
                                state,
                                cv_sub(cv_one(), ratio),
                                cv_mul(ratio, sub_val),
                            ),
                        }
                    },
                }
            }
        },
        None => InnerCost { estimated: true, value: LinCost::Value(CostVal::NonFinite) },
    }
}

/// The cost of the whole plan, evaluated from its start state.
pub open spec fn s_cost(es: Entries, start: State, h: spec_fn(State) -> CostVal) -> PlanCost {
    let ic = s_inner_cost(es, Set::empty(), start, h);
    PlanCost { estimated: ic.estimated, value: lin_value_of(ic.value) }
}

/// The zero estimator as a spec-level function.
pub open spec fn zero_h() -> spec_fn(State) -> CostVal {
    |q: State| cv_zero()
}

/// The plan's cost under the zero estimator, when no heuristic value entered
/// it — the confirmed cost of a fully resolved plan.
pub open spec fn s_exact_cost(es: Entries, start: State) -> Option<CostVal> {
    let c = s_cost(es, start, zero_h());
    if c.estimated {
        None
    } else {
        Some(c.value)
    }
}

/// An open affine form can only name a base that is on the current path.
proof fn lemma_cycle_base_visited(
    es: Entries,
    visited: Set<State>,
    state: State,
    h: spec_fn(State) -> CostVal,
)
    requires
        s_cost_guard(es, visited, state),
    ensures
        s_inner_cost(es, visited, state, h).value matches LinCost::Cycle { base, .. }
            ==> visited.contains(base),
    decreases state.target, es.len() - visited.len(),
{
    lemma_visited_bound(es, visited);
    let i = key_index(es, state);
    assert(0 <= i < es.len() && es[i].0 == state);
    assert(cost_branch_wf(es, state, es[i].1));
    assert(lookup(es, state) == Some(es[i].1));
    match lookup(es, state) {
        Some(PlanBranch::Throw { next }) => {
            if !visited.contains(state) {
                assert(visited.insert(state).len() == visited.len() + 1);
                lemma_visited_bound(es, visited.insert(state));
                lemma_cycle_base_visited(es, visited.insert(state), next, h);
            }
        },
        Some(PlanBranch::Mapped { units, sub_problem, remaining }) => {
            if !visited.contains(state) {
                match remaining {
                    Some(r) => {
                        assert(visited.insert(state).len() == visited.len() + 1);
                        lemma_visited_bound(es, visited.insert(state));
                        lemma_cycle_base_visited(es, visited.insert(state), r, h);
                    },
                    None => {},
                }
            }
        },
        _ => {},
    }
}

/// A top-level evaluation (empty path) always settles to a value.
pub proof fn lemma_cost_settles(es: Entries, state: State, h: spec_fn(State) -> CostVal)
    requires
        cost_wf(es),
        has_key(es, state),
    ensures
        s_inner_cost(es, Set::empty(), state, h).value is Value,
{
    lemma_cycle_base_visited(es, Set::empty(), state, h);
}

/// Evaluation never consults the heuristic of a fully resolved plan, so its
/// result is never tainted.
pub proof fn lemma_resolved_not_estimated(
    es: Entries,
    visited: Set<State>,
    state: State,
    h: spec_fn(State) -> CostVal,
)
    requires
        s_cost_guard(es, visited, state),
        crate::plan::fully_resolved(es),
    ensures
        !s_inner_cost(es, visited, state, h).estimated,
    decreases state.target, es.len() - visited.len(),
{
    lemma_visited_bound(es, visited);
    let i = key_index(es, state);
    assert(0 <= i < es.len() && es[i].0 == state);
    assert(cost_branch_wf(es, state, es[i].1));
    assert(lookup(es, state) == Some(es[i].1));
    match lookup(es, state) {
        Some(PlanBranch::Throw { next }) => {
            if !visited.contains(state) {
                assert(visited.insert(state).len() == visited.len() + 1);
                lemma_visited_bound(es, visited.insert(state));
                lemma_resolved_not_estimated(es, visited.insert(state), next, h);
            }
        },
        Some(PlanBranch::Mapped { units, sub_problem, remaining }) => {
            if !visited.contains(state) {
                lemma_resolved_not_estimated(es, Set::empty(), sub_problem, h);
                match remaining {
                    Some(r) => {
                        assert(visited.insert(state).len() == visited.len() + 1);
                        lemma_visited_bound(es, visited.insert(state));
                        lemma_resolved_not_estimated(es, visited.insert(state), r, h);
                    },
                    None => {},
                }
            }
        },
        _ => {},
    }
}

/// Estimators that agree pointwise give identical evaluations: the cost of an
/// unchanged plan is a function of the graph and the estimates alone.
pub proof fn lemma_cost_heuristic_agrees(
    es: Entries,
    visited: Set<State>,
    state: State,
    h1: spec_fn(State) -> CostVal,
    h2: spec_fn(State) -> CostVal,
)
    requires
        s_cost_guard(es, visited, state),
        forall|q: State| #[trigger] h1(q) == h2(q),
    ensures
        s_inner_cost(es, visited, state, h1) == s_inner_cost(es, visited, state, h2),
    decreases state.target, es.len() - visited.len(),
{
    lemma_visited_bound(es, visited);
    let i = key_index(es, state);
    assert(0 <= i < es.len() && es[i].0 == state);
    assert(cost_branch_wf(es, state, es[i].1));
    assert(lookup(es, state) == Some(es[i].1));
    match lookup(es, state) {
        Some(PlanBranch::Throw { next }) => {
            if !visited.contains(state) {
                assert(visited.insert(state).len() == visited.len() + 1);
                lemma_visited_bound(es, visited.insert(state));
                lemma_cost_heuristic_agrees(es, visited.insert(state), next, h1, h2);
            }
        },
        Some(PlanBranch::Mapped { units, sub_problem, remaining }) => {
            if !visited.contains(state) {
                lemma_cost_heuristic_agrees(es, Set::empty(), sub_problem, h1, h2);
                match remaining {
                    Some(r) => {
                        assert(visited.insert(state).len() == visited.len() + 1);
                        lemma_visited_bound(es, visited.insert(state));
                        lemma_cost_heuristic_agrees(es, visited.insert(state), r, h1, h2);
                    },
                    None => {},
                }
            }
        },
        _ => {},
    }
}

/// Evaluating `cost` twice on an unmodified plan with estimators that agree
/// pointwise yields identical results: evaluation has no hidden mutation.
pub proof fn lemma_cost_deterministic(
    es: Entries,
    start: State,
    h1: spec_fn(State) -> CostVal,
    h2: spec_fn(State) -> CostVal,
)
    requires
        cost_wf(es),
        has_key(es, start),
        forall|q: State| #[trigger] h1(q) == h2(q),
    ensures
        s_cost(es, start, h1) == s_cost(es, start, h2),
{
    lemma_cost_heuristic_agrees(es, Set::empty(), start, h1, h2);
}

/// A fully resolved well-formed plan always has a confirmed exact cost.
pub proof fn lemma_resolved_exact(es: Entries, start: State)
    requires
        plan_wf(es, start),
        crate::plan::fully_resolved(es),
    ensures
        s_exact_cost(es, start) is Some,
{
    lemma_plan_wf_cost_wf(es, start);
    lemma_resolved_not_estimated(es, Set::empty(), start, zero_h());
}

/// The two settled leaves of evaluation: a plan whose start is still pending
/// costs exactly its heuristic estimate and is tainted as estimated, and a
/// plan whose start is solved costs exactly zero and is exact.
pub proof fn lemma_cost_leaves(es: Entries, start: State, h: spec_fn(State) -> CostVal)
    requires
        cost_wf(es),
        has_key(es, start),
    ensures
        is_pending(es, start) ==> s_cost(es, start, h) == (PlanCost {
            estimated: true,
            value: h(start),
        }),
        lookup(es, start) == Some(PlanBranch::Solved) ==> s_cost(es, start, h) == (PlanCost {
            estimated: false,
            value: cv_zero(),
        }),
{
}

/// Resolving the leaf settles the cost: a start that throws straight into a
/// solved state costs exactly the one throw move, and is exact.
pub proof fn lemma_cost_throw_to_solved(
    es: Entries,
    start: State,
    next: State,
    h: spec_fn(State) -> CostVal,
)
    requires
        cost_wf(es),
        has_key(es, start),
        lookup(es, start) == Some(PlanBranch::Throw { next }),
        lookup(es, next) == Some(PlanBranch::Solved),
    ensures
        s_cost(es, start, h) == (PlanCost {
            estimated: false,
            value: CostVal::Finite { num: 1, den: 1 },
        }),
{
    let v0 = Set::<State>::empty();
    assert(!v0.contains(start));
    let i = key_index(es, start);
    assert(0 <= i < es.len() && es[i].0 == start);
    assert(cost_branch_wf(es, start, es[i].1));
    let c1 = s_inner_cost(es, v0.insert(start), next, h);
    assert(c1 == InnerCost { estimated: false, value: LinCost::Value(cv_zero()) });
    assert(s_inner_cost(es, v0, start, h).value == s_solve_linear(
        c1.value,
        start,
        cv_one(),
        cv_one(),
    ));
}

/// `p` walks an acyclic chain of throw moves through the graph.
pub open spec fn throw_chain(es: Entries, p: Seq<State>) -> bool {
    &&& p.len() >= 1
    &&& p.no_duplicates()
    &&& forall|i: int|
        0 <= i < p.len() - 1 ==> lookup(es, #[trigger] p[i]) == Some(
            PlanBranch::Throw { next: p[i + 1] },
        )
}

/// Evaluating from position `j` of a throw chain whose leaf settles to the
/// finite value `n0 / d0`: each of the remaining throws adds one move.
proof fn lemma_throw_chain_value(
    es: Entries,
    p: Seq<State>,
    j: int,
    h: spec_fn(State) -> CostVal,
    n0: i64,
    d0: i64,
    est: bool,
)
    requires
        cost_wf(es),
        throw_chain(es, p),
        0 <= j < p.len(),
        1 <= d0,
        n0 + (p.len() - 1) * d0 <= i64::MAX,
        match lookup(es, p.last()) {
            Some(PlanBranch::Pending { .. }) => est == true && h(p.last()) == (CostVal::Finite {
                num: n0,
                den: d0,
            }),
            Some(PlanBranch::Solved) => est == false && n0 == 0 && d0 == 1,
            _ => false,
        },
    ensures
        s_inner_cost(es, p.take(j).to_set(), p[j], h) == (InnerCost {
            estimated: est,
            value: LinCost::Value(
                CostVal::Finite { num: (n0 + (p.len() - 1 - j) * d0) as i64, den: d0 },
            ),
        }),
    decreases p.len() - j,
{
    broadcast use vstd::seq_lib::seq_to_set_is_finite;

    let visited = p.take(j).to_set();
    let k = p.len() - 1;
    assert forall|q: State| visited.contains(q) implies #[trigger] has_key(es, q) by {
        assert(p.take(j).contains(q));
        let m = choose|m: int| 0 <= m < p.take(j).len() && p.take(j)[m] == q;
        assert(p[m] == q);
        if m < k {
            assert(lookup(es, p[m]) is Some);
        } else {
            assert(lookup(es, p.last()) is Some);
        }
    }
    assert(has_key(es, p[j])) by {
        if j < k {
            assert(lookup(es, p[j]) is Some);
        } else {
            assert(p[j] == p.last());
            assert(lookup(es, p.last()) is Some);
        }
    }
    assert(s_cost_guard(es, visited, p[j]));
    if j == k {
        assert(p[j] == p.last());
        assert((p.len() - 1 - j) * d0 == 0) by (nonlinear_arith)
            requires
                p.len() - 1 - j == 0,
        ;
    } else {
        assert(lookup(es, p[j]) == Some(PlanBranch::Throw { next: p[j + 1] }));
        assert(!visited.contains(p[j])) by {
            if visited.contains(p[j]) {
                assert(p.take(j).contains(p[j]));
                let m = choose|m: int| 0 <= m < p.take(j).len() && p.take(j)[m] == p[j];
                assert(p[m] == p[j] && m < j);
            }
        }
        lemma_throw_chain_value(es, p, j + 1, h, n0, d0, est);
        assert(p.take(j + 1).to_set() =~= visited.insert(p[j])) by {
            assert forall|q: State| p.take(j + 1).contains(q) <==> (p.take(j).contains(q) || q
                == p[j]) by {
                assert(p.take(j + 1) =~= p.take(j).push(p[j]));
            }
        }
        let rest = (k - j - 1) * d0;
        assert(0 <= rest && rest + d0 == (k - j) * d0 && n0 + rest <= i64::MAX && n0 + (k - j)
            * d0 <= i64::MAX) by (nonlinear_arith)
            requires
                rest == (k - j - 1) * d0,
                0 <= k - j - 1 <= k,
                1 <= k - j <= k,
                d0 >= 1,
                n0 + k * d0 <= i64::MAX,
        ;
        let inner = CostVal::Finite { num: (n0 + rest) as i64, den: d0 };
        lemma_cv_one_mul((n0 + rest) as i64, d0);
        assert(cv_mul(cv_one(), inner) == inner);
        assert(cv_add(inner, cv_one()) == (CostVal::Finite {
            num: (n0 + (k - j) * d0) as i64,
            den: d0,
        }));
        assert(s_inner_cost(es, visited, p[j], h).value == s_solve_linear(
            LinCost::Value(inner),
            p[j],
            cv_one(),
            cv_one(),
        ));
    }
}

/// A start that reaches a single pending leaf through an acyclic chain of
/// throws costs the leaf's finite estimate plus one move per throw, and is
/// estimated.
pub proof fn lemma_cost_throw_chain_pending(
    es: Entries,
    p: Seq<State>,
    h: spec_fn(State) -> CostVal,
    n0: i64,
    d0: i64,
)
    requires
        cost_wf(es),
        throw_chain(es, p),
        lookup(es, p.last()) matches Some(PlanBranch::Pending { .. }),
        h(p.last()) == (CostVal::Finite { num: n0, den: d0 }),
        1 <= d0,
        n0 + (p.len() - 1) * d0 <= i64::MAX,
    ensures
        s_cost(es, p[0], h) == (PlanCost {
            estimated: true,
            value: CostVal::Finite { num: (n0 + (p.len() - 1) * d0) as i64, den: d0 },
        }),
{
    assert(p.take(0).to_set() =~= Set::<State>::empty()) by {
        assert(p.take(0) =~= Seq::<State>::empty());
    }
    lemma_throw_chain_value(es, p, 0, h, n0, d0, true);
}

/// Once that leaf is resolved to `Solved`, the same chain's cost is exactly
/// its length in throw moves, and exact — whatever the estimator.
pub proof fn lemma_cost_throw_chain_solved(es: Entries, p: Seq<State>, h: spec_fn(State) -> CostVal)
    requires
        cost_wf(es),
        throw_chain(es, p),
        lookup(es, p.last()) == Some(PlanBranch::Solved),
        p.len() - 1 <= i64::MAX,
    ensures
        s_cost(es, p[0], h) == (PlanCost {
            estimated: false,
            value: CostVal::Finite { num: (p.len() - 1) as i64, den: 1 },
        }),
{
    assert(p.take(0).to_set() =~= Set::<State>::empty()) by {
        assert(p.take(0) =~= Seq::<State>::empty());
    }
    lemma_throw_chain_value(es, p, 0, h, 0, 1, false);
}

/// A map move that commits every unit costs exactly what its sub-problem
/// costs (the mixing ratio is 1), taint included.
pub proof fn lemma_cost_map_no_remaining(
    es: Entries,
    start: State,
    units: u32,
    sub: State,
    h: spec_fn(State) -> CostVal,
)
    requires
        cost_wf(es),
        has_key(es, start),
        lookup(es, start) == Some(
            PlanBranch::Mapped { units, sub_problem: sub, remaining: None },
        ),
    ensures
        s_cost(es, start, h) == s_cost(es, sub, h),
{
    let i = key_index(es, start);
    assert(0 <= i < es.len() && es[i].0 == start);
    assert(cost_branch_wf(es, start, es[i].1));
}

/// A map move that leaves units behind mixes the sub-problem's settled cost
/// with the leftover's: whenever the leftover's evaluation settles to a value
/// `z` (it did not open a cycle through the start), the plan's cost is
/// `ratio * cost(sub) + (1 - ratio) * z` with `ratio = units / start.units`,
/// and the taint is the disjunction of both branches' taints.
pub proof fn lemma_cost_map_remaining(
    es: Entries,
    start: State,
    units: u32,
    sub: State,
    rem: State,
    h: spec_fn(State) -> CostVal,
)
    requires
        cost_wf(es),
        has_key(es, start),
        lookup(es, start) == Some(
            PlanBranch::Mapped { units, sub_problem: sub, remaining: Some(rem) },
        ),
    ensures
        ({
            let sc = s_inner_cost(es, Set::empty(), sub, h);
            let rc = s_inner_cost(es, Set::<State>::empty().insert(start), rem, h);
            let ratio = CostVal::Finite { num: units as i64, den: start.units as i64 };
            rc.value matches LinCost::Value(z) ==> s_cost(es, start, h) == (PlanCost {
                estimated: sc.estimated || rc.estimated,
                value: cv_add(
                    cv_mul(ratio, lin_value_of(sc.value)),
                    cv_mul(cv_sub(cv_one(), ratio), z),
                ),
            })
        }),
{
    let i = key_index(es, start);
    assert(0 <= i < es.len() && es[i].0 == start);
    assert(cost_branch_wf(es, start, es[i].1));
    let sc = s_inner_cost(es, Set::empty(), sub, h);
    let rc = s_inner_cost(es, Set::<State>::empty().insert(start), rem, h);
    let ratio = CostVal::Finite { num: units as i64, den: start.units as i64 };
    match rc.value {
        LinCost::Value(z) => {
            lemma_cv_add_comm(
                cv_mul(cv_sub(cv_one(), ratio), z),
                cv_mul(ratio, lin_value_of(sc.value)),
            );
        },
        _ => {},
    }
}

/// Addition of costs does not depend on the order of its arguments.
pub proof fn lemma_cv_add_comm(a: CostVal, b: CostVal)
    ensures
        cv_add(a, b) == cv_add(b, a),
{
    match (a, b) {
        (CostVal::Finite { num: n1, den: d1 }, CostVal::Finite { num: n2, den: d2 }) => {
            assert((n1 as int) * (d2 as int) + (n2 as int) * (d1 as int) == (n2 as int) * (
            d1 as int) + (n1 as int) * (d2 as int));
            assert((d1 as int) * (d2 as int) == (d2 as int) * (d1 as int)) by (nonlinear_arith);
        },
        _ => {},
    }
}

/// The self-referential loop the linear solve exists for: a start that throws
/// to a second state, which throws to a third, which maps out into a solved
/// sub-problem while its leftover is the start again. The evaluation closes
/// the loop by solving `x = a x + b`: with `ratio = units / s2.units`, the
/// affine form reaching the start is `a = 1 - ratio` (the leftover's share,
/// folded through two throws) and `b = ratio * 0 + 1 + 1` (the sub-problem is
/// solved, each throw adds one move), so the start's cost settles to
/// `b / (1 - a)` — exact, since no pending state is ever consulted.
pub proof fn lemma_cost_throw_throw_map_cycle(
    es: Entries,
    s0: State,
    s1: State,
    s2: State,
    units: u32,
    sub: State,
    h: spec_fn(State) -> CostVal,
)
    requires
        cost_wf(es),
        has_key(es, s0),
        s0 != s1 && s0 != s2 && s1 != s2,
        lookup(es, s0) == Some(PlanBranch::Throw { next: s1 }),
        lookup(es, s1) == Some(PlanBranch::Throw { next: s2 }),
        lookup(es, s2) == Some(
            PlanBranch::Mapped { units, sub_problem: sub, remaining: Some(s0) },
        ),
        lookup(es, sub) == Some(PlanBranch::Solved),
    ensures
        ({
            let ratio = CostVal::Finite { num: units as i64, den: s2.units as i64 };
            let a = cv_mul(cv_mul(cv_mul(cv_one(), cv_sub(cv_one(), ratio)), cv_one()), cv_one());
            let b = cv_add(
                cv_mul(
                    cv_add(cv_mul(cv_zero(), cv_sub(cv_one(), ratio)), cv_mul(ratio, cv_zero())),
                    cv_one(),
                ),
                cv_one(),
            );
            s_cost(es, s0, h) == (PlanCost {
                estimated: false,
                value: cv_div(cv_add(cv_mul(b, cv_one()), cv_one()), cv_sub(cv_one(), cv_mul(a, cv_one()))),
            })
        }),
{
    let v0 = Set::<State>::empty();
    let v1 = v0.insert(s0);
    let v2 = v1.insert(s1);
    let v3 = v2.insert(s2);
    assert(!v0.contains(s0) && !v1.contains(s1) && !v2.contains(s2));
    assert(v3.contains(s0));
    let rc0 = s_inner_cost(es, v3, s0, h);
    assert(rc0 == s_cycle_start(s0));
    let scs = s_inner_cost(es, Set::empty(), sub, h);
    assert(scs == InnerCost { estimated: false, value: LinCost::Value(cv_zero()) });
    let c2 = s_inner_cost(es, v2, s2, h);
    let c1 = s_inner_cost(es, v1, s1, h);
    let c0 = s_inner_cost(es, v0, s0, h);
    assert(c1.value == s_solve_linear(c2.value, s1, cv_one(), cv_one()));
    assert(c0.value == s_solve_linear(c1.value, s0, cv_one(), cv_one()));
}

/// Subtracting a proper fraction from one: `1 - u/d == (d-u)/d`.
proof fn lemma_cv_sub_from_one(u: i64, d: i64)
    requires
        1 <= d,
        0 <= u <= d,
    ensures
        cv_sub(cv_one(), CostVal::Finite { num: u, den: d }) == (CostVal::Finite {
            num: (d - u) as i64,
            den: d,
        }),
{
}

/// Multiplying one by a cost keeps its representation.
proof fn lemma_cv_one_mul(n: i64, d: i64)
    requires
        1 <= d,
    ensures
        cv_mul(cv_one(), CostVal::Finite { num: n, den: d }) == (CostVal::Finite { num: n, den: d }),
{
}

/// Multiplying a cost by one keeps its representation.
proof fn lemma_cv_mul_one(n: i64, d: i64)
    requires
        1 <= d,
    ensures
        cv_mul(CostVal::Finite { num: n, den: d }, cv_one()) == (CostVal::Finite { num: n, den: d }),
{
}

/// Multiplying zero by a cost keeps only the denominator, on either side.
proof fn lemma_cv_mul_zero(n: i64, d: i64)
    requires
        1 <= d,
    ensures
        cv_mul(cv_zero(), CostVal::Finite { num: n, den: d }) == (CostVal::Finite {
            num: 0i64,
            den: d,
        }),
        cv_mul(CostVal::Finite { num: n, den: d }, cv_zero()) == (CostVal::Finite {
            num: 0i64,
            den: d,
        }),
{
}

/// Adding two zero costs over the same denominator squares the denominator
/// and keeps the value zero.
proof fn lemma_cv_add_zero_same_den(d: i64)
    requires
        1 <= d <= 1000000,
    ensures
        cv_add(
            CostVal::Finite { num: 0i64, den: d },
            CostVal::Finite { num: 0i64, den: d },
        ) == (CostVal::Finite { num: 0i64, den: ((d as int) * (d as int)) as i64 }),
{
    assert(1 <= (d as int) * (d as int) <= 1000000000000) by (nonlinear_arith)
        requires
            1 <= d as int <= 1000000,
    ;
}

/// Adding one to a zero of denominator `m` gives `m/m`; adding one again
/// gives `2m/m`.
proof fn lemma_cv_add_one_steps(m: i64)
    requires
        1 <= m <= 1000000000000,
    ensures
        cv_add(CostVal::Finite { num: 0i64, den: m }, cv_one()) == (CostVal::Finite {
            num: m,
            den: m,
        }),
        cv_add(CostVal::Finite { num: m, den: m }, cv_one()) == (CostVal::Finite {
            num: (2 * m as int) as i64,
            den: m,
        }),
{
}

/// The closing division: `(2m/m) / (u/d)` denotes the rational `2d/u`.
proof fn lemma_cv_div_close(m: i64, u: i64, d: i64)
    requires
        1 <= m <= 1000000000000,
        1 <= u <= d,
        d <= 1000000,
    ensures
        cv_eq(
            cv_div(
                CostVal::Finite { num: (2 * m as int) as i64, den: m },
                CostVal::Finite { num: u, den: d },
            ),
            CostVal::Finite { num: (2 * d as int) as i64, den: u },
        ),
{
    let mi = m as int;
    let ui = u as int;
    let di = d as int;
    assert((2 * mi) * di <= 0x7fff_ffff_ffff_ffff && 1 <= mi * ui && mi * ui
        <= 0x7fff_ffff_ffff_ffff) by (nonlinear_arith)
        requires
            1 <= mi <= 1000000000000,
            1 <= ui <= di,
            di <= 1000000,
    ;
    assert(((2 * mi) * di) * ui == (2 * di) * (mi * ui)) by (nonlinear_arith);
}

/// The arithmetic of the closed form: folding `1 * x + 0` through the map
/// step (weight `1 - units/total`, solved sub-problem) and two throw steps,
/// then solving at the base, denotes `2 * total / units`.
#[verifier::spinoff_prover]
proof fn lemma_cycle_fold_value(units: u32, total: u32)
    requires
        1 <= units <= total,
        total <= 1000000,
    ensures
        ({
            let ratio = CostVal::Finite { num: units as i64, den: total as i64 };
            let a = cv_mul(cv_mul(cv_mul(cv_one(), cv_sub(cv_one(), ratio)), cv_one()), cv_one());
            let b = cv_add(
                cv_mul(
                    cv_add(
                        cv_mul(cv_zero(), cv_sub(cv_one(), ratio)),
                        cv_mul(ratio, cv_zero()),
                    ),
                    cv_one(),
                ),
                cv_one(),
            );
            cv_eq(
                cv_div(cv_add(cv_mul(b, cv_one()), cv_one()), cv_sub(cv_one(), cv_mul(a, cv_one()))),
                CostVal::Finite { num: (2 * total as int) as i64, den: units as i64 },
            )
        }),
{
    let n = total as i64;
    let u = units as i64;
    let ratio = CostVal::Finite { num: u, den: n };
    let p = CostVal::Finite { num: (n - u) as i64, den: n };
    lemma_cv_sub_from_one(u, n);
    assert(cv_sub(cv_one(), ratio) == p);
    lemma_cv_one_mul((n - u) as i64, n);
    assert(cv_mul(cv_one(), p) == p);
    lemma_cv_mul_one((n - u) as i64, n);
    assert(cv_mul(p, cv_one()) == p);
    let a = cv_mul(cv_mul(cv_mul(cv_one(), cv_sub(cv_one(), ratio)), cv_one()), cv_one());
    assert(a == p);
    lemma_cv_mul_zero((n - u) as i64, n);
    lemma_cv_mul_zero(u, n);
    assert(cv_mul(cv_zero(), cv_sub(cv_one(), ratio)) == (CostVal::Finite { num: 0i64, den: n }));
    assert(cv_mul(ratio, cv_zero()) == (CostVal::Finite { num: 0i64, den: n }));
    lemma_cv_add_zero_same_den(n);
    assert(1 <= (n as int) * (n as int) <= 1000000000000) by (nonlinear_arith)
        requires
            1 <= n as int <= 1000000,
    ;
    let m = ((n as int) * (n as int)) as i64;
    assert(cv_add(
        cv_mul(cv_zero(), cv_sub(cv_one(), ratio)),
        cv_mul(ratio, cv_zero()),
    ) == (CostVal::Finite { num: 0i64, den: m }));
    lemma_cv_mul_one(0i64, m);
    lemma_cv_add_one_steps(m);
    let b = cv_add(
        cv_mul(
            cv_add(cv_mul(cv_zero(), cv_sub(cv_one(), ratio)), cv_mul(ratio, cv_zero())),
            cv_one(),
        ),
        cv_one(),
    );
    assert(b == (CostVal::Finite { num: m, den: m }));
    lemma_cv_mul_one(m, m);
    assert(cv_mul(b, cv_one()) == b);
    assert(cv_add(cv_mul(b, cv_one()), cv_one()) == (CostVal::Finite {
        num: (2 * m as int) as i64,
        den: m,
    }));
    assert(cv_mul(a, cv_one()) == p);
    lemma_cv_sub_from_one((n - u) as i64, n);
    assert(cv_sub(cv_one(), cv_mul(a, cv_one())) == (CostVal::Finite { num: u, den: n }));
    lemma_cv_div_close(m, u, n);
}

/// The closed form of the two-throw loop, written out: with
/// `ratio = units / s2.units`, the affine fold reaches the start as
/// `x = (1 - ratio) x + 2`, and solving gives
/// `cost = 2 / ratio = 2 * s2.units / units` — for example `8/3` for a loop
/// whose mapping state holds 4 units and maps 3 of them away.
pub proof fn lemma_throw_throw_map_cycle_closed_form(
    es: Entries,
    s0: State,
    s1: State,
    s2: State,
    units: u32,
    sub: State,
    h: spec_fn(State) -> CostVal,
)
    requires
        cost_wf(es),
        has_key(es, s0),
        s0 != s1 && s0 != s2 && s1 != s2,
        lookup(es, s0) == Some(PlanBranch::Throw { next: s1 }),
        lookup(es, s1) == Some(PlanBranch::Throw { next: s2 }),
        lookup(es, s2) == Some(
            PlanBranch::Mapped { units, sub_problem: sub, remaining: Some(s0) },
        ),
        lookup(es, sub) == Some(PlanBranch::Solved),
        1 <= units <= s2.units,
        s2.units <= 1000000,
    ensures
        !s_cost(es, s0, h).estimated,
        cv_eq(
            s_cost(es, s0, h).value,
            CostVal::Finite { num: (2 * s2.units as int) as i64, den: units as i64 },
        ),
{
    lemma_cost_throw_throw_map_cycle(es, s0, s1, s2, units, sub, h);
    lemma_cycle_fold_value(units, s2.units);
}

impl LinCost {
    /// Solve `x = p * self + q` for `x`, where `self` may still depend on the
    /// unknown cost of a cycle base.
    pub fn solve_linear_equation(self, state: State, p: CostVal, q: CostVal) -> (r: LinCost)
        requires
            lin_wf(self),
            cv_wf(p),
            cv_wf(q),
        ensures
            r == s_solve_linear(self, state, p, q),
            lin_wf(r),
    {
        match self {
            LinCost::Value(z) => LinCost::Value(p.mul(z).add(q)),
            LinCost::Cycle { base, a, b } => {
                if base != state {
                    LinCost::Cycle { base, a: a.mul(p), b: b.mul(p).add(q) }
                } else {
                    LinCost::Value(b.mul(p).add(q).div(CostVal::one().sub(a.mul(p))))
                }
            },
        }
    }
}

/// Whether `s` occurs in the path list.
fn contains_state(v: &Vec<State>, s: State) -> (r: bool)
    ensures
        r == v@.contains(s),
{
    let mut i: usize = 0;
    while i < v.len()
        invariant
            i <= v@.len(),
            forall|j: int| 0 <= j < i as int ==> v@[j] != s,
        decreases v@.len() - i,
    {
        if v[i] == s {
            return true;
        }
        i += 1;
    }
    false
}

impl Plan {
    fn inner_cost<H: Heuristic>(&self, visited: Vec<State>, state: State, h: &mut H) -> (r:
        InnerCost)
        requires
            cost_wf(self.plans@),
            has_key(self.plans@, state),
            visited@.no_duplicates(),
            forall|j: int|
                0 <= j < visited@.len() ==> has_key(self.plans@, #[trigger] visited@[j]),
        ensures
            r == s_inner_cost(self.plans@, visited@.to_set(), state, hfun(*old(h))),
            lin_wf(r.value),
            forall|q: State|
                #[trigger] final(h).spec_estimate(q) == old(h).spec_estimate(q),
        decreases state.target, self.plans@.len() - visited@.len(),
    {
        let ghost es = self.plans@;
        let ghost vset = visited@.to_set();
        let ghost h0 = *h;
        proof {
            broadcast use vstd::seq_lib::seq_to_set_is_finite;

            visited@.unique_seq_to_set();
            assert forall|q: State| vset.contains(q) implies #[trigger] has_key(es, q) by {
                assert(visited@.contains(q));
                let j = choose|j: int| 0 <= j < visited@.len() && visited@[j] == q;
                assert(has_key(es, visited@[j]));
            }
            assert(s_cost_guard(es, vset, state));
            lemma_visited_bound(es, vset);
            let i = key_index(es, state);
            assert(0 <= i < es.len() && es[i].0 == state);
            assert(cost_branch_wf(es, state, es[i].1));
            assert(lookup(es, state) == Some(es[i].1));
        }
        let branch = self.get_branch(state);
        let result = match branch {
            Some(PlanBranch::Solved) => InnerCost {
                estimated: false,
                value: LinCost::Value(CostVal::zero()),
            },
            Some(PlanBranch::Pending { .. }) => {
                let e = h.estimate(state);
                proof {
                    assert(hfun(h0)(state) == h0.spec_estimate(state));
                }
                InnerCost { estimated: true, value: LinCost::Value(e) }
            },
            Some(PlanBranch::Throw { next }) => {
                if contains_state(&visited, state) {
                    proof {
                        assert(vset.contains(state));
                    }
                    InnerCost {
                        estimated: false,
                        value: LinCost::Cycle { base: state, a: CostVal::one(), b: CostVal::zero() },
                    }
                } else {
                    let mut v2 = visited;
                    v2.push(state);
                    proof {
                        assert forall|x: State| v2@.to_set().contains(x) <==> vset.insert(
                            state,
                        ).contains(x) by {
                            assert(v2@.contains(x) <==> visited@.contains(x) || x == state);
                        }
                        assert(v2@.to_set() =~= vset.insert(state));
                        assert forall|p: int, q: int| 0 <= p < q < v2@.len() implies v2@[p]
                            != v2@[q] by {
                            if q == v2@.len() - 1 {
                                assert(v2@[p] == visited@[p]);
                                assert(visited@.contains(visited@[p]));
                            }
                        }
                        assert(v2@.no_duplicates());
                        v2@.unique_seq_to_set();
                        assert(!vset.contains(state));
                        assert(vset.insert(state).len() == vset.len() + 1);
                        lemma_visited_bound(es, vset.insert(state));
                    }
                    proof {
                        assert forall|j: int| 0 <= j < v2@.len() implies has_key(
                            es,
                            #[trigger] v2@[j],
                        ) by {
                            if j < visited@.len() {
                                assert(v2@[j] == visited@[j]);
                            }
                        }
                    }
                    let nc = self.inner_cost(v2, next, h);
                    let value = nc.value.solve_linear_equation(state, CostVal::one(), CostVal::one());
                    InnerCost { estimated: nc.estimated, value }
                }
            },
            Some(PlanBranch::Mapped { units, sub_problem, remaining }) => {
                if contains_state(&visited, state) {
                    proof {
                        assert(vset.contains(state));
                    }
                    InnerCost {
                        estimated: false,
                        value: LinCost::Cycle { base: state, a: CostVal::one(), b: CostVal::zero() },
                    }
                } else {
                    let empty_path: Vec<State> = Vec::new();
                    proof {
                        assert(empty_path@.to_set() =~= Set::<State>::empty());
                    }
                    let sc = self.inner_cost(empty_path, sub_problem, h);
                    proof {
                        lemma_cost_settles(es, sub_problem, hfun(h0));
                    }
                    let ghost h1 = *h;
                    let sub_val = match sc.value {
                        LinCost::Value(z) => z,
                        LinCost::Cycle { .. } => {
                            proof {
                                assert(false);
                            }
                            CostVal::NonFinite
                        },
                    };
                    match remaining {
                        None => InnerCost { estimated: sc.estimated, value: LinCost::Value(sub_val) },
                        Some(r) => {
                            let ratio = CostVal::finite(units as i64, state.units as i64);
                            let p = CostVal::one().sub(ratio);
                            let q = ratio.mul(sub_val);
                            let mut v2 = visited;
                            v2.push(state);
                            proof {
                                assert forall|x: State| v2@.to_set().contains(x)
                                    <==> vset.insert(state).contains(x) by {
                                    assert(v2@.contains(x) <==> visited@.contains(x) || x
                                        == state);
                                }
                                assert(v2@.to_set() =~= vset.insert(state));
                                assert forall|m: int, n: int| 0 <= m < n < v2@.len() implies v2@[m]
                                    != v2@[n] by {
                                    if n == v2@.len() - 1 {
                                        assert(v2@[m] == visited@[m]);
                                        assert(visited@.contains(visited@[m]));
                                    }
                                }
                                assert(v2@.no_duplicates());
                                v2@.unique_seq_to_set();
                                assert(!vset.contains(state));
                                assert(vset.insert(state).len() == vset.len() + 1);
                                lemma_visited_bound(es, vset.insert(state));
                            }
                            proof {
                                assert forall|j: int| 0 <= j < v2@.len() implies has_key(
                                    es,
                                    #[trigger] v2@[j],
                                ) by {
                                    if j < visited@.len() {
                                        assert(v2@[j] == visited@[j]);
                                    }
                                }
                            }
                            let rc = self.inner_cost(v2, r, h);
                            proof {
                                assert forall|q: State| #[trigger] hfun(h1)(q) == hfun(h0)(
                                    q,
                                ) by {
                                    assert(h1.spec_estimate(q) == h0.spec_estimate(q));
                                }
                                lemma_cost_heuristic_agrees(
                                    es,
                                    vset.insert(state),
                                    r,
                                    hfun(h1),
                                    hfun(h0),
                                );
                            }
                            let value = rc.value.solve_linear_equation(state, p, q);
                            InnerCost { estimated: sc.estimated || rc.estimated, value }
                        },
                    }
                }
            },
            None => {
                proof {
                    assert(false);
                }
                InnerCost { estimated: true, value: LinCost::Value(CostVal::NonFinite) }
            },
        };
        proof {
            assert(result == s_inner_cost(es, vset, state, hfun(h0)));
        }
        result
    }

    /// The expected cost of this plan from its start state, using `heuristic`
    /// for every pending state reached. The result is exactly the evaluation
    /// of the stored graph under the estimator's function, tainted as
    /// estimated precisely when a pending state entered it.
    pub fn cost<H: Heuristic>(&self, heuristic: &mut H) -> (r: PlanCost)
        requires
            self.wf(),
        ensures
            r == s_cost(self.plans@, self.start, hfun(*old(heuristic))),
            cv_wf(r.value),
            forall|q: State|
                #[trigger] final(heuristic).spec_estimate(q) == old(heuristic).spec_estimate(q),
    {
        proof {
            lemma_plan_wf_cost_wf(self.plans@, self.start);
        }
        let empty_path: Vec<State> = Vec::new();
        proof {
            assert(empty_path@.to_set() =~= Set::<State>::empty());
        }
        let start = self.start();
        let ic = self.inner_cost(empty_path, start, heuristic);
        proof {
            lemma_cost_settles(self.plans@, self.start, hfun(*old(heuristic)));
        }
        let value = match ic.value {
            LinCost::Value(z) => z,
            LinCost::Cycle { .. } => {
                proof {
                    assert(false);
                }
                CostVal::NonFinite
            },
        };
        PlanCost { estimated: ic.estimated, value }
    }

    /// The confirmed cost of this plan: its cost under the zero estimator,
    /// exactly when no heuristic value entered the evaluation — `Some` for
    /// every fully resolved plan, `None` whenever a pending state is reached.
    pub fn exact_cost(&self) -> (r: Option<CostVal>)
        requires
            self.wf(),
        ensures
            r == s_exact_cost(self.plans@, self.start),
            r matches Some(c) ==> cv_wf(c),
    {
        let mut zh = ZeroHeuristic;
        let c = self.cost(&mut zh);
        proof {
            lemma_plan_wf_cost_wf(self.plans@, self.start);
            lemma_cost_heuristic_agrees(
                self.plans@,
                Set::empty(),
                self.start,
                hfun(ZeroHeuristic),
                zero_h(),
            );
        }
        if c.estimated {
            None
        } else {
            Some(c.value)
        }
    }
}

} // verus!
