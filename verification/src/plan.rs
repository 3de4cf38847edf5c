use vstd::prelude::*;

use crate::divider::divisor_entry_ok;
use crate::divider::is_table_divisor;
use crate::state::Action;
use crate::state::State;

verus! {

broadcast use vstd::seq_lib::lemma_seq_contains_after_push;

/// The association list a plan graph stores: each state that has been brought
/// into the plan, paired with its resolution.
pub type Entries = Seq<(State, PlanBranch)>;

/// Per-state resolution status inside a plan graph.
#[derive(Debug, Clone, Copy, PartialEq, Eq, Structural)]
pub enum PlanBranch {
    /// Terminal: the state's target is already 1; cost 0.
    Solved,
    /// Not yet decided; `min_map_units` is the smallest admissible unit count
    /// for a future map move at this state.
    Pending { min_map_units: u32 },
    /// Decided: throw once more; `next` carries the amplified units.
    Throw { next: State },
    /// Decided: commit `units` units to `sub_problem` (target divided by
    /// `units`); any leftover units continue in `remaining`.
    Mapped { units: u32, sub_problem: State, remaining: Option<State> },
}

/// Why an `apply` call was rejected.
#[derive(Debug, Clone, Copy, PartialEq, Eq, Structural)]
pub enum ApplyError {
    /// The given state is absent from the graph.
    StateDoesNotExist,
    /// The given state has already been resolved.
    StateNotPending,
    /// The requested unit count does not divide the state's target.
    MapDoesNotDivide,
    /// The requested unit count is below the state's admissible floor.
    MapToFewUnits,
}

pub open spec fn keys_distinct(es: Entries) -> bool {
    forall|i: int, j: int| 0 <= i < j < es.len() ==> (#[trigger] es[i]).0 != (#[trigger] es[j]).0
}

pub open spec fn has_key(es: Entries, s: State) -> bool {
    exists|i: int| 0 <= i < es.len() && (#[trigger] es[i]).0 == s
}

pub open spec fn key_index(es: Entries, s: State) -> int {
    choose|i: int| 0 <= i < es.len() && (#[trigger] es[i]).0 == s
}

/// The branch stored for `s`, or `None` when `s` is not in the graph.
pub open spec fn lookup(es: Entries, s: State) -> Option<PlanBranch> {
    if has_key(es, s) {
        Some(es[key_index(es, s)].1)
    } else {
        None
    }
}

pub open spec fn is_pending(es: Entries, s: State) -> bool {
    lookup(es, s) matches Some(PlanBranch::Pending { .. })
}

/// The admissible floor of a pending state (0 when the state is not pending).
pub open spec fn floor_of(es: Entries, s: State) -> u32 {
    match lookup(es, s) {
        Some(PlanBranch::Pending { min_map_units }) => min_map_units,
        _ => 0,
    }
}

/// `(s, MapUnits(u))` is an applicable candidate: `s` is pending and `u` is
/// an admissible unit count for a map move at `s`.
pub open spec fn map_candidate(es: Entries, s: State, u: u32) -> bool {
    &&& is_pending(es, s)
    &&& u >= floor_of(es, s)
    &&& 2 <= u <= s.units
    &&& s.target as int % u as int == 0
}

/// The pair `(s, a)` may be applied to the graph as it stands.
pub open spec fn action_valid(es: Entries, s: State, a: Action) -> bool {
    match a {
        Action::Throw => is_pending(es, s),
        Action::MapUnits(u) => map_candidate(es, s, u),
    }
}

/// The state reached by a throw move.
pub open spec fn throw_next(s: State) -> State {
    State { source: s.source, target: s.target, units: ((s.units as int) * (s.source as int)) as u32 }
}

/// The sub-problem created by mapping `u` units.
pub open spec fn map_sub(s: State, u: u32) -> State {
    State { source: s.source, target: ((s.target as int) / (u as int)) as u32, units: 1 }
}

/// The leftover state after mapping `u` of the state's units.
pub open spec fn map_rem(s: State, u: u32) -> State {
    State { source: s.source, target: s.target, units: (s.units - u) as u32 }
}

/// What inserting a state leaves behind: an existing entry is kept untouched;
/// a new state enters as `Solved` when already at target 1, else as `Pending`
/// with the given floor.
pub open spec fn ensured(es: Entries, s: State, floor: u32) -> Entries {
    if has_key(es, s) {
        es
    } else if s.target == 1 {
        es.push((s, PlanBranch::Solved))
    } else {
        es.push((s, PlanBranch::Pending { min_map_units: floor }))
    }
}

/// The entries with the branch of the (present) key `s` replaced by `b`.
pub open spec fn set_branch(es: Entries, s: State, b: PlanBranch) -> Entries {
    es.update(key_index(es, s), (s, b))
}

/// Structural soundness of one stored branch with respect to the whole list:
/// every referenced state is itself present, a throw keeps source and target
/// and multiplies the units, and a map move commits at least 2 units that
/// divide the target exactly, leaving any remainder at the same target.
pub open spec fn branch_wf(es: Entries, s: State, b: PlanBranch) -> bool {
    match b {
        PlanBranch::Solved => true,
        PlanBranch::Pending { min_map_units } => min_map_units >= 2 && s.target != 1,
        PlanBranch::Throw { next } => {
            &&& has_key(es, next)
            &&& next.source == s.source
            &&& next.target == s.target
            &&& next.units as int == (s.units as int) * (s.source as int)
        },
        PlanBranch::Mapped { units, sub_problem, remaining } => {
            &&& has_key(es, sub_problem)
            &&& units >= 2
            &&& units <= s.units
            &&& (units as int) * (sub_problem.target as int) == s.target as int
            &&& sub_problem.source == s.source
            &&& sub_problem.units == 1
            &&& match remaining {
                Some(r) => {
                    &&& has_key(es, r)
                    &&& r.source == s.source
                    &&& r.target == s.target
                    &&& r.units as int == s.units - units
                    &&& units < s.units
                },
                None => units == s.units,
            }
        },
    }
}

/// The plan-graph invariant: keys are unique, the start state is present,
/// every stored branch is structurally sound, and every state belongs to the
/// same problem instance (same source, target dividing the start target).
pub open spec fn plan_wf(es: Entries, start: State) -> bool {
    &&& start.target >= 1
    &&& keys_distinct(es)
    &&& has_key(es, start)
    &&& forall|i: int|
        0 <= i < es.len() ==> branch_wf(es, (#[trigger] es[i]).0, es[i].1)
    &&& forall|i: int|
        0 <= i < es.len() ==> {
            let k = (#[trigger] es[i]).0;
            &&& k.source == start.source
            &&& 1 <= k.target <= start.target
            &&& start.target as int % k.target as int == 0
        }
}

/// A plan with no pending state left: its cost needs no heuristic estimate.
pub open spec fn fully_resolved(es: Entries) -> bool {
    forall|i: int| 0 <= i < es.len() ==> !((#[trigger] es[i]).1 is Pending)
}

/// No state is stored as `Solved` unless its target really is 1: plans grown
/// only through `new` and `apply` never fake a terminal state.
pub open spec fn solved_only_at_one(es: Entries) -> bool {
    forall|i: int| 0 <= i < es.len() ==> ((#[trigger] es[i]).1 is Solved ==> es[i].0.target == 1)
}

/// A mutable graph of states and chosen moves, rooted at `start`. It grows
/// only through `apply`, which resolves exactly one pending state at a time.
#[derive(Debug, Clone)]
pub struct Plan {
    pub start: State,
    pub plans: Vec<(State, PlanBranch)>,
}

impl Plan {
    pub open spec fn wf(&self) -> bool {
        plan_wf(self.plans@, self.start)
    }

    pub open spec fn spec_get(&self, s: State) -> Option<PlanBranch> {
        lookup(self.plans@, s)
    }

    /// A fresh plan holding only `start`, pending (or solved when its target
    /// is already 1).
    pub fn new(start: State) -> (p: Plan)
        requires
            start.target >= 1,
        ensures
            p.wf(),
            p.start == start,
            p.plans@ == ensured(Seq::<(State, PlanBranch)>::empty(), start, 2),
            p.spec_get(start) == Some(
                if start.target == 1 {
                    PlanBranch::Solved
                } else {
                    PlanBranch::Pending { min_map_units: 2 }
                },
            ),
            solved_only_at_one(p.plans@),
    {
        let mut plan = Plan { start, plans: Vec::new() };
        proof {
            assert(plan.plans@ =~= Seq::<(State, PlanBranch)>::empty());
        }
        plan.ensure_state(start, 2);
        proof {
            assert(plan.plans@.len() == 1);
            assert(plan.plans@[0].0 == start);
            assert(has_key(plan.plans@, start));
            assert(key_index(plan.plans@, start) == 0);
            assert(start.target as int % start.target as int == 0) by (nonlinear_arith)
                requires
                    start.target >= 1,
            ;
        }
        plan
    }

    /// The state this plan was rooted at.
    pub fn start(&self) -> (s: State)
        ensures
            s == self.start,
    {
        self.start
    }

    /// The stored entries: each state brought into the plan with its branch.
    pub fn plans(&self) -> (r: &Vec<(State, PlanBranch)>)
        ensures
            r@ == self.plans@,
    {
        &self.plans
    }

    /// The branch stored for `s`, if any.
    pub fn get_branch(&self, s: State) -> (r: Option<PlanBranch>)
        requires
            keys_distinct(self.plans@),
        ensures
            r == self.spec_get(s),
    {
        let mut i: usize = 0;
        while i < self.plans.len()
            invariant
                keys_distinct(self.plans@),
                i <= self.plans@.len(),
                forall|j: int| 0 <= j < i as int ==> (#[trigger] self.plans@[j]).0 != s,
            decreases self.plans@.len() - i,
        {
            let (k, b) = self.plans[i];
            if k == s {
                proof {
                    assert(has_key(self.plans@, s));
                    let j = key_index(self.plans@, s);
                    assert(0 <= j < self.plans@.len() && self.plans@[j].0 == s);
                    assert(j == i as int);
                }
                return Some(b);
            }
            i += 1;
        }
        proof {
            assert(!has_key(self.plans@, s));
        }
        None
    }

    /// Insert `state` if absent: solved when its target is 1, pending with the
    /// given floor otherwise. Present states are left untouched.
    fn ensure_state(&mut self, state: State, min_map_units: u32)
        requires
            keys_distinct(old(self).plans@),
        ensures
            final(self).plans@ == ensured(old(self).plans@, state, min_map_units),
            final(self).start == old(self).start,
            keys_distinct(final(self).plans@),
            has_key(final(self).plans@, state),
            lookup(final(self).plans@, state) == (match lookup(old(self).plans@, state) {
                Some(b) => Some(b),
                None => Some(
                    if state.target == 1 {
                        PlanBranch::Solved
                    } else {
                        PlanBranch::Pending { min_map_units }
                    },
                ),
            }),
            forall|q: State|
                q != state ==> #[trigger] lookup(final(self).plans@, q) == lookup(
                    old(self).plans@,
                    q,
                ),
    {
        let present = self.get_branch(state).is_some();
        let ghost pre = self.plans@;
        if !present {
            let branch = if state.target == 1 {
                PlanBranch::Solved
            } else {
                PlanBranch::Pending { min_map_units }
            };
            self.plans.push((state, branch));
            proof {
                lemma_lookup_push(pre, (state, branch), state);
                assert forall|q: State| q != state implies #[trigger] lookup(self.plans@, q)
                    == lookup(pre, q) by {
                    lemma_lookup_push(pre, (state, branch), q);
                }
            }
        }
    }

    /// Replace the branch of the (present) key `s` with `b`.
    fn put_branch(&mut self, s: State, b: PlanBranch)
        requires
            keys_distinct(old(self).plans@),
            has_key(old(self).plans@, s),
        ensures
            final(self).plans@ == set_branch(old(self).plans@, s, b),
            final(self).start == old(self).start,
            keys_distinct(final(self).plans@),
            lookup(final(self).plans@, s) == Some(b),
            forall|q: State|
                q != s ==> #[trigger] lookup(final(self).plans@, q) == lookup(old(self).plans@, q),
    {
        let ghost pre = self.plans@;
        let mut i: usize = 0;
        while i < self.plans.len()
            invariant
                pre == old(self).plans@,
                self.plans@ == pre,
                self.start == old(self).start,
                keys_distinct(pre),
                has_key(pre, s),
                i <= pre.len(),
                forall|j: int| 0 <= j < i as int ==> (#[trigger] pre[j]).0 != s,
            decreases pre.len() - i,
        {
            let (k, _) = self.plans[i];
            if k == s {
                vstd::pervasive::VecAdditionalExecFns::set(&mut self.plans, i, (s, b));
                proof {
                    assert(pre[key_index(pre, s)].0 == s);
                    assert(key_index(pre, s) == i as int);
                    lemma_lookup_update(pre, s, b);
                }
                return;
            }
            i += 1;
        }
        proof {
            assert(!has_key(pre, s));
            assert(false);
        }
    }

    /// Every candidate move currently open: for each pending state, a throw,
    /// and one map per table divisor of its target that is within both the
    /// state's units and its admissible floor. The list is sound (every pair
    /// is applicable) and complete (every applicable pair is listed).
    pub fn possible_actions(&self, divider: &crate::divider::Divider) -> (actions: Vec<
        (State, Action),
    >)
        requires
            self.wf(),
            divider.wf(),
            divider.spec_target() == self.start.target as int,
        ensures
            forall|n: int|
                0 <= n < actions@.len() ==> action_valid(
                    self.plans@,
                    (#[trigger] actions@[n]).0,
                    actions@[n].1,
                ),
            forall|s: State|
                is_pending(self.plans@, s) ==> #[trigger] actions@.contains((s, Action::Throw)),
            forall|s: State, u: u32|
                map_candidate(self.plans@, s, u) ==> #[trigger] actions@.contains(
                    (s, Action::MapUnits(u)),
                ),
            actions@.no_duplicates(),
    {
        let ghost es = self.plans@;
        let ghost t = self.start.target as int;
        let mut actions: Vec<(State, Action)> = Vec::new();
        let mut i: usize = 0;
        while i < self.plans.len()
            invariant
                es == self.plans@,
                t == self.start.target as int,
                self.wf(),
                divider.wf(),
                divider.spec_target() == t,
                i <= es.len(),
                forall|n: int|
                    0 <= n < actions@.len() ==> action_valid(
                        es,
                        (#[trigger] actions@[n]).0,
                        actions@[n].1,
                    ),
                forall|j: int|
                    0 <= j < i as int && (#[trigger] es[j]).1 is Pending
                        ==> actions@.contains((es[j].0, Action::Throw)),
                forall|j: int, u: u32|
                    #![trigger actions@.contains((es[j].0, Action::MapUnits(u)))]
                    0 <= j < i as int && map_candidate(es, es[j].0, u) ==> actions@.contains(
                        (es[j].0, Action::MapUnits(u)),
                    ),
                actions@.no_duplicates(),
                forall|n: int|
                    0 <= n < actions@.len() ==> exists|j: int|
                        0 <= j < i as int && (#[trigger] actions@[n]).0 == es[j].0,
            decreases es.len() - i,
        {
            let (state, branch) = self.plans[i];
            proof {
                lemma_entry_lookup(es, i as int);
            }
            if let PlanBranch::Pending { min_map_units } = branch {
                proof {
                    assert(lookup(es, state) == Some(PlanBranch::Pending { min_map_units }));
                    assert(branch_wf(es, state, PlanBranch::Pending { min_map_units }));
                    assert(state.target != 1 && min_map_units >= 2);
                    assert(1 <= state.target <= self.start.target
                        && t % state.target as int == 0);
                }
                let ghost before_throw = actions@;
                actions.push((state, Action::Throw));
                proof {
                    assert forall|n: int| 0 <= n < before_throw.len() implies (
                    #[trigger] before_throw[n]).0 != state by {
                        let j = choose|j: int|
                            0 <= j < i as int && before_throw[n].0 == es[j].0;
                        assert(es[j].0 != es[i as int].0);
                    }
                    assert(actions@.no_duplicates());
                }
                let divs = divider.divisors(state.target);
                let mut k: usize = 0;
                while k < divs.len() && divs[k] <= state.units
                    invariant
                        es == self.plans@,
                        t == self.start.target as int,
                        divider.wf(),
                        divider.spec_target() == t,
                        divs@ == divider.all_divisors@[state.target as int]@,
                        divisor_entry_ok(t, state.target as int, divs@),
                        is_pending(es, state),
                        floor_of(es, state) == min_map_units,
                        state.target != 1,
                        k <= divs@.len(),
                        forall|n: int|
                            0 <= n < actions@.len() ==> action_valid(
                                es,
                                (#[trigger] actions@[n]).0,
                                actions@[n].1,
                            ),
                        forall|j: int|
                            0 <= j < i as int && (#[trigger] es[j]).1 is Pending
                                ==> actions@.contains((es[j].0, Action::Throw)),
                        forall|j: int, u: u32|
                            #![trigger actions@.contains((es[j].0, Action::MapUnits(u)))]
                            0 <= j < i as int && map_candidate(es, es[j].0, u)
                                ==> actions@.contains((es[j].0, Action::MapUnits(u))),
                        actions@.contains((state, Action::Throw)),
                        forall|m: int| 0 <= m < k as int ==> #[trigger] divs@[m] <= state.units,
                        forall|m: int|
                            0 <= m < k as int && divs@[m] >= min_map_units ==> actions@.contains(
                                (state, Action::MapUnits(#[trigger] divs@[m])),
                            ),
                        actions@.no_duplicates(),
                        forall|n: int|
                            0 <= n < actions@.len() ==> ((exists|j: int|
                                0 <= j < i as int && (#[trigger] actions@[n]).0 == es[j].0)
                                || actions@[n].0 == state),
                        forall|n: int|
                            0 <= n < actions@.len() && (#[trigger] actions@[n]).0 == state
                                ==> (actions@[n].1 == Action::Throw || exists|m: int|
                                0 <= m < k as int && actions@[n].1 == Action::MapUnits(
                                    divs@[m],
                                )),
                    decreases divs@.len() - k,
                {
                    let u = divs[k];
                    if u >= min_map_units {
                        let ghost before = actions@;
                        proof {
                            assert(is_table_divisor(t, u as int)
                                && state.target as int % u as int == 0);
                            assert(map_candidate(es, state, u));
                            assert forall|n: int| 0 <= n < before.len() implies #[trigger] before[n]
                                != (state, Action::MapUnits(u)) by {
                                if before[n].0 == state {
                                    match before[n].1 {
                                        Action::Throw => {},
                                        Action::MapUnits(u2) => {
                                            let m = choose|m: int|
                                                0 <= m < k as int && before[n].1
                                                    == Action::MapUnits(divs@[m]);
                                            assert(divs@[m] < divs@[k as int]);
                                        },
                                    }
                                } else {
                                    let j = choose|j: int|
                                        0 <= j < i as int && before[n].0 == es[j].0;
                                }
                            }
                        }
                        actions.push((state, Action::MapUnits(u)));
                        proof {
                            assert(actions@.no_duplicates());
                        }
                    }
                    k += 1;
                }
                proof {
                    assert forall|u: u32| map_candidate(es, state, u)
                        implies actions@.contains((state, Action::MapUnits(u))) by {
                        assert(u >= 2 && state.target as int % u as int == 0);
                        if u as int > state.target as int {
                            vstd::arithmetic::div_mod::lemma_small_mod(
                                state.target as nat,
                                u as nat,
                            );
                            assert(false);
                        }
                        lemma_divides_transitive(t, state.target as int, u as int);
                        assert(is_table_divisor(t, u as int));
                        assert(divs@.contains(u));
                        let m = choose|m: int| 0 <= m < divs@.len() && divs@[m] == u;
                        if m >= k as int {
                            assert((k as int) < divs@.len());
                            assert(divs@[k as int] > state.units);
                            if m > k as int {
                                assert(divs@[k as int] < divs@[m]);
                            }
                            assert(divs@[m] > state.units);
                            assert(false);
                        }
                        assert(divs@[m] >= min_map_units);
                        assert(actions@.contains((state, Action::MapUnits(divs@[m]))));
                    }
                }
            }
            proof {
                assert forall|n: int| 0 <= n < actions@.len() implies exists|j: int|
                    0 <= j <= i as int && (#[trigger] actions@[n]).0 == es[j].0 by {
                    if actions@[n].0 == state {
                        assert(0 <= i as int <= i as int && actions@[n].0 == es[i as int].0);
                    } else {
                        let j = choose|j: int| 0 <= j < i as int && actions@[n].0 == es[j].0;
                        assert(0 <= j <= i as int && actions@[n].0 == es[j].0);
                    }
                }
            }
            i += 1;
        }
        proof {
            assert forall|s: State| is_pending(es, s) implies #[trigger] actions@.contains(
                (s, Action::Throw),
            ) by {
                let j = key_index(es, s);
                assert(0 <= j < es.len() && es[j].0 == s);
                assert(lookup(es, s) == Some(es[j].1));
                assert(es[j].1 is Pending);
                assert(actions@.contains((es[j].0, Action::Throw)));
            }
            assert forall|s: State, u: u32| map_candidate(es, s, u)
                implies #[trigger] actions@.contains((s, Action::MapUnits(u))) by {
                let j = key_index(es, s);
                assert(0 <= j < es.len() && es[j].0 == s);
                assert(map_candidate(es, es[j].0, u));
                assert(actions@.contains((es[j].0, Action::MapUnits(u))));
            }
        }
        actions
    }

    /// Resolve one pending state with the given move. Exactly when `state` is
    /// pending and the move is admissible, the move's target states are
    /// inserted (untouched when already present) and `state`'s branch becomes
    /// that move; otherwise the error says what was wrong and the plan is
    /// unchanged. A state once resolved is never changed again, and every
    /// state a stored branch references stays present.
    pub fn apply(&mut self, state: State, action: Action) -> (r: Result<(), ApplyError>)
        requires
            old(self).wf(),
            match action {
                Action::Throw => is_pending(old(self).plans@, state) ==> (state.units as int)
                    * (state.source as int) <= u32::MAX as int,
                Action::MapUnits(u) => is_pending(old(self).plans@, state) ==> {
                    &&& u >= 1
                    &&& (state.target as int % u as int == 0 && u >= floor_of(
                        old(self).plans@,
                        state,
                    )) ==> u <= state.units
                },
            },
        ensures
            final(self).start == old(self).start,
            final(self).wf(),
            r == apply_result(old(self).plans@, state, action),
            r is Ok ==> final(self).plans@ == apply_ok_entries(old(self).plans@, state, action),
            r is Ok ==> is_pending(old(self).plans@, state),
            r is Ok ==> forall|q: State|
                #[trigger] lookup(final(self).plans@, q) == spec_apply_lookup(
                    old(self).plans@,
                    state,
                    action,
                    q,
                ),
            r is Err ==> final(self).plans@ == old(self).plans@,
            forall|q: State|
                lookup(old(self).plans@, q) == Some(PlanBranch::Solved)
                    ==> #[trigger] lookup(final(self).plans@, q) == Some(PlanBranch::Solved),
            forall|q: State|
                q != state && lookup(old(self).plans@, q) is Some
                    ==> #[trigger] lookup(final(self).plans@, q) == lookup(old(self).plans@, q),
            solved_only_at_one(old(self).plans@) ==> solved_only_at_one(final(self).plans@),
    {
        let ghost es0 = old(self).plans@;
        let ghost start0 = old(self).start;
        let branch = self.get_branch(state);
        let min_map_units: u32;
        match branch {
            None => {
                return Err(ApplyError::StateDoesNotExist);
            },
            Some(PlanBranch::Pending { min_map_units: m }) => {
                min_map_units = m;
            },
            Some(_) => {
                return Err(ApplyError::StateNotPending);
            },
        }
        proof {
            assert(lookup(es0, state) == Some(PlanBranch::Pending { min_map_units }));
            let jj = key_index(es0, state);
            assert(0 <= jj < es0.len() && es0[jj].0 == state);
            lemma_entry_lookup(es0, jj);
            assert(es0[jj].1 == PlanBranch::Pending { min_map_units });
            assert(branch_wf(es0, state, PlanBranch::Pending { min_map_units }));
            assert(min_map_units >= 2 && state.target != 1);
            assert(state.source == start0.source && 1 <= state.target <= start0.target
                && start0.target as int % state.target as int == 0);
        }
        match action {
            Action::Throw => {
                let next = State {
                    source: state.source,
                    target: state.target,
                    units: state.units * state.source,
                };
                proof {
                    assert(next == throw_next(state));
                }
                self.ensure_state(next, 2);
                let ghost es1 = self.plans@;
                proof {
                    assert(lookup(es1, state) is Some);
                    assert(has_key(es1, state));
                }
                let newb = PlanBranch::Throw { next };
                self.put_branch(state, newb);
                proof {
                    let f = self.plans@;
                    assert(forall|i: int| 0 <= i < es0.len() ==> es1[i] == es0[i]);
                    assert(has_key(es1, next));
                    lemma_lookup_update(es1, state, newb);
                    assert(has_key(f, next)) by {
                        let m = key_index(es1, next);
                        assert(0 <= m < es1.len() && es1[m].0 == next);
                        assert(f[m].0 == next);
                    }
                    assert(branch_wf(f, state, newb));
                    lemma_apply_wf(es0, es1, f, start0, state, newb);
                    assert forall|q: State| #[trigger] lookup(f, q) == spec_apply_lookup(
                        es0,
                        state,
                        Action::Throw,
                        q,
                    ) by {
                        if q == state {
                        } else {
                            assert(lookup(f, q) == lookup(es1, q));
                        }
                    }
                    assert forall|q: State| q != state && lookup(es0, q) is Some
                        implies #[trigger] lookup(f, q) == lookup(es0, q) by {
                        assert(lookup(f, q) == lookup(es1, q));
                    }
                    assert forall|q: State| lookup(es0, q) == Some(PlanBranch::Solved)
                        implies #[trigger] lookup(f, q) == Some(PlanBranch::Solved) by {
                        assert(q != state);
                        assert(lookup(es0, q) is Some);
                    }
                }
                Ok(())
            },
            Action::MapUnits(units) => {
                if state.target % units != 0 {
                    return Err(ApplyError::MapDoesNotDivide);
                }
                if units < min_map_units {
                    return Err(ApplyError::MapToFewUnits);
                }
                proof {
                    vstd::arithmetic::div_mod::lemma_fundamental_div_mod(
                        state.target as int,
                        units as int,
                    );
                    assert((units as int) * ((state.target as int) / (units as int))
                        == state.target as int);
                    assert((state.target as int) / (units as int) >= 1) by (nonlinear_arith)
                        requires
                            (units as int) * ((state.target as int) / (units as int))
                                == state.target as int,
                            state.target >= 1,
                            units >= 2,
                    ;
                    assert((state.target as int) / (units as int) < state.target as int)
                        by (nonlinear_arith)
                        requires
                            (units as int) * ((state.target as int) / (units as int))
                                == state.target as int,
                            (state.target as int) / (units as int) >= 1,
                            units >= 2,
                    ;
                }
                let sub_problem = State {
                    source: state.source,
                    target: state.target / units,
                    units: 1,
                };
                proof {
                    assert(sub_problem == map_sub(state, units));
                    vstd::arithmetic::div_mod::lemma_mod_multiples_basic(
                        units as int,
                        sub_problem.target as int,
                    );
                    assert(state.target as int % sub_problem.target as int == 0);
                    lemma_divides_transitive(
                        start0.target as int,
                        state.target as int,
                        sub_problem.target as int,
                    );
                }
                self.ensure_state(sub_problem, 2);
                let ghost es1 = self.plans@;
                let remaining_units = state.units - units;
                if remaining_units > 0 {
                    let rem = State {
                        source: state.source,
                        target: state.target,
                        units: remaining_units,
                    };
                    proof {
                        assert(rem == map_rem(state, units));
                    }
                    self.ensure_state(rem, units);
                    let ghost es2 = self.plans@;
                    proof {
                        assert(lookup(es1, state) is Some);
                        assert(lookup(es2, state) is Some);
                        assert(has_key(es2, state));
                    }
                    let newb = PlanBranch::Mapped {
                        units,
                        sub_problem,
                        remaining: Some(rem),
                    };
                    self.put_branch(state, newb);
                    proof {
                        let f = self.plans@;
                        assert(sub_problem != rem);
                        assert(forall|i: int| 0 <= i < es0.len() ==> es1[i] == es0[i]);
                        assert(forall|i: int| 0 <= i < es1.len() ==> es2[i] == es1[i]);
                        assert(has_key(es1, sub_problem));
                        assert(has_key(es2, sub_problem)) by {
                            let m = key_index(es1, sub_problem);
                            assert(0 <= m < es1.len() && es1[m].0 == sub_problem);
                            assert(es2[m].0 == sub_problem);
                        }
                        assert(has_key(es2, rem));
                        lemma_lookup_update(es2, state, newb);
                        assert(has_key(f, sub_problem)) by {
                            let m = key_index(es2, sub_problem);
                            assert(0 <= m < es2.len() && es2[m].0 == sub_problem);
                            assert(f[m].0 == sub_problem);
                        }
                        assert(has_key(f, rem)) by {
                            let m = key_index(es2, rem);
                            assert(0 <= m < es2.len() && es2[m].0 == rem);
                            assert(f[m].0 == rem);
                        }
                        assert(branch_wf(f, state, newb));
                        lemma_apply_wf(es0, es2, f, start0, state, newb);
                        assert(sub_problem != state && rem != state);
                        assert forall|q: State| #[trigger] lookup(f, q) == spec_apply_lookup(
                            es0,
                            state,
                            action,
                            q,
                        ) by {
                            if q == state {
                            } else if q == sub_problem {
                                assert(lookup(f, q) == lookup(es2, q));
                                assert(lookup(es2, q) == lookup(es1, q));
                            } else if q == rem {
                                assert(rem != sub_problem);
                                assert(lookup(f, q) == lookup(es2, q));
                                assert(lookup(es1, q) == lookup(es0, q));
                            } else {
                                assert(lookup(f, q) == lookup(es2, q));
                                assert(lookup(es2, q) == lookup(es1, q));
                                assert(lookup(es1, q) == lookup(es0, q));
                            }
                        }
                        assert forall|q: State| q != state && lookup(es0, q) is Some
                            implies #[trigger] lookup(f, q) == lookup(es0, q) by {
                            assert(lookup(f, q) == lookup(es2, q));
                            if q == rem {
                                assert(lookup(es2, q) == lookup(es1, q));
                            } else {
                                assert(lookup(es2, q) == lookup(es1, q));
                            }
                            if q == sub_problem {
                                assert(lookup(es1, q) == lookup(es0, q));
                            } else {
                                assert(lookup(es1, q) == lookup(es0, q));
                            }
                        }
                        assert forall|q: State| lookup(es0, q) == Some(PlanBranch::Solved)
                            implies #[trigger] lookup(f, q) == Some(PlanBranch::Solved) by {
                            assert(q != state);
                            assert(lookup(es0, q) is Some);
                        }
                    }
                    Ok(())
                } else {
                    proof {
                        assert(lookup(es1, state) is Some);
                        assert(has_key(es1, state));
                    }
                    let newb = PlanBranch::Mapped {
                        units,
                        sub_problem,
                        remaining: None,
                    };
                    self.put_branch(state, newb);
                    proof {
                        let f = self.plans@;
                        assert(forall|i: int| 0 <= i < es0.len() ==> es1[i] == es0[i]);
                        assert(has_key(es1, sub_problem));
                        lemma_lookup_update(es1, state, newb);
                        assert(has_key(f, sub_problem)) by {
                            let m = key_index(es1, sub_problem);
                            assert(0 <= m < es1.len() && es1[m].0 == sub_problem);
                            assert(f[m].0 == sub_problem);
                        }
                        assert(branch_wf(f, state, newb));
                        lemma_apply_wf(es0, es1, f, start0, state, newb);
                        assert(sub_problem != state);
                        assert forall|q: State| #[trigger] lookup(f, q) == spec_apply_lookup(
                            es0,
                            state,
                            action,
                            q,
                        ) by {
                            if q == state {
                            } else {
                                assert(lookup(f, q) == lookup(es1, q));
                            }
                        }
                        assert forall|q: State| q != state && lookup(es0, q) is Some
                            implies #[trigger] lookup(f, q) == lookup(es0, q) by {
                            assert(lookup(f, q) == lookup(es1, q));
                        }
                        assert forall|q: State| lookup(es0, q) == Some(PlanBranch::Solved)
                            implies #[trigger] lookup(f, q) == Some(PlanBranch::Solved) by {
                            assert(q != state);
                            assert(lookup(es0, q) is Some);
                        }
                    }
                    Ok(())
                }
            },
        }
    }

    /// Resolve a still-undecided `state` to `Solved` directly, inserting it if
    /// absent: the external-resolution hook for states whose sub-plans are
    /// settled outside this graph. A state already resolved to a move keeps
    /// its branch forever and may not pass through here.
    pub fn mark_solved(&mut self, state: State)
        requires
            old(self).wf(),
            state.source == old(self).start.source,
            1 <= state.target <= old(self).start.target,
            old(self).start.target as int % state.target as int == 0,
            lookup(old(self).plans@, state) is None || is_pending(old(self).plans@, state)
                || lookup(old(self).plans@, state) == Some(PlanBranch::Solved),
        ensures
            final(self).wf(),
            final(self).start == old(self).start,
            lookup(final(self).plans@, state) == Some(PlanBranch::Solved),
            forall|q: State|
                q != state ==> #[trigger] lookup(final(self).plans@, q) == lookup(
                    old(self).plans@,
                    q,
                ),
    {
        let ghost es0 = old(self).plans@;
        let ghost start0 = old(self).start;
        let present = self.get_branch(state).is_some();
        if present {
            self.put_branch(state, PlanBranch::Solved);
        } else {
            self.plans.push((state, PlanBranch::Solved));
            proof {
                lemma_lookup_push(es0, (state, PlanBranch::Solved), state);
                assert forall|q: State| q != state implies #[trigger] lookup(self.plans@, q)
                    == lookup(es0, q) by {
                    lemma_lookup_push(es0, (state, PlanBranch::Solved), q);
                }
            }
        }
        proof {
            let f = self.plans@;
            assert forall|q: State| has_key(es0, q) implies #[trigger] has_key(f, q) by {
                if q == state {
                    assert(lookup(f, q) is Some);
                } else {
                    assert(lookup(f, q) == lookup(es0, q));
                }
            }
            assert(has_key(f, start0));
            assert forall|i: int| 0 <= i < f.len() implies branch_wf(
                f,
                (#[trigger] f[i]).0,
                f[i].1,
            ) && f[i].0.source == start0.source && 1 <= f[i].0.target <= start0.target
                && start0.target as int % f[i].0.target as int == 0 by {
                lemma_entry_lookup(f, i);
                let k = f[i].0;
                let b = f[i].1;
                if k == state {
                    assert(b == PlanBranch::Solved);
                } else {
                    assert(lookup(es0, k) == Some(b));
                    let m = key_index(es0, k);
                    assert(0 <= m < es0.len() && es0[m].0 == k);
                    lemma_entry_lookup(es0, m);
                    assert(es0[m].1 == b);
                    lemma_branch_wf_mono(es0, f, k, b);
                }
            }
        }
    }

}

/// The exact result `apply` returns for a given graph, state and action.
pub open spec fn apply_result(es: Entries, state: State, action: Action) -> Result<(), ApplyError> {
    match lookup(es, state) {
        None => Err(ApplyError::StateDoesNotExist),
        Some(PlanBranch::Pending { min_map_units }) => match action {
            Action::Throw => Ok(()),
            Action::MapUnits(u) => if state.target as int % u as int != 0 {
                Err(ApplyError::MapDoesNotDivide)
            } else if u < min_map_units {
                Err(ApplyError::MapToFewUnits)
            } else {
                Ok(())
            },
        },
        Some(_) => Err(ApplyError::StateNotPending),
    }
}

/// The entries a successful `apply` leaves behind: the move's target states
/// are inserted (kept untouched when already present), then the applied state
/// is resolved.
pub open spec fn apply_ok_entries(es: Entries, state: State, action: Action) -> Entries {
    match action {
        Action::Throw => set_branch(
            ensured(es, throw_next(state), 2),
            state,
            PlanBranch::Throw { next: throw_next(state) },
        ),
        Action::MapUnits(u) => {
            let sub = map_sub(state, u);
            if u < state.units {
                let rem = map_rem(state, u);
                set_branch(
                    ensured(ensured(es, sub, 2), rem, u),
                    state,
                    PlanBranch::Mapped { units: u, sub_problem: sub, remaining: Some(rem) },
                )
            } else {
                set_branch(
                    ensured(es, sub, 2),
                    state,
                    PlanBranch::Mapped { units: u, sub_problem: sub, remaining: None },
                )
            }
        },
    }
}

/// What `lookup` answers for a state after an insert-if-absent step.
pub open spec fn ensured_lookup(es: Entries, s: State, floor: u32) -> Option<PlanBranch> {
    match lookup(es, s) {
        Some(b) => Some(b),
        None => Some(
            if s.target == 1 {
                PlanBranch::Solved
            } else {
                PlanBranch::Pending { min_map_units: floor }
            },
        ),
    }
}

/// What `lookup` answers for each state after a successful `apply`: the
/// applied state carries the move, the move's target states are inserted if
/// absent, and every other state is untouched.
pub open spec fn spec_apply_lookup(
    es: Entries,
    state: State,
    action: Action,
    q: State,
) -> Option<PlanBranch> {
    match action {
        Action::Throw => {
            let next = throw_next(state);
            if q == state {
                Some(PlanBranch::Throw { next })
            } else if q == next {
                ensured_lookup(es, next, 2)
            } else {
                lookup(es, q)
            }
        },
        Action::MapUnits(u) => {
            let sub = map_sub(state, u);
            if u < state.units {
                let rem = map_rem(state, u);
                if q == state {
                    Some(PlanBranch::Mapped { units: u, sub_problem: sub, remaining: Some(rem) })
                } else if q == sub {
                    ensured_lookup(es, sub, 2)
                } else if q == rem {
                    ensured_lookup(es, rem, u)
                } else {
                    lookup(es, q)
                }
            } else {
                if q == state {
                    Some(PlanBranch::Mapped { units: u, sub_problem: sub, remaining: None })
                } else if q == sub {
                    ensured_lookup(es, sub, 2)
                } else {
                    lookup(es, q)
                }
            }
        },
    }
}

/// A present key's branch is what `lookup` answers for it.
pub proof fn lemma_entry_lookup(es: Entries, i: int)
    requires
        keys_distinct(es),
        0 <= i < es.len(),
    ensures
        has_key(es, es[i].0),
        lookup(es, es[i].0) == Some(es[i].1),
{
    let k = es[i].0;
    assert(0 <= i < es.len() && es[i].0 == k);
    assert(has_key(es, k));
    let j = key_index(es, k);
    assert(0 <= j < es.len() && es[j].0 == k);
    assert(j == i);
}

/// A sound branch stays sound when the key set only grows.
proof fn lemma_branch_wf_mono(es1: Entries, es2: Entries, s: State, b: PlanBranch)
    requires
        branch_wf(es1, s, b),
        forall|q: State| has_key(es1, q) ==> #[trigger] has_key(es2, q),
    ensures
        branch_wf(es2, s, b),
{
    match b {
        PlanBranch::Solved => {},
        PlanBranch::Pending { .. } => {},
        PlanBranch::Throw { next } => {
            assert(has_key(es2, next));
        },
        PlanBranch::Mapped { units, sub_problem, remaining } => {
            assert(has_key(es2, sub_problem));
            match remaining {
                Some(r) => {
                    assert(has_key(es2, r));
                },
                None => {},
            }
        },
    }
}

/// Divisibility is transitive: a multiple of a multiple of `c` is a multiple
/// of `c`.
proof fn lemma_divides_transitive(a: int, b: int, c: int)
    requires
        a >= 0,
        b >= 1,
        c >= 1,
        a % b == 0,
        b % c == 0,
    ensures
        a % c == 0,
{
    let q1 = a / b;
    let q2 = b / c;
    vstd::arithmetic::div_mod::lemma_fundamental_div_mod(a, b);
    vstd::arithmetic::div_mod::lemma_fundamental_div_mod(b, c);
    assert(a == (q1 * q2) * c) by (nonlinear_arith)
        requires
            a == b * q1 + 0,
            b == c * q2 + 0,
    ;
    vstd::arithmetic::div_mod::lemma_mod_multiples_basic(q1 * q2, c);
}

/// After a successful `apply`, the graph invariant still holds: the final
/// entries extend the old ones with sound pending/solved insertions and
/// replace exactly the applied state's branch with a sound one.
proof fn lemma_apply_wf(
    es0: Entries,
    esk: Entries,
    f: Entries,
    start0: State,
    state: State,
    newb: PlanBranch,
)
    requires
        plan_wf(es0, start0),
        has_key(es0, state),
        es0.len() <= esk.len(),
        forall|i: int| 0 <= i < es0.len() ==> esk[i] == es0[i],
        forall|i: int|
            es0.len() <= i < esk.len() ==> {
                let e = #[trigger] esk[i];
                &&& (e.1 is Pending || e.1 is Solved)
                &&& (match e.1 {
                    PlanBranch::Pending { min_map_units } => min_map_units >= 2 && e.0.target
                        != 1,
                    _ => true,
                })
                &&& (e.1 is Solved ==> e.0.target == 1)
                &&& e.0.source == start0.source
                &&& 1 <= e.0.target <= start0.target
                &&& start0.target as int % e.0.target as int == 0
            },
        keys_distinct(esk),
        f == set_branch(esk, state, newb),
        branch_wf(f, state, newb),
        !(newb is Solved),
    ensures
        plan_wf(f, start0),
        solved_only_at_one(es0) ==> solved_only_at_one(f),
{
    let m = key_index(es0, state);
    assert(0 <= m < es0.len() && es0[m].0 == state);
    assert(esk[m].0 == state);
    assert(has_key(esk, state));
    lemma_lookup_update(esk, state, newb);
    let j = key_index(esk, state);
    assert(0 <= j < esk.len() && esk[j].0 == state);
    assert(j == m);
    assert(f.len() == esk.len());
    let si = key_index(es0, start0);
    assert(0 <= si < es0.len() && es0[si].0 == start0);
    assert(f[si].0 == start0);
    assert(has_key(f, start0));
    assert forall|q: State| has_key(es0, q) implies #[trigger] has_key(f, q) by {
        let i = key_index(es0, q);
        assert(0 <= i < es0.len() && es0[i].0 == q);
        assert(f[i].0 == q);
    }
    assert forall|i: int| 0 <= i < f.len() implies branch_wf(
        f,
        (#[trigger] f[i]).0,
        f[i].1,
    ) by {
        if i == j {
            assert(f[i] == (state, newb));
        } else {
            assert(f[i] == esk[i]);
            if i < es0.len() {
                assert(esk[i] == es0[i]);
                assert(branch_wf(es0, es0[i].0, es0[i].1));
                lemma_branch_wf_mono(es0, f, es0[i].0, es0[i].1);
            }
        }
    }
    assert forall|i: int| 0 <= i < f.len() implies {
        let k = (#[trigger] f[i]).0;
        &&& k.source == start0.source
        &&& 1 <= k.target <= start0.target
        &&& start0.target as int % k.target as int == 0
    } by {
        if i == j {
            assert(f[i].0 == state && es0[m].0 == state);
        } else {
            assert(f[i] == esk[i]);
        }
    }
    if solved_only_at_one(es0) {
        assert forall|i: int| 0 <= i < f.len() implies ((#[trigger] f[i]).1 is Solved
            ==> f[i].0.target == 1) by {
            if i == j {
            } else {
                assert(f[i] == esk[i]);
                if i < es0.len() {
                    assert(esk[i] == es0[i]);
                }
            }
        }
    }
}

/// `b` is directly reachable from `a` through `a`'s stored branch.
pub open spec fn edge(es: Entries, a: State, b: State) -> bool {
    match lookup(es, a) {
        Some(PlanBranch::Throw { next }) => b == next,
        Some(PlanBranch::Mapped { units, sub_problem, remaining }) => b == sub_problem
            || remaining == Some(b),
        _ => false,
    }
}

/// `p` walks the graph along stored branches.
pub open spec fn is_path(es: Entries, p: Seq<State>) -> bool {
    forall|i: int| 0 <= i < p.len() - 1 ==> edge(es, #[trigger] p[i], p[i + 1])
}

/// Every state reachable from the start along stored branches is present in
/// the graph: the graph never dangles.
pub proof fn lemma_reachable_present(es: Entries, start: State, p: Seq<State>)
    requires
        plan_wf(es, start),
        p.len() > 0,
        p[0] == start,
        is_path(es, p),
    ensures
        forall|i: int| 0 <= i < p.len() ==> has_key(es, #[trigger] p[i]),
    decreases p.len(),
{
    if p.len() == 1 {
    } else {
        let q = p.drop_last();
        assert(q[0] == start);
        assert forall|i: int| 0 <= i < q.len() - 1 implies edge(es, #[trigger] q[i], q[i + 1]) by {
            assert(q[i] == p[i] && q[i + 1] == p[i + 1]);
        }
        lemma_reachable_present(es, start, q);
        let n = p.len() - 1;
        assert(edge(es, p[n - 1], p[n]));
        assert(has_key(es, p[n - 1])) by {
            assert(q[n - 1] == p[n - 1]);
        }
        let m = key_index(es, p[n - 1]);
        assert(0 <= m < es.len() && es[m].0 == p[n - 1]);
        lemma_entry_lookup(es, m);
        assert(branch_wf(es, p[n - 1], es[m].1));
        assert forall|i: int| 0 <= i < p.len() implies has_key(es, #[trigger] p[i]) by {
            if i < n {
                assert(q[i] == p[i]);
            }
        }
    }
}

/// Pushing a fresh key extends lookups pointwise and keeps keys distinct.
proof fn lemma_lookup_push(es: Entries, e: (State, PlanBranch), q: State)
    requires
        keys_distinct(es),
        !has_key(es, e.0),
    ensures
        keys_distinct(es.push(e)),
        has_key(es.push(e), q) <==> (has_key(es, q) || q == e.0),
        lookup(es.push(e), q) == if q == e.0 {
            Some(e.1)
        } else {
            lookup(es, q)
        },
{
    let post = es.push(e);
    assert forall|i: int, j: int| 0 <= i < j < post.len() implies (#[trigger] post[i]).0
        != (#[trigger] post[j]).0 by {
        if j == es.len() {
            assert(post[i] == es[i]);
            if post[i].0 == e.0 {
                assert(has_key(es, e.0));
            }
        } else {
            assert(post[i] == es[i] && post[j] == es[j]);
        }
    }
    if has_key(es, q) {
        let i = key_index(es, q);
        assert(post[i] == es[i]);
        assert(has_key(post, q));
        let j = key_index(post, q);
        assert(0 <= j < post.len() && post[j].0 == q);
        if q == e.0 {
            assert(has_key(es, e.0));
            assert(false);
        }
        assert(j < es.len() && es[j].0 == q);
        assert(j == i);
    } else if q == e.0 {
        assert(post[es.len() as int].0 == q);
        assert(has_key(post, q));
        let j = key_index(post, q);
        assert(0 <= j < post.len() && post[j].0 == q);
        if j < es.len() {
            assert(es[j].0 == q);
            assert(has_key(es, q));
            assert(false);
        }
        assert(lookup(post, q) == Some(e.1));
    } else {
        if has_key(post, q) {
            let j = key_index(post, q);
            assert(0 <= j < post.len() && post[j].0 == q);
            if j < es.len() {
                assert(es[j].0 == q);
                assert(has_key(es, q));
            }
            assert(false);
        }
    }
}

/// Replacing the branch of a present key changes exactly that key's lookup.
proof fn lemma_lookup_update(es: Entries, s: State, b: PlanBranch)
    requires
        keys_distinct(es),
        has_key(es, s),
    ensures
        keys_distinct(set_branch(es, s, b)),
        set_branch(es, s, b).len() == es.len(),
        forall|i: int|
            0 <= i < es.len() ==> (#[trigger] set_branch(es, s, b)[i]).0 == es[i].0,
        lookup(set_branch(es, s, b), s) == Some(b),
        forall|q: State|
            q != s ==> #[trigger] lookup(set_branch(es, s, b), q) == lookup(es, q),
{
    let i = key_index(es, s);
    assert(0 <= i < es.len() && es[i].0 == s);
    let post = set_branch(es, s, b);
    assert(forall|j: int| 0 <= j < es.len() && j != i ==> post[j] == es[j]);
    assert(post[i] == (s, b));
    assert forall|p: int, q: int| 0 <= p < q < post.len() implies (#[trigger] post[p]).0
        != (#[trigger] post[q]).0 by {
        assert(post[p].0 == es[p].0 && post[q].0 == es[q].0);
    }
    assert(has_key(post, s));
    let j = key_index(post, s);
    assert(0 <= j < post.len() && post[j].0 == s);
    assert(es[j].0 == s);
    assert(j == i);
    assert forall|q: State| q != s implies #[trigger] lookup(post, q) == lookup(es, q) by {
        if has_key(es, q) {
            let m = key_index(es, q);
            assert(0 <= m < es.len() && es[m].0 == q);
            assert(m != i);
            assert(post[m].0 == q);
            assert(has_key(post, q));
            let m2 = key_index(post, q);
            assert(0 <= m2 < post.len() && post[m2].0 == q);
            assert(m2 == m);
        } else {
            if has_key(post, q) {
                let m2 = key_index(post, q);
                assert(es[m2].0 == q);
                assert(false);
            }
        }
    }
}

} // verus!
