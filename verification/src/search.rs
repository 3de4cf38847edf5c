use vstd::prelude::*;

use crate::cost::lemma_resolved_exact;
use crate::cost::s_exact_cost;
use crate::divider::Divider;
use crate::heuristic::Heuristic;
use crate::plan::action_valid;
use crate::plan::floor_of;
use crate::plan::fully_resolved;
use crate::plan::has_key;
use crate::plan::is_pending;
use crate::plan::key_index;
use crate::plan::lookup;
use crate::plan::apply_ok_entries;
use crate::plan::ensured;
use crate::plan::map_rem;
use crate::plan::map_sub;
use crate::plan::solved_only_at_one;
use crate::plan::spec_apply_lookup;
use crate::plan::throw_next;
use crate::plan::Entries;
use crate::plan::Plan;
use crate::plan::PlanBranch;
use crate::ratio::cv_le;
use crate::ratio::cv_wf;
use crate::ratio::CostVal;
use crate::state::Action;
use crate::state::State;

verus! {

impl Plan {
    /// An independent copy: search keeps one snapshot per queued candidate.
    pub fn duplicate(&self) -> (r: Plan)
        ensures
            r.start == self.start,
            r.plans@ == self.plans@,
    {
        let mut entries: Vec<(State, PlanBranch)> = Vec::new();
        let mut i: usize = 0;
        while i < self.plans.len()
            invariant
                i <= self.plans@.len(),
                entries@ == self.plans@.subrange(0, i as int),
            decreases self.plans@.len() - i,
        {
            let e = self.plans[i];
            entries.push(e);
            proof {
                assert(entries@ =~= self.plans@.subrange(0, i as int + 1));
            }
            i += 1;
        }
        proof {
            assert(entries@ =~= self.plans@);
        }
        Plan { start: self.start, plans: entries }
    }
}

/// Whether the listed plans hold one equal to `p` (same start, same entries).
fn plans_contain(v: &Vec<Plan>, p: &Plan) -> (r: bool)
    ensures
        r == exists|i: int|
            0 <= i < v@.len() && (#[trigger] v@[i]).start == p.start && v@[i].plans@ == p.plans@,
{
    let mut i: usize = 0;
    while i < v.len()
        invariant
            i <= v@.len(),
            forall|j: int|
                0 <= j < i as int ==> !((#[trigger] v@[j]).start == p.start && v@[j].plans@
                    == p.plans@),
        decreases v@.len() - i,
    {
        if plans_equal(&v[i], p) {
            proof {
                assert((v@[i as int]).start == p.start && v@[i as int].plans@ == p.plans@);
            }
            return true;
        }
        i += 1;
    }
    false
}

/// Structural plan equality: same start state and the same stored entries in
/// the same order.
fn plans_equal(a: &Plan, b: &Plan) -> (r: bool)
    ensures
        r == (a.start == b.start && a.plans@ == b.plans@),
{
    if a.start != b.start {
        return false;
    }
    if a.plans.len() != b.plans.len() {
        proof {
            assert(a.plans@.len() != b.plans@.len());
        }
        return false;
    }
    let mut i: usize = 0;
    while i < a.plans.len()
        invariant
            a.plans@.len() == b.plans@.len(),
            i <= a.plans@.len(),
            forall|j: int| 0 <= j < i as int ==> a.plans@[j] == b.plans@[j],
        decreases a.plans@.len() - i,
    {
        let (ka, ba) = a.plans[i];
        let (kb, bb) = b.plans[i];
        if ka != kb || ba != bb {
            proof {
                assert(a.plans@[i as int] != b.plans@[i as int]);
            }
            return false;
        }
        i += 1;
    }
    proof {
        assert(a.plans@ =~= b.plans@);
    }
    true
}

/// The move the naive strategy takes at a pending state: throw while the
/// units are below the target, else map the full target away.
pub open spec fn naive_action(s: State) -> Action {
    if s.units < s.target {
        Action::Throw
    } else {
        Action::MapUnits(s.target)
    }
}

/// The state the naive strategy continues from after resolving `s`. For a
/// full map nothing is left: the zero-unit leftover is never a key, so the
/// run stops there.
pub open spec fn naive_successor(s: State) -> State {
    if s.units < s.target {
        throw_next(s)
    } else {
        map_rem(s, s.target)
    }
}

/// The branch the naive strategy stores at a state it resolves.
pub open spec fn naive_branch(s: State) -> PlanBranch {
    if s.units < s.target {
        PlanBranch::Throw { next: throw_next(s) }
    } else {
        PlanBranch::Mapped {
            units: s.target,
            sub_problem: map_sub(s, s.target),
            remaining: if s.target < s.units {
                Some(map_rem(s, s.target))
            } else {
                None
            },
        }
    }
}

/// Every resolved entry follows the naive rule, and a solved entry really is
/// at target 1.
pub open spec fn naive_shaped(es: Entries) -> bool {
    forall|i: int|
        0 <= i < es.len() ==> ((#[trigger] es[i]).1 is Pending || es[i].1 == (
        if es[i].0.target == 1 {
            PlanBranch::Solved
        } else {
            naive_branch(es[i].0)
        }))
}

/// The naive run itself: resolve the chain state by state until the current
/// one is no longer pending. The fuel only bounds the chain's length; the
/// fuel `naive_plan_entries` supplies is never exhausted.
pub open spec fn naive_run(es: Entries, current: State, fuel: nat) -> Entries
    decreases fuel,
{
    if fuel == 0 || !is_pending(es, current) {
        es
    } else {
        naive_run(
            apply_ok_entries(es, current, naive_action(current)),
            naive_successor(current),
            (fuel - 1) as nat,
        )
    }
}

/// The exact graph the naive strategy builds for `state`.
pub open spec fn naive_plan_entries(state: State) -> Entries {
    naive_run(
        ensured(Seq::empty(), state, 2),
        state,
        state.target as nat * (state.source as nat + 1) + state.units as nat + 1,
    )
}

/// The fast, suboptimal strategy: while the state has fewer units than its
/// target, throw; once it has enough, map the full target away. It always
/// produces a fully resolved plan, so its exact cost is defined — the finite
/// upper bound the search starts from.
pub fn naive_solver(state: State) -> (p: Plan)
    requires
        state.target >= 1,
        (state.target - 1) * (state.source as int) <= u32::MAX,
    ensures
        p.wf(),
        p.start == state,
        fully_resolved(p.plans@),
        s_exact_cost(p.plans@, p.start) is Some,
        p.plans@ == naive_plan_entries(state),
        forall|i: int|
            0 <= i < p.plans@.len() ==> (#[trigger] p.plans@[i]).1 == (
            if p.plans@[i].0.target == 1 {
                PlanBranch::Solved
            } else {
                naive_branch(p.plans@[i].0)
            }),
        solved_only_at_one(p.plans@),
{
    let ghost t = state.target as int;
    let ghost src = state.source as int;
    let ghost bound = t * (src + 1) + state.units as int + 1;
    let mut plan = Plan::new(state);
    let mut current = state;
    let ghost mut seen: Set<int> = Set::empty();
    proof {
        assert(plan.plans@.len() == 1);
        assert forall|i: int| 0 <= i < plan.plans@.len() implies (#[trigger] plan.plans@[i]).0.units
            < bound by {
            assert(plan.plans@[i].0 == state);
            assert(t * (src + 1) >= 1) by (nonlinear_arith)
                requires
                    t >= 1,
                    src >= 0,
            ;
        }
        assert(t * (src + 1) >= 1) by (nonlinear_arith)
            requires
                t >= 1,
                src >= 0,
        ;
        assert(bound == state.target as nat * (state.source as nat + 1) + state.units as nat + 1);
        assert(naive_plan_entries(state) == naive_run(plan.plans@, state, bound as nat));
        assert(naive_shaped(plan.plans@));
    }
    loop
        invariant
            plan.wf(),
            plan.start == state,
            state.target >= 1,
            (t - 1) * src <= u32::MAX,
            t == state.target as int,
            src == state.source as int,
            bound == t * (src + 1) + state.units as int + 1,
            has_key(plan.plans@, current),
            current.source == state.source,
            current.target == state.target,
            current.units < bound,
            forall|q: State|
                #[trigger] is_pending(plan.plans@, q) ==> q == current && floor_of(plan.plans@, q)
                    <= state.target,
            forall|i: int|
                0 <= i < plan.plans@.len() ==> (#[trigger] plan.plans@[i]).0.units < bound,
            seen.finite(),
            seen.len() <= bound,
            forall|u: int| #[trigger] seen.contains(u) ==> 0 <= u < bound,
            forall|u: int|
                #[trigger] seen.contains(u) ==> {
                    let q = State {
                        source: state.source,
                        target: state.target,
                        units: u as u32,
                    };
                    has_key(plan.plans@, q) && !is_pending(plan.plans@, q)
                },
            naive_plan_entries(state) == naive_run(
                plan.plans@,
                current,
                (bound - seen.len()) as nat,
            ),
            naive_shaped(plan.plans@),
        ensures
            plan.wf(),
            plan.start == state,
            forall|q: State| !is_pending(plan.plans@, q),
            plan.plans@ == naive_plan_entries(state),
            naive_shaped(plan.plans@),
        decreases bound - seen.len(),
    {
        let b = plan.get_branch(current);
        let pending_floor: u32;
        match b {
            Some(PlanBranch::Pending { min_map_units }) => {
                pending_floor = min_map_units;
            },
            _ => {
                proof {
                    assert(!is_pending(plan.plans@, current));
                    assert(naive_run(plan.plans@, current, (bound - seen.len()) as nat)
                        == plan.plans@);
                    assert forall|q: State| !is_pending(plan.plans@, q) by {
                        if is_pending(plan.plans@, q) {
                            assert(q == current);
                        }
                    }
                }
                break;
            },
        }
        let ghost pre = plan.plans@;
        proof {
            assert(is_pending(pre, current));
            assert(!seen.contains(current.units as int));
            assert(seen.insert(current.units as int).len() == seen.len() + 1);
            assert(floor_of(pre, current) == pending_floor);
            assert(current.target != 1) by {
                let i = key_index(pre, current);
                assert(0 <= i < pre.len() && pre[i].0 == current);
                crate::plan::lemma_entry_lookup(pre, i);
                assert(crate::plan::branch_wf(pre, current, pre[i].1));
            }
            assert(seen.insert(current.units as int) <= vstd::set_lib::set_int_range(0, bound));
            vstd::set_lib::lemma_int_range(0, bound);
            vstd::set_lib::lemma_len_subset(
                seen.insert(current.units as int),
                vstd::set_lib::set_int_range(0, bound),
            );
            assert(seen.len() + 1 <= bound);
        }
        let ghost fuel: nat = (bound - seen.len()) as nat;
        proof {
            assert(fuel >= 1);
            assert(naive_run(pre, current, fuel) == naive_run(
                apply_ok_entries(pre, current, naive_action(current)),
                naive_successor(current),
                (fuel - 1) as nat,
            ));
        }
        if current.units < current.target {
            proof {
                assert((current.units as int) * src <= (t - 1) * src) by (nonlinear_arith)
                    requires
                        current.units as int <= t - 1,
                        src >= 0,
                ;
                assert((current.units as int) * src < bound) by (nonlinear_arith)
                    requires
                        current.units as int <= t - 1,
                        src >= 0,
                        t >= 1,
                        bound == t * (src + 1) + state.units as int + 1,
                ;
            }
            let next_units = current.units * current.source;
            let res = plan.apply(current, Action::Throw);
            proof {
                assert(res is Ok);
                assert(plan.plans@ == crate::plan::apply_ok_entries(pre, current, Action::Throw));
            }
            let next = State {
                source: current.source,
                target: current.target,
                units: next_units,
            };
            proof {
                assert(next == crate::plan::throw_next(current));
                let post = plan.plans@;
                assert(lookup(post, current) == spec_apply_lookup(
                    pre,
                    current,
                    Action::Throw,
                    current,
                ));
                assert(lookup(post, current) == Some(PlanBranch::Throw { next }));
                assert(current.target != 1) by {
                    let i = key_index(pre, current);
                    assert(0 <= i < pre.len() && pre[i].0 == current);
                    crate::plan::lemma_entry_lookup(pre, i);
                    assert(crate::plan::branch_wf(pre, current, pre[i].1));
                }
                assert(lookup(post, next) == spec_apply_lookup(pre, current, Action::Throw, next));
                assert(lookup(post, next) is Some);
                assert forall|q: State| #[trigger] is_pending(post, q) implies q == next
                    && floor_of(post, q) <= state.target by {
                    assert(lookup(post, q) == spec_apply_lookup(pre, current, Action::Throw, q));
                    if q == current {
                    } else if q == next {
                        if lookup(pre, q) is Some {
                            assert(is_pending(pre, q));
                            assert(q == current);
                        }
                    } else {
                        assert(lookup(post, q) == lookup(pre, q));
                        assert(is_pending(pre, q));
                    }
                }
                assert forall|i: int| 0 <= i < post.len() implies (#[trigger] post[i]).0.units
                    < bound by {
                    crate::plan::lemma_entry_lookup(post, i);
                    let k = post[i].0;
                    assert(lookup(post, k) == spec_apply_lookup(pre, current, Action::Throw, k));
                    if k == current {
                    } else if k == next {
                    } else {
                        assert(lookup(pre, k) is Some);
                        let m = key_index(pre, k);
                        assert(0 <= m < pre.len() && pre[m].0 == k);
                    }
                }
                seen = seen.insert(current.units as int);
                assert forall|u: int| #[trigger] seen.contains(u) implies {
                    let q = State {
                        source: state.source,
                        target: state.target,
                        units: u as u32,
                    };
                    has_key(post, q) && !is_pending(post, q)
                } by {
                    let q = State {
                        source: state.source,
                        target: state.target,
                        units: u as u32,
                    };
                    assert(lookup(post, q) == spec_apply_lookup(pre, current, Action::Throw, q));
                    if u == current.units as int {
                        assert(q == current);
                    } else {
                        assert(q != current);
                        assert(has_key(pre, q) && !is_pending(pre, q));
                        if q == next {
                        } else {
                            assert(lookup(post, q) == lookup(pre, q));
                        }
                    }
                }
                assert(naive_action(current) == Action::Throw);
                assert(naive_successor(current) == next);
                assert(naive_plan_entries(state) == naive_run(post, next, (fuel - 1) as nat));
                assert(naive_branch(current) == PlanBranch::Throw { next });
                assert forall|i: int| 0 <= i < post.len() implies ((#[trigger] post[i]).1
                    is Pending || post[i].1 == (
                if post[i].0.target == 1 {
                    PlanBranch::Solved
                } else {
                    naive_branch(post[i].0)
                })) by {
                    crate::plan::lemma_entry_lookup(post, i);
                    let k = post[i].0;
                    assert(lookup(post, k) == spec_apply_lookup(pre, current, Action::Throw, k));
                    if k == current {
                    } else if k == next {
                        if lookup(pre, k) is Some {
                            let m = key_index(pre, k);
                            assert(0 <= m < pre.len() && pre[m].0 == k);
                            crate::plan::lemma_entry_lookup(pre, m);
                        }
                    } else {
                        assert(lookup(post, k) == lookup(pre, k));
                        let m = key_index(pre, k);
                        assert(0 <= m < pre.len() && pre[m].0 == k);
                        crate::plan::lemma_entry_lookup(pre, m);
                    }
                }
                assert(naive_shaped(post));
            }
            current = next;
        } else {
            let res = plan.apply(current, Action::MapUnits(current.target));
            proof {
                assert(t % t == 0) by (nonlinear_arith)
                    requires
                        t >= 1,
                ;
                assert(res is Ok);
            }
            let sub = State {
                source: current.source,
                target: 1,
                units: 1,
            };
            proof {
                assert(current.target / current.target == 1) by (nonlinear_arith)
                    requires
                        current.target >= 1,
                ;
                assert(sub == crate::plan::map_sub(current, current.target));
            }
            let ghost act = Action::MapUnits(current.target);
            proof {
                lemma_naive_map_bookkeeping(pre, plan.plans@, current, state, bound, seen);
                seen = seen.insert(current.units as int);
                assert(naive_action(current) == act);
                assert(naive_successor(current) == crate::plan::map_rem(current, current.target));
                assert(naive_plan_entries(state) == naive_run(
                    plan.plans@,
                    crate::plan::map_rem(current, current.target),
                    (fuel - 1) as nat,
                ));
            }
            let rem_units = current.units - current.target;
            if rem_units > 0 {
                let rem = State {
                    source: current.source,
                    target: current.target,
                    units: rem_units,
                };
                proof {
                    assert(rem == crate::plan::map_rem(current, current.target));
                    assert(lookup(plan.plans@, rem) == spec_apply_lookup(
                        pre,
                        current,
                        Action::MapUnits(current.target),
                        rem,
                    ));
                    assert(lookup(plan.plans@, rem) is Some);
                    assert forall|q: State| #[trigger] is_pending(plan.plans@, q) implies q == rem
                        && floor_of(plan.plans@, q) <= state.target by {
                        lemma_naive_map_pending(pre, plan.plans@, current, state, q);
                    }
                }
                current = rem;
            } else {
                proof {
                    assert forall|q: State| !is_pending(plan.plans@, q) by {
                        if is_pending(plan.plans@, q) {
                            lemma_naive_map_pending(pre, plan.plans@, current, state, q);
                            assert(current.units == current.target);
                        }
                    }
                    assert(!is_pending(
                        plan.plans@,
                        crate::plan::map_rem(current, current.target),
                    ));
                    assert(naive_run(
                        plan.plans@,
                        crate::plan::map_rem(current, current.target),
                        (fuel - 1) as nat,
                    ) == plan.plans@);
                    assert(plan.plans@ == naive_plan_entries(state));
                }
                break;
            }
        }
    }
    proof {
        assert forall|i: int| 0 <= i < plan.plans@.len() implies !((#[trigger] plan.plans@[i]).1
            is Pending) by {
            crate::plan::lemma_entry_lookup(plan.plans@, i);
            if plan.plans@[i].1 is Pending {
                assert(is_pending(plan.plans@, plan.plans@[i].0));
            }
        }
        lemma_resolved_exact(plan.plans@, plan.start);
        assert forall|i: int| 0 <= i < plan.plans@.len() implies (#[trigger] plan.plans@[i]).1
            == (
        if plan.plans@[i].0.target == 1 {
            PlanBranch::Solved
        } else {
            naive_branch(plan.plans@[i].0)
        }) by {
            assert(!(plan.plans@[i].1 is Pending));
        }
        assert forall|i: int| 0 <= i < plan.plans@.len() implies ((#[trigger] plan.plans@[i]).1
            is Solved ==> plan.plans@[i].0.target == 1) by {
            if plan.plans@[i].0.target != 1 {
                assert(plan.plans@[i].1 == naive_branch(plan.plans@[i].0));
            }
        }
    }
    plan
}

/// After the naive strategy's map step (always with the full target), the
/// loop's bookkeeping still holds: unit counts stay under the bound and every
/// recorded resolved state stays resolved.
proof fn lemma_naive_map_bookkeeping(
    pre: Entries,
    post: Entries,
    current: State,
    state: State,
    bound: int,
    seen: Set<int>,
)
    requires
        crate::plan::keys_distinct(pre),
        crate::plan::keys_distinct(post),
        forall|q: State|
            #[trigger] lookup(post, q) == crate::plan::spec_apply_lookup(
                pre,
                current,
                Action::MapUnits(current.target),
                q,
            ),
        is_pending(pre, current),
        current.source == state.source,
        current.target == state.target,
        current.units < bound,
        current.units >= current.target >= 1,
        current.target != 1,
        bound > 1,
        naive_shaped(pre),
        forall|q: State|
            #[trigger] is_pending(pre, q) ==> q == current,
        forall|i: int| 0 <= i < pre.len() ==> (#[trigger] pre[i]).0.units < bound,
        forall|u: int|
            #[trigger] seen.contains(u) ==> {
                let q = State { source: state.source, target: state.target, units: u as u32 };
                has_key(pre, q) && !is_pending(pre, q)
            },
    ensures
        forall|i: int| 0 <= i < post.len() ==> (#[trigger] post[i]).0.units < bound,
        forall|u: int|
            #[trigger] seen.insert(current.units as int).contains(u) ==> {
                let q = State { source: state.source, target: state.target, units: u as u32 };
                has_key(post, q) && !is_pending(post, q)
            },
        has_key(post, current),
        !is_pending(post, current),
        naive_shaped(post),
{
    let u0 = current.target;
    let sub = crate::plan::map_sub(current, u0);
    let ghost act = Action::MapUnits(u0);
    assert(lookup(post, current) == crate::plan::spec_apply_lookup(pre, current, act, current));
    assert(!is_pending(post, current));
    assert forall|i: int| 0 <= i < post.len() implies (#[trigger] post[i]).0.units < bound by {
        crate::plan::lemma_entry_lookup(post, i);
        let k = post[i].0;
        assert(lookup(post, k) == crate::plan::spec_apply_lookup(pre, current, act, k));
        if k == current {
        } else if k == sub {
        } else if u0 < current.units && k == crate::plan::map_rem(current, u0) {
        } else {
            assert(lookup(pre, k) is Some);
            let m = key_index(pre, k);
            assert(0 <= m < pre.len() && pre[m].0 == k);
        }
    }
    assert forall|u: int| #[trigger] seen.insert(current.units as int).contains(u) implies {
        let q = State { source: state.source, target: state.target, units: u as u32 };
        has_key(post, q) && !is_pending(post, q)
    } by {
        let q = State { source: state.source, target: state.target, units: u as u32 };
        assert(lookup(post, q) == crate::plan::spec_apply_lookup(pre, current, act, q));
        if u == current.units as int {
            assert(q == current);
        } else {
            assert(q != current);
            assert(has_key(pre, q) && !is_pending(pre, q));
            if q == sub {
                assert(lookup(pre, q) is Some);
            } else if u0 < current.units && q == crate::plan::map_rem(current, u0) {
                assert(lookup(pre, q) is Some);
            } else {
                assert(lookup(post, q) == lookup(pre, q));
            }
        }
    }
    assert(sub.target == 1) by {
        vstd::arithmetic::div_mod::lemma_fundamental_div_mod(u0 as int, u0 as int);
    }
    assert(lookup(post, current) == Some(naive_branch(current)));
    assert forall|i: int| 0 <= i < post.len() implies ((#[trigger] post[i]).1 is Pending
        || post[i].1 == (
    if post[i].0.target == 1 {
        PlanBranch::Solved
    } else {
        naive_branch(post[i].0)
    })) by {
        crate::plan::lemma_entry_lookup(post, i);
        let k = post[i].0;
        assert(lookup(post, k) == crate::plan::spec_apply_lookup(pre, current, act, k));
        if k == current {
        } else if k == sub {
            if lookup(pre, k) is Some {
                let m = key_index(pre, k);
                assert(0 <= m < pre.len() && pre[m].0 == k);
                crate::plan::lemma_entry_lookup(pre, m);
            }
        } else if u0 < current.units && k == crate::plan::map_rem(current, u0) {
            if lookup(pre, k) is Some {
                let m = key_index(pre, k);
                assert(0 <= m < pre.len() && pre[m].0 == k);
                crate::plan::lemma_entry_lookup(pre, m);
            }
        } else {
            assert(lookup(post, k) == lookup(pre, k));
            let m = key_index(pre, k);
            assert(0 <= m < pre.len() && pre[m].0 == k);
            crate::plan::lemma_entry_lookup(pre, m);
        }
    }
}

/// A state pending after the naive strategy's map step can only be the
/// leftover, and its floor is the mapped target itself.
proof fn lemma_naive_map_pending(pre: Entries, post: Entries, current: State, state: State, q: State)
    requires
        forall|p: State|
            #[trigger] lookup(post, p) == crate::plan::spec_apply_lookup(
                pre,
                current,
                Action::MapUnits(current.target),
                p,
            ),
        is_pending(pre, current),
        current.units >= current.target >= 1,
        current.target == state.target,
        forall|p: State|
            #[trigger] is_pending(pre, p) ==> p == current,
        is_pending(post, q),
    ensures
        current.target < current.units && q == crate::plan::map_rem(current, current.target)
            && floor_of(post, q) <= state.target,
{
    let u0 = current.target;
    let sub = crate::plan::map_sub(current, u0);
    let ghost act = Action::MapUnits(u0);
    assert(lookup(post, q) == crate::plan::spec_apply_lookup(pre, current, act, q));
    if q == current {
        assert(false);
    } else if q == sub {
        if lookup(pre, q) is Some {
            assert(is_pending(pre, q));
            assert(false);
        } else {
            assert(sub.target == 1) by {
                assert(u0 >= 1);
                vstd::arithmetic::div_mod::lemma_fundamental_div_mod(u0 as int, u0 as int);
            }
            assert(false);
        }
    } else if u0 < current.units && q == crate::plan::map_rem(current, u0) {
        if lookup(pre, q) is Some {
            assert(is_pending(pre, q));
            assert(false);
        } else {
            assert(floor_of(post, q) == u0);
        }
    } else {
        assert(lookup(post, q) == lookup(pre, q));
        assert(is_pending(pre, q));
        assert(false);
    }
}

/// Every queued candidate owns a sound snapshot rooted at `start`, pairs it
/// with an applicable move, and a throw candidate's amplified units fit the
/// machine word.
pub open spec fn queue_inv(q: Seq<(Plan, State, Action)>, start: State) -> bool {
    forall|i: int|
        0 <= i < q.len() ==> {
            let (p, s, a) = #[trigger] q[i];
            &&& p.wf()
            &&& p.start == start
            &&& solved_only_at_one(p.plans@)
            &&& action_valid(p.plans@, s, a)
            &&& (a is Throw ==> (s.units as int) * (s.source as int) <= u32::MAX as int)
        }
}

/// Queue every currently open move of `plan`, skipping a throw whose
/// amplified units would not fit the machine word (such a candidate could
/// never be applied without overflowing).
fn enqueue_candidates(
    queue: &mut Vec<(Plan, State, Action)>,
    plan: &Plan,
    actions: &Vec<(State, Action)>,
)
    requires
        plan.wf(),
        solved_only_at_one(plan.plans@),
        forall|n: int|
            0 <= n < actions@.len() ==> action_valid(
                plan.plans@,
                (#[trigger] actions@[n]).0,
                actions@[n].1,
            ),
        queue_inv(old(queue)@, plan.start),
    ensures
        queue_inv(final(queue)@, plan.start),
{
    let mut k: usize = 0;
    while k < actions.len()
        invariant
            plan.wf(),
            solved_only_at_one(plan.plans@),
            forall|n: int|
                0 <= n < actions@.len() ==> action_valid(
                    plan.plans@,
                    (#[trigger] actions@[n]).0,
                    actions@[n].1,
                ),
            queue_inv(queue@, plan.start),
            k <= actions@.len(),
        decreases actions@.len() - k,
    {
        let (s2, a2) = actions[k];
        let fits = match a2 {
            Action::Throw => s2.source == 0 || s2.units <= u32::MAX / s2.source,
            Action::MapUnits(_) => true,
        };
        if fits {
            proof {
                if a2 is Throw && s2.source != 0 {
                    vstd::arithmetic::div_mod::lemma_fundamental_div_mod(
                        u32::MAX as int,
                        s2.source as int,
                    );
                    assert((s2.units as int) * (s2.source as int) <= u32::MAX as int)
                        by (nonlinear_arith)
                        requires
                            s2.units as int <= (u32::MAX as int) / (s2.source as int),
                            s2.source >= 1,
                            u32::MAX as int == (s2.source as int) * ((u32::MAX as int) / (
                            s2.source as int)) + (u32::MAX as int) % (s2.source as int),
                            (u32::MAX as int) % (s2.source as int) >= 0,
                    ;
                }
            }
            let snapshot = plan.duplicate();
            queue.push((snapshot, s2, a2));
        }
        k += 1;
    }
}

impl Plan {
    /// Whether no pending state is left anywhere in the graph.
    pub fn is_fully_resolved(&self) -> (r: bool)
        ensures
            r == fully_resolved(self.plans@),
    {
        let mut i: usize = 0;
        while i < self.plans.len()
            invariant
                i <= self.plans@.len(),
                forall|j: int| 0 <= j < i as int ==> !((#[trigger] self.plans@[j]).1 is Pending),
            decreases self.plans@.len() - i,
        {
            let (_, b) = self.plans[i];
            if let PlanBranch::Pending { .. } = b {
                proof {
                    assert(self.plans@[i as int].1 is Pending);
                }
                return false;
            }
            i += 1;
        }
        true
    }
}

/// Branch-and-bound synthesis of a best plan for `start`: seed the bound with
/// the naive strategy's exact cost, then repeatedly pop a queued candidate
/// (FIFO, so expansion is breadth-first), apply its move to its own snapshot,
/// evaluate the cost under `heuristic`, expand the snapshot's open moves only
/// if the plan was not seen before and its cost does not exceed the bound,
/// and adopt any fully resolved plan whose confirmed cost is strictly better.
/// The search stops when the queue empties or after `max_iterations`
/// candidates; either way the result is a fully resolved plan for `start`
/// whose confirmed cost never exceeds the naive seed's.
pub fn best_solver<H: Heuristic>(start: State, heuristic: &mut H, max_iterations: u64) -> (best:
    Plan)
    requires
        start.target >= 1,
        start.target < u32::MAX,
        (start.target - 1) * (start.source as int) <= u32::MAX,
    ensures
        best.wf(),
        best.start == start,
        fully_resolved(best.plans@),
        solved_only_at_one(best.plans@),
        s_exact_cost(naive_plan_entries(start), start) is Some,
        ({
            let seed = s_exact_cost(naive_plan_entries(start), start);
            let confirmed = s_exact_cost(best.plans@, best.start);
            confirmed matches Some(c) && seed matches Some(c0) && cv_le(c, c0)
        }),
{
    let divider = Divider::new(start.target);
    let mut queue: Vec<(Plan, State, Action)> = Vec::new();
    let base_plan = Plan::new(start);
    let actions = base_plan.possible_actions(&divider);
    enqueue_candidates(&mut queue, &base_plan, &actions);

    let mut best_plan = naive_solver(start);
    let mut best_cost = match best_plan.exact_cost() {
        Some(c) => c,
        None => {
            proof {
                assert(false);
            }
            CostVal::NonFinite
        },
    };
    let ghost seed_cost = best_cost;
    proof {
        assert(s_exact_cost(naive_plan_entries(start), start) == Some(seed_cost));
        crate::ratio::lemma_cv_le_refl(best_cost);
    }
    let mut visited: Vec<Plan> = Vec::new();

    let mut i: u64 = 0;
    while i < max_iterations && queue.len() > 0
        invariant
            divider.wf(),
            divider.spec_target() == start.target as int,
            start.target >= 1,
            queue_inv(queue@, start),
            best_plan.wf(),
            best_plan.start == start,
            fully_resolved(best_plan.plans@),
            solved_only_at_one(best_plan.plans@),
            s_exact_cost(best_plan.plans@, best_plan.start) == Some(best_cost),
            s_exact_cost(naive_plan_entries(start), start) == Some(seed_cost),
            cv_wf(best_cost),
            cv_wf(seed_cost),
            cv_le(best_cost, seed_cost),
            i <= max_iterations,
        decreases max_iterations - i,
    {
        let ghost q0 = queue@;
        let (mut plan, s, a) = queue.remove(0);
        proof {
            assert((plan, s, a) == q0[0]);
            assert forall|n: int| 0 <= n < queue@.len() implies {
                let (p2, s2, a2) = #[trigger] queue@[n];
                &&& p2.wf()
                &&& p2.start == start
                &&& solved_only_at_one(p2.plans@)
                &&& action_valid(p2.plans@, s2, a2)
                &&& (a2 is Throw ==> (s2.units as int) * (s2.source as int) <= u32::MAX as int)
            } by {
                assert(queue@[n] == q0[n + 1]);
            }
        }
        let res = plan.apply(s, a);
        proof {
            assert(res is Ok);
        }
        let cost = plan.cost(heuristic);
        let fresh = !plans_contain(&visited, &plan);
        if fresh {
            visited.push(plan.duplicate());
            if cost.value.le(best_cost) {
                let acts = plan.possible_actions(&divider);
                enqueue_candidates(&mut queue, &plan, &acts);
            }
        }
        match plan.exact_cost() {
            Some(c) => {
                if plan.is_fully_resolved() && c.lt(best_cost) {
                    proof {
                        crate::ratio::lemma_cv_lt_le_trans(c, best_cost, seed_cost);
                    }
                    best_cost = c;
                    best_plan = plan;
                }
            },
            None => {},
        }
        i = i + 1;
    }
    best_plan
}

} // verus!
