use vstd::prelude::*;

use crate::cost::lemma_resolved_exact;
use crate::cost::s_exact_cost;
use crate::plan::fully_resolved;
use crate::plan::plan_wf;
use crate::plan::Entries;
use crate::plan::Plan;
use crate::ratio::CostVal;
use crate::search::naive_plan_entries;
use crate::search::naive_solver;
use crate::state::State;

verus! {

/// A strategy that fully resolves a plan for any state it admits: the source
/// of the search's heuristic estimates.
pub trait Solver: Sized {
    spec fn admits(&self, s: State) -> bool;

    /// The confirmed cost of the plan this solver produces for `s`: solving
    /// is a function of the state alone.
    spec fn spec_solution_cost(&self, s: State) -> CostVal;

    fn solve(&mut self, s: State) -> (p: Plan)
        requires
            old(self).admits(s),
        ensures
            p.wf(),
            p.start == s,
            fully_resolved(p.plans@),
            s_exact_cost(p.plans@, s) == Some(old(self).spec_solution_cost(s)),
            forall|q: State| #[trigger] final(self).admits(q) == old(self).admits(q),
            forall|q: State|
                #[trigger] final(self).spec_solution_cost(q) == old(self).spec_solution_cost(q),
    ;
}

/// The naive throw-until-enough-then-map strategy as a solver.
pub struct NaiveSolver;

impl Solver for NaiveSolver {
    open spec fn admits(&self, s: State) -> bool {
        s.target >= 1 && (s.target - 1) * (s.source as int) <= u32::MAX as int
    }

    open spec fn spec_solution_cost(&self, s: State) -> CostVal {
        match s_exact_cost(naive_plan_entries(s), s) {
            Some(c) => c,
            None => CostVal::NonFinite,
        }
    }

    fn solve(&mut self, s: State) -> (p: Plan) {
        naive_solver(s)
    }
}

/// The stored value is the confirmed exact cost of some fully resolved,
/// well-formed plan rooted at the stored state.
pub open spec fn cache_entry_ok(e: (State, CostVal)) -> bool {
    exists|es: Entries|
        #![trigger plan_wf(es, e.0)]
        plan_wf(es, e.0) && fully_resolved(es) && s_exact_cost(es, e.0) == Some(e.1)
}

/// First-match lookup among the cached costs.
pub open spec fn cache_lookup(entries: Seq<(State, CostVal)>, s: State) -> Option<CostVal>
    decreases entries.len(),
{
    if entries.len() == 0 {
        None
    } else if entries[0].0 == s {
        Some(entries[0].1)
    } else {
        cache_lookup(entries.drop_first(), s)
    }
}

/// A memoizing wrapper around a solver-derived cost estimate: the underlying
/// solver runs at most once per distinct state for the lifetime of the cache.
pub struct HeuristicCache<S: Solver> {
    pub cache: Vec<(State, CostVal)>,
    pub solver: S,
}

impl<S: Solver> HeuristicCache<S> {
    pub open spec fn wf(&self) -> bool {
        forall|i: int|
            0 <= i < self.cache@.len() ==> {
                let e = #[trigger] self.cache@[i];
                cache_entry_ok(e) && e.1 == self.solver.spec_solution_cost(e.0)
            }
    }

    /// A fresh cache around `solver`: nothing computed yet.
    pub fn new(solver: S) -> (r: HeuristicCache<S>)
        ensures
            r.wf(),
            r.cache@.len() == 0,
            r.solver == solver,
    {
        HeuristicCache { cache: Vec::new(), solver }
    }

    /// The exact cost of the solver's plan for `state`, answered from the
    /// cache when `state` was seen before — in that case nothing runs and
    /// nothing changes — and computed, stored and returned exactly once
    /// otherwise.
    pub fn calculate(&mut self, state: State) -> (r: CostVal)
        requires
            old(self).wf(),
            old(self).solver.admits(state),
        ensures
            final(self).wf(),
            r == old(self).solver.spec_solution_cost(state),
            cache_entry_ok((state, r)),
            cache_lookup(final(self).cache@, state) == Some(r),
            match cache_lookup(old(self).cache@, state) {
                Some(v) => r == v && *final(self) == *old(self),
                None => final(self).cache@ == old(self).cache@.push((state, r)),
            },
            forall|q: State| #[trigger] final(self).solver.admits(q) == old(self).solver.admits(q),
            forall|q: State|
                #[trigger] final(self).solver.spec_solution_cost(q)
                    == old(self).solver.spec_solution_cost(q),
    {
        let ghost es0 = self.cache@;
        proof {
            assert(es0.skip(0) =~= es0);
        }
        let mut i: usize = 0;
        while i < self.cache.len()
            invariant
                *self == *old(self),
                self.wf(),
                es0 == self.cache@,
                i <= es0.len(),
                cache_lookup(es0, state) == cache_lookup(es0.skip(i as int), state),
                forall|j: int| 0 <= j < i as int ==> (#[trigger] es0[j]).0 != state,
            decreases es0.len() - i,
        {
            let (k, v) = self.cache[i];
            proof {
                assert(es0.skip(i as int).len() > 0);
                assert(es0.skip(i as int)[0] == es0[i as int]);
            }
            if k == state {
                proof {
                    assert(cache_lookup(es0, state) == Some(v));
                    assert(cache_entry_ok(es0[i as int]));
                    assert(v == self.solver.spec_solution_cost(state));
                }
                return v;
            }
            proof {
                assert(es0.skip(i as int).drop_first() =~= es0.skip(i as int + 1));
            }
            i += 1;
        }
        proof {
            assert(es0.skip(i as int).len() == 0);
            assert(cache_lookup(es0, state) is None);
        }
        let p = self.solver.solve(state);
        let r = match p.exact_cost() {
            Some(c) => c,
            None => {
                proof {
                    lemma_resolved_exact(p.plans@, p.start);
                    assert(false);
                }
                CostVal::NonFinite
            },
        };
        proof {
            assert(plan_wf(p.plans@, state) && fully_resolved(p.plans@) && s_exact_cost(
                p.plans@,
                state,
            ) == Some(r));
            assert(cache_entry_ok((state, r)));
            assert(r == old(self).solver.spec_solution_cost(state));
        }
        let ghost pre = self.cache@;
        self.cache.push((state, r));
        proof {
            assert(forall|j: int| 0 <= j < pre.len() ==> #[trigger] self.cache@[j] == pre[j]);
            lemma_cache_lookup_extend(pre, state, r);
            assert forall|j: int| 0 <= j < self.cache@.len() implies {
                let e = #[trigger] self.cache@[j];
                cache_entry_ok(e) && e.1 == self.solver.spec_solution_cost(e.0)
            } by {
                if j < pre.len() {
                    assert(self.cache@[j] == pre[j]);
                    assert(pre[j].1 == old(self).solver.spec_solution_cost(pre[j].0));
                } else {
                    assert(self.cache@[j] == (state, r));
                }
            }
        }
        r
    }
}

/// Appending a fresh state's cost makes lookup answer it.
proof fn lemma_cache_lookup_extend(pre: Seq<(State, CostVal)>, state: State, r: CostVal)
    requires
        cache_lookup(pre, state) is None,
    ensures
        cache_lookup(pre.push((state, r)), state) == Some(r),
    decreases pre.len(),
{
    let post = pre.push((state, r));
    if pre.len() == 0 {
        assert(post[0] == (state, r));
    } else {
        assert(post[0] == pre[0]);
        assert(pre[0].0 != state);
        assert(post.drop_first() =~= pre.drop_first().push((state, r)));
        lemma_cache_lookup_extend(pre.drop_first(), state, r);
    }
}

} // verus!
