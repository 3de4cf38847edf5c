use vstd::prelude::*;

use crate::ratio::cv_wf;
use crate::ratio::CostVal;
use crate::state::State;

verus! {

/// The estimator capability: a function from state to provisional cost, used
/// for states still pending. `spec_estimate` is the mathematical function an
/// implementation answers; `estimate` returns exactly that value, always
/// well-formed, and never changes the function — so repeated evaluation of an
/// unchanged plan gives identical results.
pub trait Heuristic: Sized {
    spec fn spec_estimate(&self, s: State) -> CostVal;

    fn estimate(&mut self, s: State) -> (r: CostVal)
        ensures
            r == old(self).spec_estimate(s),
            cv_wf(r),
            forall|q: State|
                #[trigger] final(self).spec_estimate(q) == old(self).spec_estimate(q),
    ;
}

/// The spec-level function an estimator answers.
pub open spec fn hfun<H: Heuristic>(h: H) -> spec_fn(State) -> CostVal {
    |q: State| h.spec_estimate(q)
}

/// The estimator that answers zero for every state: always an admissible
/// lower bound.
pub struct ZeroHeuristic;

impl Heuristic for ZeroHeuristic {
    open spec fn spec_estimate(&self, s: State) -> CostVal {
        CostVal::Finite { num: 0, den: 1 }
    }

    fn estimate(&mut self, s: State) -> (r: CostVal) {
        CostVal::zero()
    }
}

/// First-match lookup in a stored estimate table.
pub open spec fn table_estimate(
    entries: Seq<(State, CostVal)>,
    dflt: CostVal,
    s: State,
) -> CostVal
    decreases entries.len(),
{
    if entries.len() == 0 {
        dflt
    } else if entries[0].0 == s {
        entries[0].1
    } else {
        table_estimate(entries.drop_first(), dflt, s)
    }
}

/// A malformed cost (a non-positive denominator) degrades to `NonFinite`, so
/// a table estimator always answers a well-formed value.
pub open spec fn cv_or_non_finite(c: CostVal) -> CostVal {
    if cv_wf(c) {
        c
    } else {
        CostVal::NonFinite
    }
}

/// A table-driven estimator: answers the first stored value for a state, and
/// the default for any state not stored.
pub struct TableHeuristic {
    pub entries: Vec<(State, CostVal)>,
    pub default: CostVal,
}

impl TableHeuristic {
    pub fn new(entries: Vec<(State, CostVal)>, default: CostVal) -> (r: TableHeuristic)
        ensures
            r.entries@ == entries@,
            r.default == default,
    {
        TableHeuristic { entries, default }
    }
}

impl Heuristic for TableHeuristic {
    open spec fn spec_estimate(&self, s: State) -> CostVal {
        cv_or_non_finite(table_estimate(self.entries@, self.default, s))
    }

    fn estimate(&mut self, s: State) -> (r: CostVal) {
        let ghost es = self.entries@;
        proof {
            assert(es.skip(0) =~= es);
        }
        let mut found = self.default;
        let mut i: usize = 0;
        let mut hit = false;
        while i < self.entries.len() && !hit
            invariant
                es == self.entries@,
                self.default == found || hit,
                i <= es.len(),
                !hit ==> table_estimate(es, self.default, s) == table_estimate(
                    es.skip(i as int),
                    self.default,
                    s,
                ),
                hit ==> found == table_estimate(es, self.default, s),
            decreases es.len() - i + (if hit { 0int } else { 1int }),
        {
            let (k, v) = self.entries[i];
            if k == s {
                found = v;
                hit = true;
                proof {
                    assert(es.skip(i as int).len() > 0);
                    assert(es.skip(i as int)[0] == es[i as int]);
                }
            } else {
                proof {
                    assert(es.skip(i as int).len() > 0);
                    assert(es.skip(i as int)[0] == es[i as int]);
                    assert(es.skip(i as int).drop_first() =~= es.skip(i as int + 1));
                }
                i += 1;
            }
        }
        proof {
            if !hit {
                assert(es.skip(i as int).len() == 0);
                assert(table_estimate(es, self.default, s) == self.default);
            }
        }
        match found {
            CostVal::Finite { num, den } => {
                if den >= 1 {
                    CostVal::Finite { num, den }
                } else {
                    CostVal::NonFinite
                }
            },
            CostVal::NonFinite => CostVal::NonFinite,
        }
    }
}

} // verus!
