use vstd::prelude::*;

verus! {

/// One configuration of the decision problem. `source` and `target` are fixed
/// for a problem instance; `units` varies as moves are applied. A state is
/// solved once its `target` has been reduced to `1`.
#[derive(Debug, Clone, Copy, PartialEq, Eq, Hash, Structural)]
pub struct State {
    pub source: u32,
    pub target: u32,
    pub units: u32,
}

/// A move applicable to a pending state.
#[derive(Debug, Clone, Copy, PartialEq, Eq, Structural)]
pub enum Action {
    /// Throw one more time: multiplies the state's `units` by its `source`.
    Throw,
    /// Map this many units to a sub-problem whose `target` is divided by them.
    MapUnits(u32),
}

impl State {
    /// A fresh problem instance starts with a single unit.
    pub fn new(source: u32, target: u32) -> (s: Self)
        ensures
            s == (State { source, target, units: 1 }),
    {
        State { source, target, units: 1 }
    }

    /// A state is solved exactly when its target has been reduced to 1.
    pub fn solved(self) -> (r: bool)
        ensures
            r == (self.target == 1),
    {
        self.target == 1
    }
}

} // verus!
