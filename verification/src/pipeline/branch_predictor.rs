//! Branch prediction with one bit of history per branch.

use vstd::prelude::*;
use std::collections::HashMap;

verus! {

broadcast use vstd::std_specs::hash::group_hash_axioms;

/// The state of one branch after it has resolved as `taken`: the prediction
/// changes only when the outcome repeats the one before it.
///
/// `state.0` is the current prediction and `state.1` the last outcome.
pub open spec fn next_state(state: (bool, bool), taken: bool) -> (bool, bool) {
    match (state.1, taken) {
        (true, false) => (state.0, false),
        (false, false) => (false, false),
        (true, true) => (true, true),
        (false, true) => (state.0, true),
    }
}

/// A predictor that keeps, for every branch address it has seen, the current
/// prediction and the last outcome.
#[derive(Debug)]
pub struct BranchPredictor {
    branch_map: HashMap<u32, (bool, bool)>,
}

impl View for BranchPredictor {
    type V = Map<u32, (bool, bool)>;

    /// The state of every branch address: the current prediction and the
    /// last outcome. A branch that was never seen is predicted not taken and
    /// counts as last not taken.
    closed spec fn view(&self) -> Map<u32, (bool, bool)> {
        Map::total(
            |pc: u32|
                if self.branch_map@.contains_key(pc) {
                    self.branch_map@[pc]
                } else {
                    (false, false)
                },
        )
    }
}

/// The predictor that has seen no branch.
pub open spec fn unseen() -> Map<u32, (bool, bool)> {
    Map::total(|pc: u32| (false, false))
}

impl BranchPredictor {
    /// The state of the branch at `pc`.
    pub open spec fn state(&self, pc: u32) -> (bool, bool) {
        self@[pc]
    }

    /// The prediction for the branch at `pc`.
    pub open spec fn prediction(&self, pc: u32) -> bool {
        self.state(pc).0
    }

    /// A predictor that has seen no branch.
    pub fn new() -> (predictor: BranchPredictor)
        ensures
            predictor@ == unseen(),
    {
        let predictor = BranchPredictor { branch_map: HashMap::new() };
        assert(predictor@ =~= unseen());
        predictor
    }

    /// Predicts whether the branch at `pc` is taken.
    pub fn predict(&mut self, pc: u32) -> (taken: bool)
        ensures
            taken == old(self).prediction(pc),
            final(self)@ == old(self)@,
    {
        let taken: bool = match self.branch_map.get(&pc) {
            Some(state) => state.0,
            None => {
                self.branch_map.insert(pc, (false, false));
                false
            },
        };
        assert(self@ =~= old(self)@);
        taken
    }

    /// Records the outcome of the branch at `pc`; any `is_taken` but zero
    /// means that the branch was taken.
    pub fn update(&mut self, pc: u32, is_taken: u32)
        ensures
            final(self)@ == old(self)@.insert(pc, next_state(old(self)@[pc], is_taken != 0)),
    {
        let state: (bool, bool) = match self.branch_map.get(&pc) {
            Some(state) => *state,
            None => (false, false),
        };
        let next: (bool, bool) = match (state.1, is_taken != 0) {
            (true, false) => (state.0, false),
            (false, false) => (false, false),
            (true, true) => (true, true),
            (false, true) => (state.0, true),
        };
        self.branch_map.insert(pc, next);
        assert(self@ =~= old(self)@.insert(pc, next_state(old(self)@[pc], is_taken != 0)));
    }
}

impl Default for BranchPredictor {
    fn default() -> (predictor: BranchPredictor)
        ensures
            predictor@ == unseen(),
    {
        BranchPredictor::new()
    }
}

/// After the outcome `taken` of the branch at `pc` has been recorded, the
/// prediction for that branch is what the state of the branch and the
/// outcome give, and the prediction for every other branch is as before.
pub proof fn lemma_update_then_predict(
    predictor: Map<u32, (bool, bool)>,
    pc: u32,
    taken: bool,
    other: u32,
)
    requires
        other != pc,
    ensures
        predictor.insert(pc, next_state(predictor[pc], taken))[pc].0 == next_state(
            predictor[pc],
            taken,
        ).0,
        predictor.insert(pc, next_state(predictor[pc], taken))[other] == predictor[other],
{
}

/// Two outcomes in a row set the prediction to that outcome, whatever it was
/// before; a single outcome that differs from the last one leaves it alone.
pub proof fn lemma_prediction_follows_repeated_outcome(state: (bool, bool), taken: bool)
    ensures
        next_state(next_state(state, taken), taken).0 == taken,
        state.1 != taken ==> next_state(state, taken).0 == state.0,
        state.1 == taken ==> next_state(state, taken).0 == taken,
        next_state(state, taken).1 == taken,
{
}

} // verus!
