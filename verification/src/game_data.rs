use vstd::prelude::*;
use crate::game_2048_matrix::GameAction;

verus! {

/// An observer of move effects. The engine reports each effect exactly once,
/// in the order it occurred; an implementor states through `report_allowed`
/// which effects it can absorb and through `reported` what absorbing one does
/// to its state.
pub trait GameActionReporter: Sized {
    spec fn report_allowed(&self, action: GameAction) -> bool;

    spec fn reported(&self, pre: Self, action: GameAction) -> bool;

    fn report(&mut self, action: GameAction)
        requires
            old(self).report_allowed(action),
        ensures
            final(self).reported(*old(self), action),
    ;
}

/// Scorekeeping over the effect stream: the score accumulates every merge
/// result, and the largest merge result so far is kept.
pub struct GameData {
    pub score: u32,
    pub max_number: u32,
}

impl GameData {
    pub fn new() -> (d: GameData)
        ensures
            d.score == 0,
            d.max_number == 0,
    {
        GameData { score: 0, max_number: 0 }
    }
}

impl GameActionReporter for GameData {
    /// A merge is absorbable as long as the score does not overflow.
    open spec fn report_allowed(&self, action: GameAction) -> bool {
        match action {
            GameAction::Merge { merge_result, .. } => self.score + merge_result <= u32::MAX,
            GameAction::Move { .. } => true,
        }
    }

    /// A merge adds its result to the score and raises the maximum to it if
    /// it is larger; a plain move changes nothing.
    open spec fn reported(&self, pre: GameData, action: GameAction) -> bool {
        match action {
            GameAction::Merge { merge_result, .. } => self.score == pre.score + merge_result
                && self.max_number == (if pre.max_number < merge_result {
                    merge_result
                } else {
                    pre.max_number
                }),
            GameAction::Move { .. } => self.score == pre.score
                && self.max_number == pre.max_number,
        }
    }

    fn report(&mut self, action: GameAction) {
        if let GameAction::Merge { merge_result, .. } = action {
            self.score = self.score + merge_result;
            if self.max_number < merge_result {
                self.max_number = merge_result;
            }
        }
    }
}

} // verus!
