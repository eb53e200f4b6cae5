use vstd::prelude::*;

use crate::game_state_trait::GameResult;
use crate::game_state_trait::GameState;

verus! {

/// Placeholder game state which holds only basic internal logic.
///
/// It has the necessary behaviour to exercise everything in the engine
/// except the simulation/rollout loop: every position is terminal (no legal
/// actions, result `Draw`), it remembers the last action applied to it, and
/// the side to move alternates with the depth.
#[derive(Clone, Copy, Debug)]
pub struct PlaceHolderState {
    pub last_action_made: u16,
    pub depth_counter: u16,
}

impl GameState<u16> for PlaceHolderState {
    open spec fn spec_parses(encoding: Seq<char>) -> bool {
        true
    }

    open spec fn spec_provenance(&self) -> Option<u16> {
        Some(self.last_action_made)
    }

    open spec fn spec_side_to_move(&self) -> bool {
        self.depth_counter % 2 == 0
    }

    open spec fn spec_actions(&self) -> Seq<u16> {
        Seq::empty()
    }

    open spec fn spec_status_with_moves_left(&self) -> bool {
        false
    }

    open spec fn spec_result(&self) -> GameResult {
        GameResult::Draw
    }

    fn from_str(game_state: String) -> (r: Option<Self>)
        ensures
            r == Some(PlaceHolderState { last_action_made: 0u16, depth_counter: 0u16 }),
    {
        Some(PlaceHolderState { last_action_made: 0, depth_counter: 0 })
    }

    fn apply_action(&self, action: &u16) -> (r: Self)
        ensures
            r.last_action_made == *action,
            r.depth_counter as int == (self.depth_counter + 1) % 0x10000,
    {
        PlaceHolderState {
            last_action_made: *action,
            depth_counter: self.depth_counter.wrapping_add(1),
        }
    }

    fn status_with_moves_left(&self) -> (r: bool) {
        false
    }

    fn result(&self) -> (r: GameResult) {
        GameResult::Draw
    }

    fn generate_legal_actions(&self) -> (r: Vec<u16>) {
        Vec::new()
    }

    fn side_to_move(&self) -> (r: bool) {
        self.depth_counter % 2 == 0
    }
}

} // verus!
