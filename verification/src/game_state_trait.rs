use vstd::prelude::*;

verus! {

/// Represents the possible outcomes of a two player, turn-based game.
///
/// This is used to logically abstract results and their data representation.
#[derive(Clone, Copy, PartialEq, Eq, Structural, Debug)]
pub enum GameResult {
    FirstPlayerWin,
    SecondPlayerWin,
    Draw,
}

/// Represents the required game state behaviour necessary for the MCTS
/// engine to generate and explore game state trees.
///
/// `Action` is a generic data type representing a single legal move in the
/// game. Each specification function below names the value that the
/// like-named executable method returns, so that the engine's contracts can
/// speak about positions without inspecting the rules behind them.
pub trait GameState<Action>: Sized {
    /// The encodings that `from_str` accepts; parsing is a function of the
    /// encoding alone.
    spec fn spec_parses(encoding: Seq<char>) -> bool;

    /// The action that produced this position through `apply_action`; its
    /// value on a freshly parsed position is the implementation's choice.
    spec fn spec_provenance(&self) -> Option<Action>;

    /// The side that is due to move: true for the first player, false for
    /// the second player.
    spec fn spec_side_to_move(&self) -> bool;

    /// The legal actions available from this position, in the order that
    /// `generate_legal_actions` hands them out.
    spec fn spec_actions(&self) -> Seq<Action>;

    /// The value of `status_with_moves_left`: false means the game must be
    /// treated as over even though legal actions remain.
    spec fn spec_status_with_moves_left(&self) -> bool;

    /// The terminal classification that `result` reports.
    spec fn spec_result(&self) -> GameResult;

    /// Parses a game state from a string representation.
    ///
    /// Returns `None` exactly when the encoding is invalid.
    fn from_str(game_state: String) -> (r: Option<Self>)
        ensures
            r is Some <==> Self::spec_parses(game_state@),
    ;

    /// Generates a game state copy with `action` applied to it.
    ///
    /// The action must be one of this position's legal actions; the new
    /// position remembers it as its provenance.
    fn apply_action(&self, action: &Action) -> (r: Self)
        requires
            self.spec_actions().contains(*action),
        ensures
            r.spec_provenance() == Some(*action),
    ;

    /// Determines whether the game may continue, given the fact that there
    /// are still legal moves left.
    ///
    /// Returns false if the game has nonetheless ended (for example through
    /// a move-count-based forced draw), true otherwise. The value is only
    /// meaningful when at least one legal action exists.
    fn status_with_moves_left(&self) -> (r: bool)
        ensures
            r == self.spec_status_with_moves_left(),
    ;

    /// Determines who has won the game. The value is only meaningful when
    /// the game has ended: no legal actions remain, or
    /// `status_with_moves_left` is false.
    fn result(&self) -> (r: GameResult)
        ensures
            r == self.spec_result(),
    ;

    /// Generates the legal actions available from the current position.
    fn generate_legal_actions(&self) -> (r: Vec<Action>)
        ensures
            r@ == self.spec_actions(),
    ;

    /// Determines the side that is due to move.
    ///
    /// Returns true if the first player is due to move, false if the second
    /// player is due to move.
    fn side_to_move(&self) -> (r: bool)
        ensures
            r == self.spec_side_to_move(),
    ;
}

} // verus!
