use std::str::FromStr;

use chess::{Board, ChessMove, File, Piece, Rank, Square};
use mcts::chess_env::ChessState;
use mcts::game_state_trait::GameState;

/// Parses a chess state, panicking on an invalid encoding; the tests below
/// only use valid positions.
fn state_from(fen: &str) -> ChessState {
    ChessState::from_str(fen.to_string()).unwrap()
}

/// Test if the starting position generates correctly.
#[test]
fn test_generate_root() {
    let ground_truth =
        Board::from_str("rnbqkbnr/pppppppp/8/8/8/8/PPPPPPPP/RNBQKBNR w KQkq - 0 1").unwrap();
    let test = state_from("rnbqkbnr/pppppppp/8/8/8/8/PPPPPPPP/RNBQKBNR w KQkq - 0 1").board;
    assert!(test == ground_truth);
}

/// A series of tests to check if the logic behind making moves is correct.
///
/// Tests e4 and Nf3 opening moves.
#[test]
fn test_apply_action_new_from_start() {
    let starting_state = state_from("rnbqkbnr/pppppppp/8/8/8/8/PPPPPPPP/RNBQKBNR w KQkq - 0 1");

    let ground_truth =
        Board::from_str("rnbqkbnr/pppppppp/8/8/4P3/8/PPPP1PPP/RNBQKBNR b KQkq - 0 1").unwrap();
    let test = starting_state.apply_action(&ChessMove::new(
        Square::make_square(Rank::Second, File::E),
        Square::make_square(Rank::Fourth, File::E),
        None,
    ));
    assert!(test.board == ground_truth);

    let ground_truth =
        Board::from_str("rnbqkbnr/pppppppp/8/8/8/5N2/PPPPPPPP/RNBQKB1R b KQkq - 1 1").unwrap();
    let test = starting_state.apply_action(&ChessMove::new(
        Square::make_square(Rank::First, File::G),
        Square::make_square(Rank::Third, File::F),
        None,
    ));
    assert!(test.board == ground_truth);
}

/// Tests to see if ending positions are correctly produced.
#[test]
fn test_apply_action_new_before_end() {
    let before_fools_mate =
        state_from("rnbqkbnr/pppp1ppp/4p3/8/5P2/4P3/PPPP2PP/RNBQKBNR b KQkq - 0 2");

    let ground_truth =
        Board::from_str("rnb1kbnr/pppp1ppp/4p3/8/5P1q/4P3/PPPP2PP/RNBQKBNR w KQkq - 1 3").unwrap();
    let test = before_fools_mate.apply_action(&ChessMove::new(
        Square::make_square(Rank::Eighth, File::D),
        Square::make_square(Rank::Fourth, File::H),
        None,
    ));
    assert!(test.board == ground_truth);
}

/// Tests to see if en passant is handled correctly.
#[test]
fn test_apply_action_new_enpassant() {
    let before_en_passant =
        state_from("rnbqkbnr/pppp2pp/4p3/4Pp2/8/8/PPPP1PPP/RNBQKBNR w KQkq f6 0 3");

    let ground_truth =
        Board::from_str("rnbqkbnr/pppp2pp/4pP2/8/8/8/PPPP1PPP/RNBQKBNR b KQkq - 0 3").unwrap();
    let test = before_en_passant.apply_action(&ChessMove::new(
        Square::make_square(Rank::Fifth, File::E),
        Square::make_square(Rank::Sixth, File::F),
        None,
    ));
    assert!(test.board == ground_truth);
}

/// Test to see if promotion is handled correctly.
#[test]
fn test_apply_action_new_before_promotion() {
    let before_promotion = state_from("rnbq1bnr/ppppkP1p/4p1p1/8/8/8/PPPP1PPP/RNBQKBNR w KQ - 1 5");

    let ground_truth =
        Board::from_str("rnbq1bQr/ppppk2p/4p1p1/8/8/8/PPPP1PPP/RNBQKBNR b KQ - 0 5").unwrap();
    let test = before_promotion.apply_action(&ChessMove::new(
        Square::make_square(Rank::Seventh, File::F),
        Square::make_square(Rank::Eighth, File::G),
        Some(Piece::Queen),
    ));
    assert!(test.board == ground_truth);

    let ground_truth =
        Board::from_str("rnbq1bNr/ppppk2p/4p1p1/8/8/8/PPPP1PPP/RNBQKBNR b KQ - 0 5").unwrap();
    let test = before_promotion.apply_action(&ChessMove::new(
        Square::make_square(Rank::Seventh, File::F),
        Square::make_square(Rank::Eighth, File::G),
        Some(Piece::Knight),
    ));
    assert!(test.board == ground_truth);
}

/// Tests to check that legal move lists are correct and complete.
///
/// Tests legal move generation during an arbitrary middle game position.
#[test]
fn test_generate_legal_actions_from_middle_game() {
    let middle_game = state_from("rnb1kbnr/ppp2ppp/3p4/4p1q1/4P3/3P1N2/PPP2PPP/RNBQKB1R w KQkq - 1 4");

    let mut ground_truth = [
        // Pawn moves.
        ChessMove::from_san(&middle_game.board, "a3").unwrap(),
        ChessMove::from_san(&middle_game.board, "a4").unwrap(),
        ChessMove::from_san(&middle_game.board, "b3").unwrap(),
        ChessMove::from_san(&middle_game.board, "b4").unwrap(),
        ChessMove::from_san(&middle_game.board, "c3").unwrap(),
        ChessMove::from_san(&middle_game.board, "c4").unwrap(),
        ChessMove::from_san(&middle_game.board, "d4").unwrap(),
        ChessMove::from_san(&middle_game.board, "g3").unwrap(),
        ChessMove::from_san(&middle_game.board, "g4").unwrap(),
        ChessMove::from_san(&middle_game.board, "h3").unwrap(),
        ChessMove::from_san(&middle_game.board, "h4").unwrap(),
        // Knight moves.
        ChessMove::from_san(&middle_game.board, "Na3").unwrap(),
        ChessMove::from_san(&middle_game.board, "Nc3").unwrap(),
        ChessMove::from_san(&middle_game.board, "Nbd2").unwrap(),
        ChessMove::from_san(&middle_game.board, "Nfd2").unwrap(),
        ChessMove::from_san(&middle_game.board, "Nd4").unwrap(),
        ChessMove::from_san(&middle_game.board, "Nxe5").unwrap(),
        ChessMove::from_san(&middle_game.board, "Nxg5").unwrap(),
        ChessMove::from_san(&middle_game.board, "Nh4").unwrap(),
        ChessMove::from_san(&middle_game.board, "Ng1").unwrap(),
        // Bishop moves.
        ChessMove::from_san(&middle_game.board, "Be2").unwrap(),
        ChessMove::from_san(&middle_game.board, "Bd2").unwrap(),
        ChessMove::from_san(&middle_game.board, "Be3").unwrap(),
        ChessMove::from_san(&middle_game.board, "Bf4").unwrap(),
        ChessMove::from_san(&middle_game.board, "Bxg5").unwrap(),
        // Rook moves.
        ChessMove::from_san(&middle_game.board, "Rg1").unwrap(),
        // Queen moves.
        ChessMove::from_san(&middle_game.board, "Qd2").unwrap(),
        ChessMove::from_san(&middle_game.board, "Qe2").unwrap(),
        // King moves.
        ChessMove::from_san(&middle_game.board, "Ke2").unwrap(),
    ];
    ground_truth.sort();

    let mut test = middle_game.generate_legal_actions();
    test.sort();

    assert!(test == ground_truth);
}

/// Test to see if legal move generation is correct while in check.
#[test]
fn test_generate_legal_actions_during_check() {
    let during_check = state_from("rnb1kbnr/pppp1ppp/8/4P3/7q/8/PPPPP1PP/RNBQKBNR w KQkq - 1 3");

    let mut ground_truth = [ChessMove::from_san(&during_check.board, "g3").unwrap()];
    ground_truth.sort();

    let mut test = during_check.generate_legal_actions();
    test.sort();

    assert!(test == ground_truth);
}

/// Ensures the legal move list is empty after checkmate.
#[test]
fn test_generate_legal_actions_after_mate() {
    let after_mate = state_from("rnb1kbnr/pppp1ppp/4p3/8/6Pq/5P2/PPPPP2P/RNBQKBNR w KQkq - 1 3");
    assert!(after_mate.generate_legal_actions().len() == 0);
}

/// Test whether the current player indicator is correct.
#[test]
fn test_side_to_move() {
    let game_start = state_from("rnbqkbnr/pppppppp/8/8/8/8/PPPPPPPP/RNBQKBNR w KQkq - 0 1");
    assert!(game_start.side_to_move());

    let middlegame_black_to_move =
        state_from("rn2kbnr/ppp3pp/3q1p2/4p3/4P1b1/3P1P2/PPP3PP/RNBQK2R b KQkq - 0 7");
    assert!(!middlegame_black_to_move.side_to_move());

    let checkmate_white_to_move =
        state_from("rn2k1nr/ppp3pp/5p2/2b1p3/4P3/3P3P/PPP4K/RNB3q1 w kq - 4 19");
    assert!(checkmate_white_to_move.side_to_move());
}
