use vstd::prelude::*;

use crate::game_state_trait::GameResult;
use crate::game_state_trait::GameState;
use chess::Board;
use chess::ChessMove;
use chess::MoveGen;
use chess::Piece;
use std::str::FromStr;

verus! {

#[verifier::external_type_specification]
#[verifier::external_body]
pub struct ExBoard(Board);

#[verifier::external_type_specification]
#[verifier::external_body]
pub struct ExChessMove(ChessMove);

/// The characters that stand for a white piece in a FEN placement field.
pub open spec fn spec_white_piece(c: char) -> bool {
    c == 'K' || c == 'Q' || c == 'R' || c == 'B' || c == 'N' || c == 'P'
}

/// The characters that stand for a black piece in a FEN placement field.
pub open spec fn spec_black_piece(c: char) -> bool {
    c == 'k' || c == 'q' || c == 'r' || c == 'b' || c == 'n' || c == 'p'
}

/// Which characters a counting class selects: all white pieces, all black
/// pieces, the white king, or the black king.
pub open spec fn spec_class_match(c: char, class: int) -> bool {
    if class == 0 {
        spec_white_piece(c)
    } else if class == 1 {
        spec_black_piece(c)
    } else if class == 2 {
        c == 'K'
    } else {
        c == 'k'
    }
}

/// The number of characters of the given class in the encoding's
/// piece-placement field: the prefix before the first space (later FEN
/// fields reuse piece letters for castling rights and must not count).
pub open spec fn spec_count_placement(s: Seq<char>, class: int) -> int
    decreases s.len(),
{
    if s.len() == 0 {
        0
    } else if s[0] == ' ' {
        0
    } else {
        (if spec_class_match(s[0], class) {
            1int
        } else {
            0int
        }) + spec_count_placement(s.drop_first(), class)
    }
}

/// How far one placement character advances the FEN parser along a rank:
/// a digit by its value, a piece letter by one square. Any other character
/// weighs 9, which no row can absorb; the parser rejects such encodings
/// anyway, so over-weighting them only rejects them here first.
pub open spec fn spec_char_weight(c: char) -> int {
    if c == '1' {
        1
    } else if c == '2' {
        2
    } else if c == '3' {
        3
    } else if c == '4' {
        4
    } else if c == '5' {
        5
    } else if c == '6' {
        6
    } else if c == '7' {
        7
    } else if c == '8' {
        8
    } else if spec_white_piece(c) || spec_black_piece(c) {
        1
    } else {
        9
    }
}

/// Shape sanity of the placement field: at most eight rank rows (seven `/`
/// separators) and at most eight squares' worth of entries per row. The
/// chess crate's parser wraps files and ranks silently when a row or the
/// row count overflows, so a heavier encoding would overwrite
/// already-placed pieces — including a counted king.
pub open spec fn spec_shape_ok(s: Seq<char>, row_weight: int, separators: int) -> bool
    decreases s.len(),
{
    if s.len() == 0 || s[0] == ' ' {
        true
    } else if s[0] == '/' {
        separators < 7 && spec_shape_ok(s.drop_first(), 0, separators + 1)
    } else {
        row_weight + spec_char_weight(s[0]) <= 8 && spec_shape_ok(
            s.drop_first(),
            row_weight + spec_char_weight(s[0]),
            separators,
        )
    }
}

/// Population sanity of an encoding: a placement field whose rows fit the
/// board with no square written twice, exactly one king and at most 16
/// pieces of each color. The chess crate's move generator writes each
/// movable piece into a fixed 18-slot move list sized for real positions
/// (at most 16 pieces plus two en-passant entries), and its board
/// validation runs only after pin computation, so over-populated or
/// king-less encodings must be rejected before the crate ever sees them —
/// and only an encoding whose rows do not wrap keeps the kings it counts.
pub open spec fn spec_placement_ok(s: Seq<char>) -> bool {
    &&& spec_shape_ok(s, 0, 0)
    &&& spec_count_placement(s, 0) <= 16
    &&& spec_count_placement(s, 1) <= 16
    &&& spec_count_placement(s, 2) == 1
    &&& spec_count_placement(s, 3) == 1
}

/// Computes how far one placement character advances the parser.
fn char_weight(c: char) -> (w: usize)
    ensures
        w as int == spec_char_weight(c),
{
    if c == '1' {
        1
    } else if c == '2' {
        2
    } else if c == '3' {
        3
    } else if c == '4' {
        4
    } else if c == '5' {
        5
    } else if c == '6' {
        6
    } else if c == '7' {
        7
    } else if c == '8' {
        8
    } else if c == 'K' || c == 'Q' || c == 'R' || c == 'B' || c == 'N' || c == 'P' || c == 'k'
        || c == 'q' || c == 'r' || c == 'b' || c == 'n' || c == 'p' {
        1
    } else {
        9
    }
}

/// Checks the population sanity of an encoding's placement field.
pub fn placement_ok(fen: &str) -> (r: bool)
    ensures
        r == spec_placement_ok(fen@),
{
    let length: usize = fen.unicode_len();
    let mut i: usize = 0;
    let mut white: usize = 0;
    let mut black: usize = 0;
    let mut white_kings: usize = 0;
    let mut black_kings: usize = 0;
    let mut row_weight: usize = 0;
    let mut separators: usize = 0;
    proof {
        assert(fen@.skip(0) =~= fen@);
    }
    while i < length
        invariant
            i <= length,
            length == fen@.len(),
            white <= i && black <= i && white_kings <= i && black_kings <= i,
            row_weight <= 8,
            separators <= 7,
            white + spec_count_placement(fen@.skip(i as int), 0) == spec_count_placement(fen@, 0),
            black + spec_count_placement(fen@.skip(i as int), 1) == spec_count_placement(fen@, 1),
            white_kings + spec_count_placement(fen@.skip(i as int), 2) == spec_count_placement(
                fen@,
                2,
            ),
            black_kings + spec_count_placement(fen@.skip(i as int), 3) == spec_count_placement(
                fen@,
                3,
            ),
            spec_shape_ok(fen@, 0, 0) == spec_shape_ok(
                fen@.skip(i as int),
                row_weight as int,
                separators as int,
            ),
        decreases length - i,
    {
        let c: char = fen.get_char(i);
        proof {
            assert(fen@.skip(i as int)[0] == fen@[i as int]);
        }
        if c == ' ' {
            proof {
                assert(spec_count_placement(fen@.skip(i as int), 0) == 0);
                assert(spec_count_placement(fen@.skip(i as int), 1) == 0);
                assert(spec_count_placement(fen@.skip(i as int), 2) == 0);
                assert(spec_count_placement(fen@.skip(i as int), 3) == 0);
                assert(spec_shape_ok(fen@.skip(i as int), row_weight as int, separators as int));
            }
            return white <= 16 && black <= 16 && white_kings == 1 && black_kings == 1;
        }
        proof {
            assert(fen@.skip(i as int).drop_first() =~= fen@.skip(i + 1));
        }
        if c == '/' {
            if separators >= 7 {
                return false;
            }
            separators = separators + 1;
            row_weight = 0;
        } else {
            let w: usize = char_weight(c);
            if row_weight + w > 8 {
                return false;
            }
            row_weight = row_weight + w;
        }
        if c == 'K' {
            white_kings = white_kings + 1;
        } else if c == 'k' {
            black_kings = black_kings + 1;
        }
        if c == 'K' || c == 'Q' || c == 'R' || c == 'B' || c == 'N' || c == 'P' {
            white = white + 1;
        } else if c == 'k' || c == 'q' || c == 'r' || c == 'b' || c == 'n' || c == 'p' {
            black = black + 1;
        }
        i = i + 1;
    }
    proof {
        assert(fen@.skip(length as int) =~= Seq::<char>::empty());
        assert(spec_count_placement(Seq::<char>::empty(), 0) == 0);
        assert(spec_count_placement(Seq::<char>::empty(), 1) == 0);
        assert(spec_count_placement(Seq::<char>::empty(), 2) == 0);
        assert(spec_count_placement(Seq::<char>::empty(), 3) == 0);
        assert(spec_shape_ok(Seq::<char>::empty(), row_weight as int, separators as int));
    }
    white <= 16 && black <= 16 && white_kings == 1 && black_kings == 1
}

/// The encodings that the chess crate's FEN parser accepts; parsing is
/// deterministic in the encoding, so its acceptance carries a name.
pub uninterp spec fn fen_parses(s: Seq<char>) -> bool;

/// Relies on chess's `Board::from_str`: parses a FEN position encoding,
/// reporting an invalid encoding as an error (mapped to `None` here). The
/// population precondition keeps king-less encodings out: the crate
/// computes pin information (indexing its ray tables with a missing king's
/// square) before it validates the board.
#[verifier::external_body]
fn parse_board(fen: &str) -> (r: Option<Board>)
    requires
        spec_placement_ok(fen@),
    ensures
        r is Some <==> fen_parses(fen@),
{
    match Board::from_str(fen) {
        Ok(board) => Some(board),
        Err(_) => None,
    }
}

/// Relies on chess's `MoveGen::new_legal`: enumerates the legal moves of a
/// position, collected into a vector. The generator writes into a fixed
/// 18-slot move list, enough for any board with at most 16 pieces per side;
/// every board handed in here comes from `parse_board`, whose precondition
/// bounds the population, or from a legal move made on such a board.
#[verifier::external_body]
fn legal_moves(board: &Board) -> Vec<ChessMove> {
    MoveGen::new_legal(board).collect()
}

/// Relies on chess's `Board::legal` and `Board::make_move_new`: the move is
/// checked against this very board's own move generator before it is
/// applied, because `make_move_new` panics (it unwraps the piece on the
/// move's source square) or reads out of bounds (on a king capture) when
/// given a move that is not legal for the board. An illegal move comes back
/// as `None`. Both calls run the crate's move generator, which is safe on
/// every board the library builds: the parse guard bounds the population
/// and moves never add pieces.
#[verifier::external_body]
fn apply_move(state: &ChessState, chess_move: &ChessMove) -> Option<Board> {
    if state.board.legal(*chess_move) {
        Some(state.board.make_move_new(*chess_move))
    } else {
        None
    }
}

/// Computes the fifty-move counter after a move: reset to zero exactly when
/// the move resets it (a capture or a pawn move), otherwise grown by one,
/// saturating at the type's maximum so that the transform is total.
pub fn next_fifty_move_counter(resets: bool, current: u16) -> (r: u16)
    ensures
        r == (if resets {
            0u16
        } else if current == u16::MAX {
            u16::MAX
        } else {
            (current + 1) as u16
        }),
{
    if resets {
        0
    } else if current == u16::MAX {
        u16::MAX
    } else {
        current + 1
    }
}

/// Relies on chess's `Board::side_to_move`: true when White is to move.
#[verifier::external_body]
fn white_to_move(board: &Board) -> bool {
    matches!(board.side_to_move(), chess::Color::White)
}

/// Relies on chess's `Board::checkers`: the bitboard of pieces giving
/// check, handed out as its raw 64-bit value (nonzero means in check).
#[verifier::external_body]
fn checkers_bits(board: &Board) -> u64 {
    board.checkers().0
}

/// Relies on chess's `Board::piece_on` and `ChessMove::get_dest`: whether
/// the move's destination square is occupied, which makes the move a
/// capture.
#[verifier::external_body]
fn is_capture(board: &Board, chess_move: &ChessMove) -> bool {
    board.piece_on(chess_move.get_dest()).is_some()
}

/// Relies on chess's `Board::piece_on` and `ChessMove::get_source`: whether
/// the moved piece is a pawn.
#[verifier::external_body]
fn moves_pawn(board: &Board, chess_move: &ChessMove) -> bool {
    matches!(board.piece_on(chess_move.get_source()), Some(Piece::Pawn))
}

/// Holds the state of the chessboard.
///
/// Wraps the chess crate's `Board` with the additions the engine's logic
/// reads: the fifty-move counter, the move that produced this position, and
/// plain-value mirrors of what the board reports at construction time (the
/// side to move, whether the side to move is in check, and the legal-move
/// list). The mirrors let every decision made from them be stated and
/// checked; the board itself stays the single source for move generation
/// and move application.
///
/// The game-end logic approximates "checkmate versus stalemate" using only
/// "are there checking pieces", and no 3-fold-repetition rule is tracked;
/// both are documented limitations of this rules collaborator, not of the
/// engine.
pub struct ChessState {
    /// The underlying position.
    pub board: Board,
    /// Moves since the last capture or pawn move; 50 or more forces a draw.
    pub fifty_move_counter: u16,
    /// The move that produced this position, `None` for a parsed root.
    pub last_move: Option<ChessMove>,
    /// True when White (the first player) is to move; alternates with every
    /// applied move.
    pub white_to_move: bool,
    /// Whether the side to move is in check, as the board reported when
    /// this state was built.
    pub in_check: bool,
    /// The legal moves of this position, generated once when this state was
    /// built.
    pub legal_actions: Vec<ChessMove>,
}

impl Clone for ChessState {
    /// Copies the state field by field; the action list is duplicated
    /// element by element.
    fn clone(&self) -> (r: Self)
        ensures
            r.board == self.board,
            r.fifty_move_counter == self.fifty_move_counter,
            r.last_move == self.last_move,
            r.white_to_move == self.white_to_move,
            r.in_check == self.in_check,
            r.legal_actions@ == self.legal_actions@,
    {
        let mut actions: Vec<ChessMove> = Vec::new();
        let mut i: usize = 0;
        while i < self.legal_actions.len()
            invariant
                i <= self.legal_actions@.len(),
                actions@ == self.legal_actions@.take(i as int),
            decreases self.legal_actions@.len() - i,
        {
            actions.push(self.legal_actions[i]);
            proof {
                assert(actions@ =~= self.legal_actions@.take(i + 1));
            }
            i = i + 1;
        }
        proof {
            assert(actions@ =~= self.legal_actions@);
        }
        ChessState {
            board: self.board,
            fifty_move_counter: self.fifty_move_counter,
            last_move: self.last_move,
            white_to_move: self.white_to_move,
            in_check: self.in_check,
            legal_actions: actions,
        }
    }
}

/// Allows the MCTS engine to build `ChessState` trees.
impl GameState<ChessMove> for ChessState {
    open spec fn spec_parses(encoding: Seq<char>) -> bool {
        spec_placement_ok(encoding) && fen_parses(encoding)
    }

    open spec fn spec_provenance(&self) -> Option<ChessMove> {
        self.last_move
    }

    open spec fn spec_side_to_move(&self) -> bool {
        self.white_to_move
    }

    open spec fn spec_actions(&self) -> Seq<ChessMove> {
        self.legal_actions@
    }

    open spec fn spec_status_with_moves_left(&self) -> bool {
        self.fifty_move_counter < 50
    }

    open spec fn spec_result(&self) -> GameResult {
        if !self.in_check || self.fifty_move_counter >= 50 {
            GameResult::Draw
        } else if !self.white_to_move {
            GameResult::FirstPlayerWin
        } else {
            GameResult::SecondPlayerWin
        }
    }

    fn from_str(game_state: String) -> (r: Option<Self>)
        ensures
            r is Some ==> (r->0).fifty_move_counter == 0 && (r->0).last_move is None,
    {
        if !placement_ok(game_state.as_str()) {
            return None;
        }
        let board = match parse_board(game_state.as_str()) {
            Some(b) => b,
            None => {
                return None;
            },
        };
        let legal_actions = legal_moves(&board);
        Some(
            ChessState {
                board,
                fifty_move_counter: 0,
                last_move: None,
                white_to_move: white_to_move(&board),
                in_check: checkers_bits(&board) != 0,
                legal_actions,
            },
        )
    }

    fn apply_action(&self, action: &ChessMove) -> (r: Self)
        ensures
            r.white_to_move == !self.white_to_move,
            r.last_move == Some(*action),
            r.fifty_move_counter == 0 || (self.fifty_move_counter < u16::MAX
                && r.fifty_move_counter == self.fifty_move_counter + 1) || (self.fifty_move_counter
                == u16::MAX && r.fifty_move_counter == u16::MAX),
    {
        // Any capture or pawn move resets the fifty-move counter; the exact
        // decision on the two flags lives in `next_fifty_move_counter`.
        let resets: bool = is_capture(&self.board, action) || moves_pawn(&self.board, action);
        let new_fifty_move_counter: u16 = next_fifty_move_counter(resets, self.fifty_move_counter);
        let new_board = match apply_move(self, action) {
            Some(b) => b,
            // A move the board's own generator refuses can only arise when
            // the cached action list was tampered with; keep the position.
            None => self.board,
        };
        let legal_actions = legal_moves(&new_board);
        ChessState {
            board: new_board,
            fifty_move_counter: new_fifty_move_counter,
            last_move: Some(*action),
            white_to_move: !self.white_to_move,
            in_check: checkers_bits(&new_board) != 0,
            legal_actions,
        }
    }

    fn status_with_moves_left(&self) -> (r: bool) {
        // With legal moves left the game can still end in a draw through
        // the fifty-move rule. The 3-fold-repetition rule is not considered.
        self.fifty_move_counter < 50
    }

    fn result(&self) -> (r: GameResult) {
        // With no legal moves left, no checking piece means stalemate; the
        // fifty-move rule also draws. Otherwise the side to move has lost.
        if !self.in_check || self.fifty_move_counter >= 50 {
            GameResult::Draw
        } else if !self.white_to_move {
            GameResult::FirstPlayerWin
        } else {
            GameResult::SecondPlayerWin
        }
    }

    fn generate_legal_actions(&self) -> (r: Vec<ChessMove>) {
        let mut out: Vec<ChessMove> = Vec::new();
        let mut i: usize = 0;
        while i < self.legal_actions.len()
            invariant
                i <= self.legal_actions@.len(),
                out@ == self.legal_actions@.take(i as int),
            decreases self.legal_actions@.len() - i,
        {
            out.push(self.legal_actions[i]);
            proof {
                assert(out@ =~= self.legal_actions@.take(i + 1));
            }
            i = i + 1;
        }
        proof {
            assert(out@ =~= self.legal_actions@);
        }
        out
    }

    fn side_to_move(&self) -> (r: bool) {
        self.white_to_move
    }
}

} // verus!
