//! Sides, the boards of a position, and positions with the making and taking back
//! of moves.
use crate::bboard::BBoard;
use crate::game_setup::ChessMove;
use vstd::prelude::*;
use vstd::string::StringExecFns;

verus! {

/// The wing on which a king castles.
#[derive(Clone, Copy, PartialEq, Eq, Structural, Debug)]
pub enum CastleSide {
    Queen,
    King,
}

/// The names of the boards of a position: for each side its six kinds of pieces,
/// all its pieces together, its castling rights (bit 0 for the king's wing, bit 1 for
/// the queen's) and the square that its pawn skipped on the last move, which the
/// other side may capture in passing.
#[derive(Clone, Copy, PartialEq, Eq, Structural, Debug, Hash)]
pub enum BBPiece {
    WKing,
    WPawn,
    WRook,
    WKnight,
    WBishop,
    WQueen,
    WAll,
    WCastles,
    WEnPassant,
    BKing,
    BPawn,
    BRook,
    BKnight,
    BBishop,
    BQueen,
    BAll,
    BCastles,
    BEnPassant,
}

/// The places of the boards of one side, counted from the side's first board.
pub const KING: usize = 0;

pub const PAWN: usize = 1;

pub const ROOK: usize = 2;

pub const KNIGHT: usize = 3;

pub const BISHOP: usize = 4;

pub const QUEEN: usize = 5;

pub const ALL: usize = 6;

pub const CASTLES: usize = 7;

pub const EN_PASSANT: usize = 8;

/// How many boards a side has, which is the place of Black's first board.
pub const BBPIECE_MIDDLE: usize = 9;

impl BBPiece {
    /// The place of the board in a position.
    pub open spec fn index(self) -> int {
        match self {
            BBPiece::WKing => 0,
            BBPiece::WPawn => 1,
            BBPiece::WRook => 2,
            BBPiece::WKnight => 3,
            BBPiece::WBishop => 4,
            BBPiece::WQueen => 5,
            BBPiece::WAll => 6,
            BBPiece::WCastles => 7,
            BBPiece::WEnPassant => 8,
            BBPiece::BKing => 9,
            BBPiece::BPawn => 10,
            BBPiece::BRook => 11,
            BBPiece::BKnight => 12,
            BBPiece::BBishop => 13,
            BBPiece::BQueen => 14,
            BBPiece::BAll => 15,
            BBPiece::BCastles => 16,
            BBPiece::BEnPassant => 17,
        }
    }

    /// The board at place `i`; `WKing` for a number that is no place.
    pub open spec fn at(i: int) -> BBPiece {
        if i == 1 {
            BBPiece::WPawn
        } else if i == 2 {
            BBPiece::WRook
        } else if i == 3 {
            BBPiece::WKnight
        } else if i == 4 {
            BBPiece::WBishop
        } else if i == 5 {
            BBPiece::WQueen
        } else if i == 6 {
            BBPiece::WAll
        } else if i == 7 {
            BBPiece::WCastles
        } else if i == 8 {
            BBPiece::WEnPassant
        } else if i == 9 {
            BBPiece::BKing
        } else if i == 10 {
            BBPiece::BPawn
        } else if i == 11 {
            BBPiece::BRook
        } else if i == 12 {
            BBPiece::BKnight
        } else if i == 13 {
            BBPiece::BBishop
        } else if i == 14 {
            BBPiece::BQueen
        } else if i == 15 {
            BBPiece::BAll
        } else if i == 16 {
            BBPiece::BCastles
        } else if i == 17 {
            BBPiece::BEnPassant
        } else {
            BBPiece::WKing
        }
    }

    /// The side whose board it is.
    pub open spec fn side(self) -> Side {
        if self.index() < 9 {
            Side::White
        } else {
            Side::Black
        }
    }

    /// The material value of a piece of this kind, negative for Black; zero for
    /// a board that is not that of a kind of piece.
    pub open spec fn material(self) -> int {
        match self {
            BBPiece::WKing => 40000,
            BBPiece::WPawn => 100,
            BBPiece::WRook => 500,
            BBPiece::WKnight => 320,
            BBPiece::WBishop => 330,
            BBPiece::WQueen => 900,
            BBPiece::BKing => -40000,
            BBPiece::BPawn => -100,
            BBPiece::BRook => -500,
            BBPiece::BKnight => -320,
            BBPiece::BBishop => -330,
            BBPiece::BQueen => -900,
            _ => 0,
        }
    }

    /// The letter of the piece in a position's text: upper case for White, lower
    /// case for Black, and a star for a board that is not that of a kind of piece.
    pub open spec fn letter(self) -> char {
        match self {
            BBPiece::WKing => 'K',
            BBPiece::WPawn => 'P',
            BBPiece::WRook => 'R',
            BBPiece::WKnight => 'N',
            BBPiece::WBishop => 'B',
            BBPiece::WQueen => 'Q',
            BBPiece::BKing => 'k',
            BBPiece::BPawn => 'p',
            BBPiece::BRook => 'r',
            BBPiece::BKnight => 'n',
            BBPiece::BBishop => 'b',
            BBPiece::BQueen => 'q',
            _ => '*',
        }
    }

    /// The name of the kind of piece, with a capital for White; nothing for a board
    /// that is not that of a kind of piece.
    pub open spec fn name(self) -> Seq<char> {
        match self {
            BBPiece::WKing => "King"@,
            BBPiece::WPawn => "Pawn"@,
            BBPiece::WRook => "Rook"@,
            BBPiece::WKnight => "Knight"@,
            BBPiece::WBishop => "Bishop"@,
            BBPiece::WQueen => "Queen"@,
            BBPiece::BKing => "king"@,
            BBPiece::BPawn => "pawn"@,
            BBPiece::BRook => "rook"@,
            BBPiece::BKnight => "knight"@,
            BBPiece::BBishop => "bishop"@,
            BBPiece::BQueen => "queen"@,
            _ => ""@,
        }
    }

    /// The piece that a letter of a position's text stands for, if any.
    pub open spec fn of_letter(c: u8) -> Option<BBPiece> {
        if c == 80 {
            Some(BBPiece::WPawn)
        } else if c == 82 {
            Some(BBPiece::WRook)
        } else if c == 78 {
            Some(BBPiece::WKnight)
        } else if c == 66 {
            Some(BBPiece::WBishop)
        } else if c == 81 {
            Some(BBPiece::WQueen)
        } else if c == 75 {
            Some(BBPiece::WKing)
        } else if c == 112 {
            Some(BBPiece::BPawn)
        } else if c == 114 {
            Some(BBPiece::BRook)
        } else if c == 110 {
            Some(BBPiece::BKnight)
        } else if c == 98 {
            Some(BBPiece::BBishop)
        } else if c == 113 {
            Some(BBPiece::BQueen)
        } else if c == 107 {
            Some(BBPiece::BKing)
        } else {
            None
        }
    }

    /// The place of the board in a position.
    pub fn idx(&self) -> (r: usize)
        ensures
            r == self.index(),
            r < 18,
            BBPiece::at(r as int) == *self,
    {
        match self {
            BBPiece::WKing => 0,
            BBPiece::WPawn => 1,
            BBPiece::WRook => 2,
            BBPiece::WKnight => 3,
            BBPiece::WBishop => 4,
            BBPiece::WQueen => 5,
            BBPiece::WAll => 6,
            BBPiece::WCastles => 7,
            BBPiece::WEnPassant => 8,
            BBPiece::BKing => 9,
            BBPiece::BPawn => 10,
            BBPiece::BRook => 11,
            BBPiece::BKnight => 12,
            BBPiece::BBishop => 13,
            BBPiece::BQueen => 14,
            BBPiece::BAll => 15,
            BBPiece::BCastles => 16,
            BBPiece::BEnPassant => 17,
        }
    }

    /// The board at place `i`.
    pub fn from_idx(i: usize) -> (r: BBPiece)
        requires
            i < 18,
        ensures
            r == BBPiece::at(i as int),
            r.index() == i,
    {
        if i == 0 {
            BBPiece::WKing
        } else if i == 1 {
            BBPiece::WPawn
        } else if i == 2 {
            BBPiece::WRook
        } else if i == 3 {
            BBPiece::WKnight
        } else if i == 4 {
            BBPiece::WBishop
        } else if i == 5 {
            BBPiece::WQueen
        } else if i == 6 {
            BBPiece::WAll
        } else if i == 7 {
            BBPiece::WCastles
        } else if i == 8 {
            BBPiece::WEnPassant
        } else if i == 9 {
            BBPiece::BKing
        } else if i == 10 {
            BBPiece::BPawn
        } else if i == 11 {
            BBPiece::BRook
        } else if i == 12 {
            BBPiece::BKnight
        } else if i == 13 {
            BBPiece::BBishop
        } else if i == 14 {
            BBPiece::BQueen
        } else if i == 15 {
            BBPiece::BAll
        } else if i == 16 {
            BBPiece::BCastles
        } else {
            BBPiece::BEnPassant
        }
    }

    /// The place of the other side's board of the same name.
    pub fn opposite_idx(&self) -> (r: usize)
        ensures
            r == (self.index() + 9) % 18,
    {
        let ret = self.idx();
        if ret < BBPIECE_MIDDLE {
            ret + BBPIECE_MIDDLE
        } else {
            ret - BBPIECE_MIDDLE
        }
    }

    /// The material value of a piece of this kind, negative for Black.
    pub fn value(&self) -> (r: i32)
        ensures
            r == self.material(),
    {
        match self {
            BBPiece::WKing => 40000,
            BBPiece::WPawn => 100,
            BBPiece::WRook => 500,
            BBPiece::WKnight => 320,
            BBPiece::WBishop => 330,
            BBPiece::WQueen => 900,
            BBPiece::BKing => -40000,
            BBPiece::BPawn => -100,
            BBPiece::BRook => -500,
            BBPiece::BKnight => -320,
            BBPiece::BBishop => -330,
            BBPiece::BQueen => -900,
            _ => 0,
        }
    }

    /// The twelve kinds of pieces, White's first.
    pub fn get_pieces() -> (r: [BBPiece; 12])
        ensures
            forall|i: int| 0 <= i < 6 ==> #[trigger] r[i] == BBPiece::at(i),
            forall|i: int| 6 <= i < 12 ==> #[trigger] r[i] == BBPiece::at(i + 3),
    {
        [
            BBPiece::WKing,
            BBPiece::WPawn,
            BBPiece::WRook,
            BBPiece::WKnight,
            BBPiece::WBishop,
            BBPiece::WQueen,
            BBPiece::BKing,
            BBPiece::BPawn,
            BBPiece::BRook,
            BBPiece::BKnight,
            BBPiece::BBishop,
            BBPiece::BQueen,
        ]
    }

    /// The name of the kind of piece, with a capital for White.
    pub fn to_string(&self) -> (r: String)
        ensures
            r@ == self.name(),
    {
        match self {
            BBPiece::WKing => String::from_str("King"),
            BBPiece::WPawn => String::from_str("Pawn"),
            BBPiece::WRook => String::from_str("Rook"),
            BBPiece::WKnight => String::from_str("Knight"),
            BBPiece::WBishop => String::from_str("Bishop"),
            BBPiece::WQueen => String::from_str("Queen"),
            BBPiece::BKing => String::from_str("king"),
            BBPiece::BPawn => String::from_str("pawn"),
            BBPiece::BRook => String::from_str("rook"),
            BBPiece::BKnight => String::from_str("knight"),
            BBPiece::BBishop => String::from_str("bishop"),
            BBPiece::BQueen => String::from_str("queen"),
            _ => String::from_str(""),
        }
    }

    /// The letter of the piece in a position's text.
    pub fn to_char(&self) -> (r: char)
        ensures
            r == self.letter(),
    {
        match *self {
            BBPiece::WKing => 'K',
            BBPiece::WPawn => 'P',
            BBPiece::WRook => 'R',
            BBPiece::WKnight => 'N',
            BBPiece::WBishop => 'B',
            BBPiece::WQueen => 'Q',
            BBPiece::BKing => 'k',
            BBPiece::BPawn => 'p',
            BBPiece::BRook => 'r',
            BBPiece::BKnight => 'n',
            BBPiece::BBishop => 'b',
            BBPiece::BQueen => 'q',
            _ => '*',
        }
    }

    /// The piece that a letter of a position's text stands for.
    pub fn from_byte(c: &u8) -> (r: BBPiece)
        requires
            BBPiece::of_letter(*c) is Some,
        ensures
            Some(r) == BBPiece::of_letter(*c),
    {
        let c = *c;
        if c == 80 {
            BBPiece::WPawn
        } else if c == 82 {
            BBPiece::WRook
        } else if c == 78 {
            BBPiece::WKnight
        } else if c == 66 {
            BBPiece::WBishop
        } else if c == 81 {
            BBPiece::WQueen
        } else if c == 75 {
            BBPiece::WKing
        } else if c == 112 {
            BBPiece::BPawn
        } else if c == 114 {
            BBPiece::BRook
        } else if c == 110 {
            BBPiece::BKnight
        } else if c == 98 {
            BBPiece::BBishop
        } else if c == 113 {
            BBPiece::BQueen
        } else {
            BBPiece::BKing
        }
    }

    /// The side whose board it is.
    pub fn get_side(&self) -> (r: Side)
        ensures
            r == self.side(),
    {
        if self.idx() < BBPIECE_MIDDLE {
            Side::White
        } else {
            Side::Black
        }
    }
}

/// Every board stands at its own place.
pub proof fn lemma_at_index(p: BBPiece)
    ensures
        BBPiece::at(p.index()) == p,
        0 <= p.index() < 18,
{
}

/// The two players.
#[derive(Clone, Copy, PartialEq, Eq, Structural, Debug, Hash)]
pub enum Side {
    White,
    Black,
}

impl Side {
    /// The place of the side's first board in a position.
    pub open spec fn base(self) -> int {
        match self {
            Side::White => 0,
            Side::Black => 9,
        }
    }

    /// The other side.
    pub open spec fn other(self) -> Side {
        match self {
            Side::White => Side::Black,
            Side::Black => Side::White,
        }
    }

    /// The sign of the side in a score: 1 for White, -1 for Black.
    pub open spec fn sign(self) -> int {
        match self {
            Side::White => 1,
            Side::Black => -1,
        }
    }

    /// The place of the side's first board in a position.
    pub fn offset(&self) -> (r: usize)
        ensures
            r == self.base(),
    {
        match self {
            Side::White => 0,
            Side::Black => BBPIECE_MIDDLE,
        }
    }

    /// The places of the first board of the side and of the other side.
    pub fn offsets(&self) -> (r: (usize, usize))
        ensures
            r.0 == self.base(),
            r.1 == self.other().base(),
    {
        match self {
            Side::White => (0, BBPIECE_MIDDLE),
            Side::Black => (BBPIECE_MIDDLE, 0),
        }
    }

    /// 0 for White, 1 for Black.
    pub fn idx(&self) -> (r: usize)
        ensures
            r == if *self == Side::White {
                0int
            } else {
                1int
            },
    {
        match self {
            Side::White => 0,
            Side::Black => 1,
        }
    }

    /// The sign of the side in a score: 1 for White, -1 for Black.
    pub fn value(&self) -> (r: i32)
        ensures
            r == self.sign(),
    {
        match self {
            Side::White => 1,
            Side::Black => -1,
        }
    }

    /// The other side.
    pub fn opposite(&self) -> (r: Side)
        ensures
            r == self.other(),
    {
        match self {
            Side::White => Side::Black,
            Side::Black => Side::White,
        }
    }

    /// The side that a letter of a position's text names: `w` or `b`.
    pub fn from_byte(c: u8) -> (r: Side)
        requires
            c == 119 || c == 98,
        ensures
            r == if c == 119 {
                Side::White
            } else {
                Side::Black
            },
    {
        if c == 119 {
            Side::White
        } else {
            Side::Black
        }
    }

    /// The letter of the side in a position's text.
    pub fn to_char(&self) -> (r: char)
        ensures
            r == if *self == Side::White {
                'w'
            } else {
                'b'
            },
    {
        match self {
            Side::White => 'w',
            Side::Black => 'b',
        }
    }
}


/// A position as a mathematical value: the side to move, the eighteen boards in the
/// order of `BBPiece`, and the two move counters.
pub struct Position {
    pub side: Side,
    pub boards: Seq<u64>,
    pub half_moves: int,
    pub full_moves: int,
}

impl Position {
    /// The board named `p`.
    pub open spec fn board(self, p: BBPiece) -> u64 {
        self.boards[p.index()]
    }

    /// The board of `side` at place `kind` among the side's boards.
    pub open spec fn of(self, side: Side, kind: int) -> u64 {
        self.boards[side.base() + kind]
    }

    /// All the occupied squares.
    pub open spec fn occupied(self) -> u64 {
        self.boards[6] | self.boards[15]
    }

    /// The boards after each has been toggled by the board of the same place in
    /// `deltas`.
    pub open spec fn toggled(self, deltas: Seq<u64>) -> Seq<u64> {
        Seq::new(18, |i: int| self.boards[i] ^ deltas[i])
    }

    /// The position after a move of the side to move that toggles `deltas`: every
    /// board toggled, the other side to move, the full-move counter one higher after
    /// a move of Black, and the half-move clock one higher, or back at zero after a
    /// move of a pawn and after a capture.
    pub open spec fn moved(self, deltas: Seq<u64>) -> Position {
        Position {
            side: self.side.other(),
            boards: self.toggled(deltas),
            half_moves: if deltas[self.side.base() + 1] != 0 || deltas[self.side.other().base()
                + 6] != 0 {
                0
            } else {
                self.half_moves + 1
            },
            full_moves: if self.side == Side::Black {
                self.full_moves + 1
            } else {
                self.full_moves
            },
        }
    }

    /// The position after the move `m`.
    pub open spec fn after(self, m: ChessMove) -> Position {
        self.moved(m.deltas@)
    }

    /// The position before the move `m`, for a position that the move led to.
    pub open spec fn before(self, m: ChessMove) -> Position {
        Position {
            side: self.side.other(),
            boards: self.toggled(m.deltas@),
            half_moves: m.half_move_clock as int,
            full_moves: if self.side == Side::White {
                self.full_moves - 1
            } else {
                self.full_moves
            },
        }
    }

    /// The piece of which `b` holds a square: White's are looked for first, and
    /// among a side's pieces its pawns, rooks, knights, bishops, queens and king in
    /// this order.
    #[verifier::opaque]
    pub open spec fn piece_on(self, b: u64) -> Option<BBPiece> {
        if b & self.boards[6] > 0 && self.side_piece_on(Side::White, b) is Some {
            self.side_piece_on(Side::White, b)
        } else if b & self.boards[15] > 0 {
            self.side_piece_on(Side::Black, b)
        } else {
            None
        }
    }

    /// The piece of `side` of which `b` holds a square.
    pub open spec fn side_piece_on(self, side: Side, b: u64) -> Option<BBPiece> {
        let o = side.base();
        if self.boards[o + 1] & b > 0 {
            Some(BBPiece::at(o + 1))
        } else if self.boards[o + 2] & b > 0 {
            Some(BBPiece::at(o + 2))
        } else if self.boards[o + 3] & b > 0 {
            Some(BBPiece::at(o + 3))
        } else if self.boards[o + 4] & b > 0 {
            Some(BBPiece::at(o + 4))
        } else if self.boards[o + 5] & b > 0 {
            Some(BBPiece::at(o + 5))
        } else if self.boards[o] & b > 0 {
            Some(BBPiece::at(o))
        } else {
            None
        }
    }

    /// Whether `side` may still castle on the king's wing, and on the queen's.
    pub open spec fn castle_rights(self, side: Side) -> (bool, bool) {
        (self.boards[side.base() + 7] & 1 > 0, self.boards[side.base() + 7] & 2 > 0)
    }
}

/// Taking a move back after making it gives the position in which it was made.
pub proof fn lemma_do_undo(p: Position, m: ChessMove)
    requires
        p.boards.len() == 18,
        m.half_move_clock == p.half_moves,
    ensures
        p.after(m).before(m) == p,
{
    let q = p.after(m).before(m);
    assert forall|i: int| 0 <= i < 18 implies q.boards[i] == p.boards[i] by {
        let a = p.boards[i];
        let d = m.deltas@[i];
        assert((a ^ d) ^ d == a) by (bit_vector);
    }
    assert(q.boards =~= p.boards);
}

/// Making a move again after taking it back gives the position that it had led to.
pub proof fn lemma_undo_do(p: Position, m: ChessMove)
    requires
        p.boards.len() == 18,
        p.half_moves == if m.resets_clock(p.side.other()) {
            0
        } else {
            m.half_move_clock + 1
        },
    ensures
        p.before(m).after(m) == p,
{
    let q = p.before(m).after(m);
    assert forall|i: int| 0 <= i < 18 implies q.boards[i] == p.boards[i] by {
        let a = p.boards[i];
        let d = m.deltas@[i];
        assert((a ^ d) ^ d == a) by (bit_vector);
    }
    assert(q.boards =~= p.boards);
}

/// A position of the game: the side to move, the eighteen boards that `BBPiece`
/// names, and the two move counters.
#[derive(Clone, Copy, Debug, PartialEq, Eq)]
pub struct ChessState {
    pub next_to_move: Side,
    pub bboards: [BBoard; 18],
    pub half_move_count: u32,
    pub full_move_count: u32,
}

impl View for ChessState {
    type V = Position;

    open spec fn view(&self) -> Position {
        Position {
            side: self.next_to_move,
            boards: self.bboards@,
            half_moves: self.half_move_count as int,
            full_moves: self.full_move_count as int,
        }
    }
}

impl ChessState {
    /// The position with no piece, no right and both counters at zero, White to
    /// move.
    pub fn new_empty() -> (r: ChessState)
        ensures
            r@.side == Side::White,
            r@.boards =~= Seq::new(18, |i: int| 0u64),
            r@.half_moves == 0,
            r@.full_moves == 0,
    {
        ChessState {
            next_to_move: Side::White,
            bboards: [0u64;18],
            half_move_count: 0,
            full_move_count: 0,
        }
    }

    /// The piece of `side` of which `b` holds a square, if any.
    pub fn side_piece_at(&self, side: Side, b: BBoard) -> (r: Option<BBPiece>)
        ensures
            r == self@.side_piece_on(side, b),
    {
        let o = side.offset();
        if self.bboards[o + PAWN] & b > 0 {
            Some(BBPiece::from_idx(o + PAWN))
        } else if self.bboards[o + ROOK] & b > 0 {
            Some(BBPiece::from_idx(o + ROOK))
        } else if self.bboards[o + KNIGHT] & b > 0 {
            Some(BBPiece::from_idx(o + KNIGHT))
        } else if self.bboards[o + BISHOP] & b > 0 {
            Some(BBPiece::from_idx(o + BISHOP))
        } else if self.bboards[o + QUEEN] & b > 0 {
            Some(BBPiece::from_idx(o + QUEEN))
        } else if self.bboards[o + KING] & b > 0 {
            Some(BBPiece::from_idx(o + KING))
        } else {
            None
        }
    }

    /// The piece of which `move_to` holds a square, if any.
    pub fn find_piece(&self, move_to: BBoard) -> (r: Option<BBPiece>)
        ensures
            r == self@.piece_on(move_to),
    {
        reveal(Position::piece_on);
        if move_to & self.bboards[ALL] > 0 {
            let r = self.side_piece_at(Side::White, move_to);
            if r.is_some() {
                return r;
            }
        }
        if move_to & self.bboards[BBPIECE_MIDDLE + ALL] > 0 {
            return self.side_piece_at(Side::Black, move_to);
        }
        None
    }

    /// The piece of which `move_to` holds a square.
    pub fn piece_at(&self, move_to: BBoard) -> (r: BBPiece)
        requires
            self@.piece_on(move_to) is Some,
        ensures
            Some(r) == self@.piece_on(move_to),
    {
        match self.find_piece(move_to) {
            Some(p) => p,
            None => BBPiece::WKing,
        }
    }

    /// The board named `board`.
    pub fn bboard(&self, board: BBPiece) -> (r: BBoard)
        ensures
            r == self@.board(board),
    {
        self.bboards[board.idx()]
    }

    /// The board named `board`, to be changed in place.
    pub fn bboard_mut(&mut self, board: BBPiece) -> (r: &mut BBoard)
        ensures
            *r == old(self)@.board(board),
            final(self)@ == (Position {
                boards: old(self)@.boards.update(board.index(), *final(r)),
                ..old(self)@
            }),
    {
        let i = board.idx();
        &mut self.bboards[i]
    }

    /// The board of the side whose first board is at place `offset` that has the
    /// name of White's board `board`.
    pub fn bboard_ofs(&self, board: BBPiece, offset: usize) -> (r: BBoard)
        requires
            board.side() == Side::White,
            offset == 0 || offset == 9,
        ensures
            r == self@.boards[board.index() + offset],
    {
        self.bboards[board.idx() + offset]
    }

    /// Makes the move: toggles every board by the move's board of the same place,
    /// passes the turn, and counts the move.
    pub fn do_move(&mut self, chess_move: &ChessMove)
        requires
            old(self).half_move_count < u32::MAX,
            old(self).full_move_count < u32::MAX,
        ensures
            final(self)@ == old(self)@.after(*chess_move),
    {
        let resets = chess_move.deltas[self.next_to_move.offset() + PAWN] != 0
            || chess_move.deltas[self.next_to_move.opposite().offset() + ALL] != 0;
        let mut i: usize = 0;
        while i < 18
            invariant
                0 <= i <= 18,
                self.next_to_move == old(self).next_to_move,
                self.half_move_count == old(self).half_move_count,
                self.full_move_count == old(self).full_move_count,
                forall|j: int|
                    0 <= j < i ==> #[trigger] self.bboards@[j] == old(self).bboards@[j]
                        ^ chess_move.deltas@[j],
                forall|j: int| i <= j < 18 ==> #[trigger] self.bboards@[j] == old(self).bboards@[j],
            decreases 18 - i,
        {
            let b = self.bboards[i];
            self.bboards[i] = b ^ chess_move.deltas[i];
            i += 1;
        }
        if self.next_to_move == Side::Black {
            self.full_move_count += 1;
        }
        self.next_to_move = self.next_to_move.opposite();
        if resets {
            self.half_move_count = 0;
        } else {
            self.half_move_count += 1;
        }
        assert(self@.boards =~= old(self)@.after(*chess_move).boards);
    }

    /// Takes the move back: toggles every board again, hands the turn back, and
    /// sets the counters to what they were.
    pub fn undo_move(&mut self, chess_move: &ChessMove)
        requires
            old(self).next_to_move == Side::White ==> old(self).full_move_count > 0,
        ensures
            final(self)@ == old(self)@.before(*chess_move),
    {
        let mut i: usize = 0;
        while i < 18
            invariant
                0 <= i <= 18,
                self.next_to_move == old(self).next_to_move,
                self.half_move_count == old(self).half_move_count,
                self.full_move_count == old(self).full_move_count,
                forall|j: int|
                    0 <= j < i ==> #[trigger] self.bboards@[j] == old(self).bboards@[j]
                        ^ chess_move.deltas@[j],
                forall|j: int| i <= j < 18 ==> #[trigger] self.bboards@[j] == old(self).bboards@[j],
            decreases 18 - i,
        {
            let b = self.bboards[i];
            self.bboards[i] = b ^ chess_move.deltas[i];
            i += 1;
        }
        if self.next_to_move == Side::White {
            self.full_move_count -= 1;
        }
        self.half_move_count = chess_move.half_move_clock;
        self.next_to_move = self.next_to_move.opposite();
        assert(self@.boards =~= old(self)@.before(*chess_move).boards);
    }

    /// Whether `side` may still castle on the king's wing, and on the queen's.
    pub fn castle_state(&self, side: Side) -> (r: (bool, bool))
        ensures
            r == self@.castle_rights(side),
    {
        let bcastles = self.bboards[side.offset() + CASTLES];
        (bcastles & 1 > 0, bcastles & 2 > 0)
    }

    /// For each wing on which `side` may still castle, the square that the king
    /// reaches in castling there: g1 and c1 for White, g8 and c8 for Black; the empty
    /// board for a wing without the right.
    pub fn castle_moves(&self, side: Side) -> (r: (BBoard, BBoard))
        ensures
            r.0 == if self@.castle_rights(side).0 {
                king_target(side, CastleSide::King)
            } else {
                0
            },
            r.1 == if self@.castle_rights(side).1 {
                king_target(side, CastleSide::Queen)
            } else {
                0
            },
    {
        let (kcastle, qcastle) = self.castle_state(side);
        match side {
            Side::White => (
                if kcastle {
                    0x40u64
                } else {
                    0u64
                },
                if qcastle {
                    0x04u64
                } else {
                    0u64
                },
            ),
            Side::Black => (
                if kcastle {
                    0x4000000000000000u64
                } else {
                    0u64
                },
                if qcastle {
                    0x0400000000000000u64
                } else {
                    0u64
                },
            ),
        }
    }

    /// Records the square that a pawn has just skipped: a square of the lower half
    /// of the board on White's board, one of the upper half on Black's. The other
    /// side's board is emptied.
    pub fn set_en_passant(&mut self, en_passant: BBoard)
        ensures
            final(self)@ == (Position {
                boards: if en_passant < 0x1_0000_0000 {
                    old(self)@.boards.update(8, en_passant).update(17, 0)
                } else {
                    old(self)@.boards.update(8, 0).update(17, en_passant)
                },
                ..old(self)@
            }),
    {
        if en_passant < 0x1_0000_0000 {
            self.bboards[EN_PASSANT] = en_passant;
            self.bboards[BBPIECE_MIDDLE + EN_PASSANT] = 0;
        } else {
            self.bboards[EN_PASSANT] = 0;
            self.bboards[BBPIECE_MIDDLE + EN_PASSANT] = en_passant;
        }
        assert(self@.boards =~= if en_passant < 0x1_0000_0000 {
            old(self)@.boards.update(8, en_passant).update(17, 0)
        } else {
            old(self)@.boards.update(8, 0).update(17, en_passant)
        });
    }

    /// Sets the castling rights of `side`: on the king's wing, then on the queen's.
    pub fn set_castle_state(&mut self, side: Side, state: (bool, bool))
        ensures
            final(self)@ == (Position {
                boards: old(self)@.boards.update(side.base() + 7, rights_board(state.0, state.1)),
                ..old(self)@
            }),
    {
        let mut new_state: BBoard = 0;
        if state.0 {
            new_state += 1;
        }
        if state.1 {
            new_state += 2;
        }
        let i = side.offset() + CASTLES;
        self.bboards[i] = new_state;
        assert(self@.boards =~= old(self)@.boards.update(
            side.base() + 7,
            rights_board(state.0, state.1),
        ));
    }

    /// Sets the right of `side` to castle on the king's wing, and leaves its right
    /// on the queen's wing as it is.
    pub fn set_king_side_castle(&mut self, side: Side, value: bool)
        ensures
            final(self)@ == (Position {
                boards: old(self)@.boards.update(
                    side.base() + 7,
                    rights_board(value, old(self)@.castle_rights(side).1),
                ),
                ..old(self)@
            }),
    {
        let (_k, q) = self.castle_state(side);
        self.set_castle_state(side, (value, q));
    }

    /// Sets the right of `side` to castle on the queen's wing, and leaves its right
    /// on the king's wing as it is.
    pub fn set_queen_side_castle(&mut self, side: Side, value: bool)
        ensures
            final(self)@ == (Position {
                boards: old(self)@.boards.update(
                    side.base() + 7,
                    rights_board(old(self)@.castle_rights(side).0, value),
                ),
                ..old(self)@
            }),
    {
        let (k, _q) = self.castle_state(side);
        self.set_castle_state(side, (k, value));
    }
}

/// The board of the square that the king of `side` reaches in castling on `wing`.
pub open spec fn king_target(side: Side, wing: CastleSide) -> u64 {
    match (side, wing) {
        (Side::White, CastleSide::King) => 0x40,
        (Side::White, CastleSide::Queen) => 0x04,
        (Side::Black, CastleSide::King) => 0x4000000000000000,
        (Side::Black, CastleSide::Queen) => 0x0400000000000000,
    }
}

/// The board that records castling rights: bit 0 for the king's wing, bit 1 for the
/// queen's.
pub open spec fn rights_board(king_side: bool, queen_side: bool) -> u64 {
    if king_side {
        if queen_side {
            3
        } else {
            1
        }
    } else {
        if queen_side {
            2
        } else {
            0
        }
    }
}

} // verus!
