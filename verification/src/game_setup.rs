//! Squares by coordinates, moves as the boards that they toggle, moves in
//! coordinate notation, and what the engine and the game are set to.
use crate::bboard::{
    BBoard, bb_to_coord, board_name, lemma_lowest_square, lowest_square, square_at, square_bit,
};
use crate::engine::ChessEngine;
use crate::fen::ParseError;
use crate::common::{castle_rights_left, rights_after};
use crate::state::{BBPiece, CastleSide, ChessState, Position, Side};
use vstd::prelude::*;
use vstd::slice::slice_subrange;
use vstd::string::StringSliceAdditionalSpecFns;

verus! {

/// A square by its file and rank, both counted from 0.
#[derive(Clone, Copy, PartialEq, Eq, Structural, Debug)]
pub struct ChessCoord {
    pub x: u8,
    pub y: u8,
}

impl ChessCoord {
    /// Both the file and the rank are on the board.
    pub open spec fn wf(&self) -> bool {
        self.x < 8 && self.y < 8
    }

    /// The index of the square.
    pub open spec fn square(&self) -> int {
        square_at(self.x as int, self.y as int)
    }

    pub fn new(x: u8, y: u8) -> (r: ChessCoord)
        ensures
            r.x == x,
            r.y == y,
    {
        ChessCoord { x, y }
    }

    /// The square that two characters name: a file letter from `a`, then a rank
    /// digit from `1`.
    pub fn from_string(coord: &[u8]) -> (r: ChessCoord)
        requires
            coord@.len() >= 2,
            coord@[0] >= 97,
            coord@[1] >= 49,
        ensures
            r.x == coord@[0] - 97,
            r.y == coord@[1] - 49,
    {
        let x = coord[0] - 97u8;
        let y = coord[1] - 49u8;
        ChessCoord { x, y }
    }

    /// The name of the square: its file letter, then its rank digit.
    pub fn to_string(&self) -> (r: String)
        requires
            self.wf(),
        ensures
            r@ == crate::bboard::square_name(self.square()),
    {
        let mut result = String::new();
        result.push((self.x + 97u8) as char);
        result.push((self.y + 49u8) as char);
        assert(result@ =~= crate::bboard::square_name(self.square()));
        result
    }

    /// The board that holds this square and no other.
    pub fn as_bboard(&self) -> (r: BBoard)
        requires
            self.wf(),
        ensures
            r == square_bit(self.square()),
    {
        1u64 << (self.idx() as u64)
    }

    /// The lowest square of a board that is not empty.
    pub fn from_bboard(board: BBoard) -> (r: ChessCoord)
        requires
            board != 0,
        ensures
            r.wf(),
            r.square() == lowest_square(board),
    {
        proof {
            lemma_lowest_square(board);
        }
        let idx = board.trailing_zeros();
        ChessCoord { x: (idx % 8) as u8, y: (idx / 8) as u8 }
    }

    /// The index of the square.
    pub fn idx(&self) -> (r: usize)
        requires
            self.wf(),
        ensures
            r == self.square(),
            r < 64,
    {
        (self.y * 8 + self.x) as usize
    }
}

/// The six boards that describe one way of castling: the king's square, the rook's
/// square, the squares that must be empty, the squares that must not be attacked,
/// and the two squares that the king, and that the rook, leaves and reaches.
pub open spec fn castle_template(side: Side, wing: CastleSide) -> (u64, u64, u64, u64, u64, u64) {
    match (side, wing) {
        (Side::White, CastleSide::King) => (0x10, 0x80, 0x60, 0x70, 0x50, 0xA0),
        (Side::White, CastleSide::Queen) => (0x10, 0x01, 0x0E, 0x1C, 0x14, 0x09),
        (Side::Black, CastleSide::King) => (
            0x1000000000000000,
            0x8000000000000000,
            0x6000000000000000,
            0x7000000000000000,
            0x5000000000000000,
            0xA000000000000000,
        ),
        (Side::Black, CastleSide::Queen) => (
            0x1000000000000000,
            0x0100000000000000,
            0x0E00000000000000,
            0x1C00000000000000,
            0x1400000000000000,
            0x0900000000000000,
        ),
    }
}

/// The way of castling in which the king leaves and reaches the two squares of
/// `king_move`, if there is one.
pub open spec fn castle_of_king_move(king_move: u64) -> Option<(Side, CastleSide)> {
    if king_move == 0x50 {
        Some((Side::White, CastleSide::King))
    } else if king_move == 0x14 {
        Some((Side::White, CastleSide::Queen))
    } else if king_move == 0x5000000000000000 {
        Some((Side::Black, CastleSide::King))
    } else if king_move == 0x1400000000000000 {
        Some((Side::Black, CastleSide::Queen))
    } else {
        None
    }
}

/// The deltas `d` with `x` toggled at place `i`.
pub open spec fn tog(d: Seq<u64>, i: int, x: u64) -> Seq<u64> {
    d.update(i, d[i] ^ x)
}

/// The square behind `to` as `side` moves: the one from which a pawn of `side`
/// reaches `to` in one step.
pub open spec fn square_behind(side: Side, to: u64) -> u64 {
    match side {
        Side::White => to >> 8,
        Side::Black => to << 8,
    }
}

/// The square that a pawn of `side` skips in going from `from` to `to`, when that
/// is a move from the pawn's home rank to the second rank ahead; the empty board
/// otherwise.
pub open spec fn skipped_square(side: Side, from: u64, to: u64) -> u64 {
    match side {
        Side::White => if from & 0xff00 != 0 && to & 0xff000000 != 0 {
            from << 8
        } else {
            0
        },
        Side::Black => if from & 0x00ff000000000000 != 0 && to & 0x000000ff00000000 != 0 {
            from >> 8
        } else {
            0
        },
    }
}

/// What the piece `piece` of the side to move toggles by going from `from` to `to`
/// in the position `st`, with the promotion `promote` if any.
///
/// The piece leaves `from` and it, or the piece that a pawn is promoted to, appears
/// on `to`; what stands on `to` is taken; a pawn that reaches the square marked as
/// skipped by the other side's pawn takes that pawn; a king that goes two squares
/// from its home square castles, and the rook of that wing jumps over it; the
/// marks of skipped squares are cleared, and the square that a pawn skips in a
/// double step is marked; and each side keeps the castling rights that its king and
/// rooks still allow.
pub open spec fn move_deltas(
    st: Position,
    piece: BBPiece,
    from: u64,
    to: u64,
    promote: Option<BBPiece>,
) -> Seq<u64> {
    let own = st.side.base();
    let opp = st.side.other().base();
    let r = piece.index();
    let d0 = Seq::new(18, |i: int| 0u64);
    let d1 = match promote {
        Some(pp) => tog(tog(d0, r, from), pp.index(), to),
        None => tog(d0, r, from | to),
    };
    let d2 = tog(d1, own + 6, from | to);
    let d3 = if to & st.boards[opp + 6] != 0 {
        match st.side_piece_on(st.side.other(), to) {
            Some(c) => tog(tog(d2, opp + 6, to), c.index(), to),
            None => tog(d2, opp + 6, to),
        }
    } else {
        d2
    };
    let d4 = if r == own + 1 && to & st.boards[opp + 8] != 0 {
        let taken = square_behind(st.side, to) & st.boards[opp + 1];
        tog(tog(d3, opp + 1, taken), opp + 6, taken)
    } else {
        d3
    };
    let d5 = if r == own && castle_of_king_move(from | to) is Some && castle_of_king_move(
        from | to,
    ).unwrap().0 == st.side {
        let t = castle_template(st.side, castle_of_king_move(from | to).unwrap().1);
        tog(tog(d4, own + 2, t.5), own + 6, t.5)
    } else {
        d4
    };
    let mark = if r == own + 1 {
        skipped_square(st.side, from, to)
    } else {
        0
    };
    let d6 = tog(tog(d5, opp + 8, st.boards[opp + 8]), own + 8, st.boards[own + 8] ^ mark);
    let d7 = tog(
        d6,
        7,
        st.boards[7] ^ rights_after(
            Side::White,
            st.boards[0] ^ d6[0],
            st.boards[2] ^ d6[2],
            st.boards[7],
        ),
    );
    tog(
        d7,
        16,
        st.boards[16] ^ rights_after(
            Side::Black,
            st.boards[9] ^ d7[9],
            st.boards[11] ^ d7[11],
            st.boards[16],
        ),
    )
}

/// One move, as the boards that it toggles: applying it xors each board of the
/// position with the board of the same place in `deltas`, so that applying it
/// again takes the move back.
#[derive(Clone, Copy, PartialEq, Eq, Debug)]
pub struct ChessMove {
    pub deltas: [BBoard; 18],
    pub side: Side,
    pub move_from: BBoard,
    pub move_to: BBoard,
    pub promote: Option<BBPiece>,
    /// The half-move clock of the position in which the move is made.
    pub half_move_clock: u32,
}

impl ChessMove {
    /// What the move toggles on board `p`.
    pub open spec fn delta(&self, p: BBPiece) -> u64 {
        self.deltas@[p.index()]
    }

    /// Whether the move, made by `side`, is one of a pawn or takes a piece: such a
    /// move restarts the half-move clock.
    pub open spec fn resets_clock(&self, side: Side) -> bool {
        self.deltas@[side.base() + 1] != 0 || self.deltas@[side.other().base() + 6] != 0
    }

    /// A move that toggles nothing yet.
    pub fn new(side: Side, move_from: BBoard, move_to: BBoard, promote: Option<BBPiece>) -> (r:
        ChessMove)
        ensures
            r.side == side,
            r.move_from == move_from,
            r.move_to == move_to,
            r.promote == promote,
            r.half_move_clock == 0,
            r.deltas@ =~= Seq::new(18, |i: int| 0u64),
    {
        ChessMove { deltas: [0u64;18], side, move_from, move_to, promote, half_move_clock: 0 }
    }

    /// The first board on which the move toggles the square that it starts from:
    /// the board of the piece that moves.
    pub open spec fn piece_from(&self, i: int) -> int
        decreases 18 - i,
    {
        if i >= 18 {
            18
        } else if self.deltas@[i] & self.move_from != 0 {
            i
        } else {
            self.piece_from(i + 1)
        }
    }

    /// The piece that moves.
    pub fn get_piece(&self) -> (r: BBPiece)
        requires
            self.piece_from(0) < 18,
        ensures
            r.index() == self.piece_from(0),
    {
        let mut i: usize = 0;
        while i < 17
            invariant
                0 <= i <= 17,
                self.piece_from(i as int) == self.piece_from(0),
            decreases 17 - i,
        {
            if self.deltas[i] & self.move_from != 0 {
                return BBPiece::from_idx(i);
            }
            i += 1;
        }
        assert(self.piece_from(18) == 18);
        BBPiece::from_idx(17)
    }

    /// Adds `delta` to what the move toggles on board `piece`.
    pub fn add_delta(&mut self, piece: BBPiece, delta: BBoard)
        ensures
            final(self).deltas@ == old(self).deltas@.update(
                piece.index(),
                old(self).deltas@[piece.index()] ^ delta,
            ),
            final(self).side == old(self).side,
            final(self).move_from == old(self).move_from,
            final(self).move_to == old(self).move_to,
            final(self).promote == old(self).promote,
            final(self).half_move_clock == old(self).half_move_clock,
    {
        let i = piece.idx();
        let d = self.deltas[i];
        self.deltas[i] = d ^ delta;
    }

    /// The move of `piece` from `from` to `to` in the position `st`, with the
    /// promotion `promote` if any.
    pub open spec fn of_position(
        st: Position,
        piece: BBPiece,
        from: u64,
        to: u64,
        promote: Option<BBPiece>,
        m: ChessMove,
    ) -> bool {
        &&& m.side == st.side
        &&& m.move_from == from
        &&& m.move_to == to
        &&& m.promote == promote
        &&& m.half_move_clock == st.half_moves
        &&& m.deltas@ == move_deltas(st, piece, from, to, promote)
    }

    /// The move of `piece` from `move_from` to `move_to` in the position `state`,
    /// with the promotion `promote` if any: what it toggles is `move_deltas`.
    pub fn build(
        state: &ChessState,
        piece: BBPiece,
        move_from: BBoard,
        move_to: BBoard,
        promote: Option<BBPiece>,
    ) -> (m: ChessMove)
        ensures
            ChessMove::of_position(state@, piece, move_from, move_to, promote, m),
    {
        let side = state.next_to_move;
        let (own, opp) = side.offsets();
        let r = piece.idx();
        let mut m = ChessMove::new(side, move_from, move_to, promote);
        m.half_move_clock = state.half_move_count;
        let ghost d0 = m.deltas@;
        match promote {
            Some(pp) => {
                m.add_delta(piece, move_from);
                m.add_delta(pp, move_to);
            },
            None => {
                m.add_delta(piece, move_from | move_to);
            },
        }
        let ghost d1 = m.deltas@;
        m.add_delta(BBPiece::from_idx(own + 6), move_from | move_to);
        let ghost d2 = m.deltas@;
        if move_to & state.bboards[opp + 6] != 0 {
            m.add_delta(BBPiece::from_idx(opp + 6), move_to);
            match state.side_piece_at(side.opposite(), move_to) {
                Some(c) => {
                    m.add_delta(c, move_to);
                },
                None => {},
            }
        }
        let ghost d3 = m.deltas@;
        if r == own + 1 && move_to & state.bboards[opp + 8] != 0 {
            let behind = match side {
                Side::White => move_to >> 8,
                Side::Black => move_to << 8,
            };
            let taken = behind & state.bboards[opp + 1];
            m.add_delta(BBPiece::from_idx(opp + 1), taken);
            m.add_delta(BBPiece::from_idx(opp + 6), taken);
        }
        let ghost d4 = m.deltas@;
        if r == own {
            let km = move_from | move_to;
            let castles = match side {
                Side::White => km == 0x50 || km == 0x14,
                Side::Black => km == 0x5000000000000000 || km == 0x1400000000000000,
            };
            if castles {
                let t = ChessMove::castle_tuple_k_r_e_na_km_rm(km);
                m.add_delta(BBPiece::from_idx(own + 2), t.5);
                m.add_delta(BBPiece::from_idx(own + 6), t.5);
            }
        }
        let ghost d5 = m.deltas@;
        let mark: BBoard = if r == own + 1 {
            match side {
                Side::White => if move_from & 0xff00 != 0 && move_to & 0xff000000 != 0 {
                    move_from << 8
                } else {
                    0
                },
                Side::Black => if move_from & 0x00ff000000000000 != 0 && move_to
                    & 0x000000ff00000000 != 0 {
                    move_from >> 8
                } else {
                    0
                },
            }
        } else {
            0
        };
        m.add_delta(BBPiece::from_idx(opp + 8), state.bboards[opp + 8]);
        m.add_delta(BBPiece::from_idx(own + 8), state.bboards[own + 8] ^ mark);
        let ghost d6 = m.deltas@;
        let w = castle_rights_left(
            Side::White,
            state.bboards[0] ^ m.deltas[0],
            state.bboards[2] ^ m.deltas[2],
            state.bboards[7],
        );
        m.add_delta(BBPiece::WCastles, state.bboards[7] ^ w);
        let ghost d7 = m.deltas@;
        let b = castle_rights_left(
            Side::Black,
            state.bboards[9] ^ m.deltas[9],
            state.bboards[11] ^ m.deltas[11],
            state.bboards[16],
        );
        m.add_delta(BBPiece::BCastles, state.bboards[16] ^ b);
        m
    }

    /// Reads a move in coordinate notation, as the side to move makes it in the
    /// position `curr_state`: the name of the square that a piece of that side
    /// leaves, the name of the square that it reaches, where no piece of that side
    /// stands, and for a promotion the letter of the new piece. The move is built as
    /// `build` builds it, so that a king's step of two files castles and a pawn that
    /// reaches the square marked as skipped takes in passing. Whether the move is
    /// legal is not looked at.
    pub fn parse(move_str: &str, curr_state: &ChessState) -> (r: Result<ChessMove, ParseError>)
        ensures
            match r {
                Ok(m) => parse_move(move_str.spec_bytes(), curr_state@) matches Ok(k)
                    && ChessMove::of_position(
                    curr_state@,
                    k.0,
                    square_bit(k.1),
                    square_bit(k.2),
                    k.3,
                    m,
                ),
                Err(e) => parse_move(move_str.spec_bytes(), curr_state@) == Err::<
                    (BBPiece, int, int, Option<BBPiece>),
                    ParseError,
                >(e),
            },
    {
        let bytes = move_str.as_bytes();
        let n = bytes.len();
        if n != 4 && n != 5 {
            return Err(ParseError::BadMove);
        }
        if !is_file_byte(bytes[0]) || !is_rank_byte(bytes[1]) || !is_file_byte(bytes[2])
            || !is_rank_byte(bytes[3]) {
            return Err(ParseError::BadMove);
        }
        let side = curr_state.next_to_move;
        let own = side.offset();
        let promote = if n == 5 {
            let c = bytes[4];
            if c == 113 {
                Some(BBPiece::from_idx(own + 5))
            } else if c == 114 {
                Some(BBPiece::from_idx(own + 2))
            } else if c == 98 {
                Some(BBPiece::from_idx(own + 4))
            } else if c == 110 {
                Some(BBPiece::from_idx(own + 3))
            } else {
                return Err(ParseError::BadMove);
            }
        } else {
            None
        };
        let move_from = ChessCoord::from_string(slice_subrange(bytes, 0, 2));
        let move_to = ChessCoord::from_string(slice_subrange(bytes, 2, 4));
        let move_from_b = move_from.as_bboard();
        let move_to_b = move_to.as_bboard();
        let role = match curr_state.side_piece_at(side, move_from_b) {
            Some(p) => p,
            None => {
                return Err(ParseError::NoPiece);
            },
        };
        if curr_state.bboards[own + 6] & move_to_b != 0 {
            return Err(ParseError::NoPiece);
        }
        Ok(ChessMove::build(curr_state, role, move_from_b, move_to_b, promote))
    }

    /// The move in coordinate notation: the name of the square that the piece
    /// leaves, the name of the square that it reaches, and for a promotion the small
    /// letter of the new piece.
    pub fn to_string(&self) -> (r: String)
        ensures
            r@ == move_text(*self),
    {
        let mut result = bb_to_coord(self.move_from);
        let to = bb_to_coord(self.move_to);
        result.append(to.as_str());
        match self.promote {
            Some(promoted) => {
                result.push(promotion_letter(promoted));
            },
            None => {},
        }
        assert(result@ =~= move_text(*self));
        result
    }

    /// The boards of the way of castling in which the king leaves and reaches the
    /// two squares of `king_move`: king, rook, empty, not attacked, king's move,
    /// rook's move.
    pub fn castle_tuple_k_r_e_na_km_rm(king_move: BBoard) -> (r: (
        BBoard,
        BBoard,
        BBoard,
        BBoard,
        BBoard,
        BBoard,
    ))
        requires
            castle_of_king_move(king_move) is Some,
        ensures
            r == castle_template(
                castle_of_king_move(king_move).unwrap().0,
                castle_of_king_move(king_move).unwrap().1,
            ),
    {
        if king_move == 0x50 {
            (0x10, 0x80, 0x60, 0x70, 0x50, 0xA0)
        } else if king_move == 0x14 {
            (0x10, 0x01, 0x0E, 0x1C, 0x14, 0x09)
        } else if king_move == 0x5000000000000000 {
            (
                0x1000000000000000,
                0x8000000000000000,
                0x6000000000000000,
                0x7000000000000000,
                0x5000000000000000,
                0xA000000000000000,
            )
        } else {
            (
                0x1000000000000000,
                0x0100000000000000,
                0x0E00000000000000,
                0x1C00000000000000,
                0x1400000000000000,
                0x0900000000000000,
            )
        }
    }
}


/// The small letter of a kind of piece in a move's text; a star for a board that is
/// not that of a kind of piece.
pub open spec fn small_letter(pc: BBPiece) -> char {
    match pc {
        BBPiece::WKing | BBPiece::BKing => 'k',
        BBPiece::WPawn | BBPiece::BPawn => 'p',
        BBPiece::WRook | BBPiece::BRook => 'r',
        BBPiece::WKnight | BBPiece::BKnight => 'n',
        BBPiece::WBishop | BBPiece::BBishop => 'b',
        BBPiece::WQueen | BBPiece::BQueen => 'q',
        _ => '*',
    }
}

/// The small letter of a kind of piece in a move's text.
pub fn promotion_letter(pc: BBPiece) -> (r: char)
    ensures
        r == small_letter(pc),
{
    match pc {
        BBPiece::WKing | BBPiece::BKing => 'k',
        BBPiece::WPawn | BBPiece::BPawn => 'p',
        BBPiece::WRook | BBPiece::BRook => 'r',
        BBPiece::WKnight | BBPiece::BKnight => 'n',
        BBPiece::WBishop | BBPiece::BBishop => 'b',
        BBPiece::WQueen | BBPiece::BQueen => 'q',
        _ => '*',
    }
}

/// The text of a move in coordinate notation.
pub open spec fn move_text(m: ChessMove) -> Seq<char> {
    board_name(m.move_from) + board_name(m.move_to) + match m.promote {
        Some(pc) => seq![small_letter(pc)],
        None => Seq::empty(),
    }
}

/// The piece that a letter at the end of a move promotes a pawn of `side` to.
pub open spec fn promotion_of(side: Side, c: u8) -> Option<BBPiece> {
    if c == 113 {
        Some(BBPiece::at(side.base() + 5))
    } else if c == 114 {
        Some(BBPiece::at(side.base() + 2))
    } else if c == 98 {
        Some(BBPiece::at(side.base() + 4))
    } else if c == 110 {
        Some(BBPiece::at(side.base() + 3))
    } else {
        None
    }
}

/// What a move in coordinate notation names in the position `st`: the piece that
/// moves, the squares that it leaves and reaches, and what a pawn is promoted to.
///
/// The text is four or five bytes long: two squares, each a file letter from `a`
/// to `h` and a rank digit from `1` to `8`, and for a promotion one of the letters
/// `q`, `r`, `b` and `n`; any other text is a bad move. It names no piece where the
/// first square holds no piece of the side to move, or the second holds one.
pub open spec fn parse_move(s: Seq<u8>, st: Position) -> Result<
    (BBPiece, int, int, Option<BBPiece>),
    ParseError,
> {
    if !(s.len() == 4 || s.len() == 5) || !(97 <= s[0] <= 104) || !(49 <= s[1] <= 56) || !(97
        <= s[2] <= 104) || !(49 <= s[3] <= 56) || (s.len() == 5 && promotion_of(st.side, s[4])
        is None) {
        Err(ParseError::BadMove)
    } else {
        let from = square_at(s[0] - 97, s[1] - 49);
        let to = square_at(s[2] - 97, s[3] - 49);
        let promote = if s.len() == 5 {
            promotion_of(st.side, s[4])
        } else {
            None
        };
        match st.side_piece_on(st.side, square_bit(from)) {
            None => Err(ParseError::NoPiece),
            Some(role) => if st.of(st.side, 6) & square_bit(to) != 0 {
                Err(ParseError::NoPiece)
            } else {
                Ok((role, from, to, promote))
            },
        }
    }
}

/// Whether the byte is a file letter, from `a` to `h`.
fn is_file_byte(c: u8) -> (r: bool)
    ensures
        r == (97 <= c <= 104),
{
    97 <= c && c <= 104
}

/// Whether the byte is a rank digit, from `1` to `8`.
fn is_rank_byte(c: u8) -> (r: bool)
    ensures
        r == (49 <= c <= 56),
{
    49 <= c && c <= 56
}

/// What the engine and the game are set to.
pub struct GameSetup {
    pub xboard: bool,
    pub pondering: bool,
    /// Whether the engine plays White, and whether it plays Black.
    pub computer_player: [bool; 2],
    pub time: i32,
    pub otime: i32,
    pub moves_left: i32,
    pub forced: bool,
    /// How far the exchange that follows the command `xboard` has come: 0 when
    /// none is going on, 1 while the protocol version is awaited, 2 while the
    /// acceptance of the first feature is awaited, and 3 to 10 while the answers to
    /// the further features are awaited.
    pub handshake: u8,
    pub game_state: ChessState,
    pub engine: ChessEngine,
}

/// What the engine and the game are set to, as a mathematical value.
pub ghost struct Setup {
    pub xboard: bool,
    pub pondering: bool,
    pub white_engine: bool,
    pub black_engine: bool,
    pub time: int,
    pub otime: int,
    pub forced: bool,
    pub handshake: int,
    pub position: Position,
}

impl View for GameSetup {
    type V = Setup;

    open spec fn view(&self) -> Setup {
        Setup {
            xboard: self.xboard,
            pondering: self.pondering,
            white_engine: self.computer_player[0],
            black_engine: self.computer_player[1],
            time: self.time as int,
            otime: self.otime as int,
            forced: self.forced,
            handshake: self.handshake as int,
            position: self.game_state@,
        }
    }
}

impl GameSetup {
    /// A new game in which the engine plays neither side.
    pub fn new() -> (r: GameSetup)
        ensures
            !r.xboard,
            !r.pondering,
            !r.computer_player[0],
            !r.computer_player[1],
            r.time == 0,
            r.otime == 0,
            r.moves_left == 0,
            !r.forced,
            r.handshake == 0,
            r.game_state@ == crate::fen::initial_position(),
            r.engine.wf(),
    {
        GameSetup {
            xboard: false,
            pondering: false,
            computer_player: [false, false],
            time: 0,
            otime: 0,
            moves_left: 0,
            forced: false,
            handshake: 0,
            game_state: ChessState::new_game(),
            engine: ChessEngine::new(),
        }
    }
}

} // verus!
