//! Telling at run time whether a position can be one of a game, and that such a
//! position is told by its text.
use crate::bboard::{
    BBoard, group_has_square, has_square, lemma_board_empty, lemma_board_ext,
    lemma_count_single, lemma_lowest_square, lemma_mask_test, lowest_square, square_bit,
    square_count, square_index,
};
use crate::move_generator::{MoveGenerator, king_in_check};
use crate::piece_moves::rank_of;
use crate::fen_laws::{fen_faithful, pieces_agree, records};
use crate::position_laws::{
    consistent, legal_position, lemma_only_square, lemma_side_piece, mark_ok, rights_ok,
    side_holders, square_consistent,
};
use crate::state::{ChessState, Position, Side};
use vstd::prelude::*;

verus! {

/// Two boards share no square exactly when their intersection is empty.
pub proof fn lemma_disjoint(a: u64, b: u64)
    ensures
        (a & b == 0) == (forall|s: int| 0 <= s < 64 ==> !(has_square(a, s) && has_square(b, s))),
{
    broadcast use group_has_square;

    if a & b == 0 {
        assert forall|s: int| 0 <= s < 64 implies !(has_square(a, s) && has_square(b, s)) by {
            assert(!has_square(a & b, s));
        }
    } else {
        lemma_lowest_square(a & b);
        let s = lowest_square(a & b);
        assert(has_square(a, s) && has_square(b, s));
    }
}

/// The squares that at least one of the six boards of kinds of `side` holds, if no
/// two of them share a square.
pub open spec fn kinds_apart(p: Position, side: Side) -> bool {
    let o = side.base();
    let b = p.boards;
    &&& b[o] & b[o + 1] == 0
    &&& (b[o] | b[o + 1]) & b[o + 2] == 0
    &&& (b[o] | b[o + 1] | b[o + 2]) & b[o + 3] == 0
    &&& (b[o] | b[o + 1] | b[o + 2] | b[o + 3]) & b[o + 4] == 0
    &&& (b[o] | b[o + 1] | b[o + 2] | b[o + 3] | b[o + 4]) & b[o + 5] == 0
}

/// The union of the six boards of kinds of `side`.
pub open spec fn kinds_union(p: Position, side: Side) -> u64 {
    let o = side.base();
    let b = p.boards;
    b[o] | b[o + 1] | b[o + 2] | b[o + 3] | b[o + 4] | b[o + 5]
}

/// The boards fit together exactly when no two boards of kinds of one side share a
/// square, the two sides share no square, and the board of all the pieces of each
/// side is the union of its boards of kinds.
pub proof fn lemma_consistent_by_boards(p: Position)
    requires
        p.boards.len() == 18,
    ensures
        consistent(p) == (kinds_apart(p, Side::White) && kinds_apart(p, Side::Black)
            && kinds_union(p, Side::White) & kinds_union(p, Side::Black) == 0 && p.boards[6]
            == kinds_union(p, Side::White) && p.boards[15] == kinds_union(p, Side::Black)),
{
    broadcast use group_has_square;

    let b = p.boards;
    let w = kinds_union(p, Side::White);
    let k = kinds_union(p, Side::Black);
    lemma_union_pairs(p, Side::White);
    lemma_union_pairs(p, Side::Black);
    lemma_disjoint(w, k);
    if consistent(p) {
        assert forall|s: int| 0 <= s < 64 implies side_holders(p, Side::White, s) <= 1 by {
            assert(square_consistent(p, s));
        }
        assert forall|s: int| 0 <= s < 64 implies side_holders(p, Side::Black, s) <= 1 by {
            assert(square_consistent(p, s));
        }
        assert forall|s: int| 0 <= s < 64 implies !(has_square(w, s) && has_square(k, s)) by {
            assert(square_consistent(p, s));
            assert(has_square(w, s) == (side_holders(p, Side::White, s) >= 1));
            assert(has_square(k, s) == (side_holders(p, Side::Black, s) >= 1));
        }
        assert forall|s: int| 0 <= s < 64 implies has_square(b[6], s) == has_square(w, s) by {
            assert(square_consistent(p, s));
            assert(has_square(w, s) == (side_holders(p, Side::White, s) >= 1));
        }
        assert forall|s: int| 0 <= s < 64 implies has_square(b[15], s) == has_square(k, s) by {
            assert(square_consistent(p, s));
            assert(has_square(k, s) == (side_holders(p, Side::Black, s) >= 1));
        }
        lemma_board_ext(b[6], w);
        lemma_board_ext(b[15], k);
    }
    if kinds_apart(p, Side::White) && kinds_apart(p, Side::Black) && w & k == 0 && b[6] == w
        && b[15] == k {
        assert forall|s: int| 0 <= s < 64 implies #[trigger] square_consistent(p, s) by {
            assert(side_holders(p, Side::White, s) <= 1);
            assert(side_holders(p, Side::Black, s) <= 1);
            assert(has_square(w, s) == (side_holders(p, Side::White, s) >= 1));
            assert(has_square(k, s) == (side_holders(p, Side::Black, s) >= 1));
            assert(!(has_square(w, s) && has_square(k, s)));
        }
    }
}

/// No two boards of kinds of a side share a square exactly when every square is
/// held by at most one of them, and their union holds the squares that one of them
/// holds.
proof fn lemma_union_pairs(p: Position, side: Side)
    requires
        p.boards.len() == 18,
    ensures
        kinds_apart(p, side) == (forall|s: int| 0 <= s < 64 ==> side_holders(p, side, s) <= 1),
        forall|s: int|
            0 <= s < 64 ==> has_square(kinds_union(p, side), s) == (side_holders(p, side, s) >= 1),
{
    broadcast use group_has_square;

    let o = side.base();
    let b = p.boards;
    lemma_disjoint(b[o], b[o + 1]);
    lemma_disjoint(b[o] | b[o + 1], b[o + 2]);
    lemma_disjoint(b[o] | b[o + 1] | b[o + 2], b[o + 3]);
    lemma_disjoint(b[o] | b[o + 1] | b[o + 2] | b[o + 3], b[o + 4]);
    lemma_disjoint(b[o] | b[o + 1] | b[o + 2] | b[o + 3] | b[o + 4], b[o + 5]);
    if kinds_apart(p, side) {
        assert forall|s: int| 0 <= s < 64 implies side_holders(p, side, s) <= 1 by {
            assert(!(has_square(b[o], s) && has_square(b[o + 1], s)));
            assert(!(has_square(b[o] | b[o + 1], s) && has_square(b[o + 2], s)));
            assert(!(has_square(b[o] | b[o + 1] | b[o + 2], s) && has_square(b[o + 3], s)));
            assert(!(has_square(b[o] | b[o + 1] | b[o + 2] | b[o + 3], s) && has_square(
                b[o + 4],
                s,
            )));
            assert(!(has_square(b[o] | b[o + 1] | b[o + 2] | b[o + 3] | b[o + 4], s)
                && has_square(b[o + 5], s)));
        }
    }
    if forall|s: int| 0 <= s < 64 ==> side_holders(p, side, s) <= 1 {
        assert forall|s: int| 0 <= s < 64 implies !(has_square(b[o], s) && has_square(
            b[o + 1],
            s,
        )) && !(has_square(b[o] | b[o + 1], s) && has_square(b[o + 2], s)) && !(has_square(
            b[o] | b[o + 1] | b[o + 2],
            s,
        ) && has_square(b[o + 3], s)) && !(has_square(b[o] | b[o + 1] | b[o + 2] | b[o + 3], s)
            && has_square(b[o + 4], s)) && !(has_square(
            b[o] | b[o + 1] | b[o + 2] | b[o + 3] | b[o + 4],
            s,
        ) && has_square(b[o + 5], s)) by {
            assert(side_holders(p, side, s) <= 1);
        }
    }
}

/// A mark of a skipped square is in order exactly when it is empty, or one square
/// on the rank of the marks of its side.
pub proof fn lemma_mark_by_board(side: Side, mark: u64)
    ensures
        mark_ok(side, mark) == (mark == 0 || (square_count(mark) == 1 && mark & (if side
            == Side::White {
            0xff0000u64
        } else {
            0xff0000000000u64
        }) != 0)),
{
    broadcast use group_has_square;

    let rank = if side == Side::White {
        2int
    } else {
        5int
    };
    if mark != 0 {
        lemma_lowest_square(mark);
        lemma_count_single(mark);
        let l = lowest_square(mark);
        let i = l as u64;
        assert((((1u64 << i) & 0xff0000u64 != 0) == (i / 8 == 2)) && (((1u64 << i)
            & 0xff0000000000u64 != 0) == (i / 8 == 5))) by (bit_vector)
            requires
                i < 64,
        ;
        if mark_ok(side, mark) {
            let s = choose|s: int|
                0 <= s < 64 && mark == #[trigger] square_bit(s) && rank_of(s) == rank;
            lemma_only_square(mark, s);
            assert(has_square(mark, s) && has_square(mark, l));
            assert(has_square(square_bit(s), l));
        }
        if square_count(mark) == 1 && rank_of(l) == rank {
            assert(mark == square_bit(l));
        }
    }
}

/// The castling rights of a side are in order exactly when each right that is
/// there finds the king on its home square and the rook on its corner.
pub proof fn lemma_rights_by_board(p: Position, side: Side)
    requires
        p.boards.len() == 18,
    ensures
        ({
            let king = p.of(side, 0);
            let rook = p.of(side, 2);
            let home = if side == Side::White {
                0x10u64
            } else {
                0x1000000000000000u64
            };
            let hk = if side == Side::White {
                0x80u64
            } else {
                0x8000000000000000u64
            };
            let hq = if side == Side::White {
                0x01u64
            } else {
                0x0100000000000000u64
            };
            rights_ok(p, side) == ((!p.castle_rights(side).0 || (king & home != 0 && rook & hk
                != 0)) && (!p.castle_rights(side).1 || (king & home != 0 && rook & hq != 0)))
        }),
{
    let king = p.of(side, 0);
    let rook = p.of(side, 2);
    assert((1u64 << 4 == 0x10) && (1u64 << 7 == 0x80) && (1u64 << 0 == 0x01) && (1u64 << 60
        == 0x1000000000000000) && (1u64 << 63 == 0x8000000000000000) && (1u64 << 56
        == 0x0100000000000000)) by (bit_vector);
    lemma_mask_test(king, 4);
    lemma_mask_test(king, 60);
    lemma_mask_test(rook, 7);
    lemma_mask_test(rook, 0);
    lemma_mask_test(rook, 63);
    lemma_mask_test(rook, 56);
}

/// In a position whose boards fit together the boards of the pieces say what
/// `piece_on` finds, so that the position is told by the letters and digits of its
/// board text.
pub proof fn lemma_consistent_pieces_agree(p: Position)
    requires
        consistent(p),
    ensures
        pieces_agree(p),
{
    reveal(Position::piece_on);
    assert forall|j: int, s: int|
        0 <= j < 18 && j != 7 && j != 8 && j != 16 && j != 17 && 0 <= s < 64 implies #[trigger] has_square(
        p.boards[j],
        s,
    ) == records(p, j, s) by {
        lemma_side_piece(p, Side::White, s);
        lemma_side_piece(p, Side::Black, s);
        assert(square_consistent(p, s));
        match p.side_piece_on(Side::White, square_bit(s)) {
            Some(pc) => {
                crate::state::lemma_at_index(pc);
            },
            None => {},
        }
        match p.side_piece_on(Side::Black, square_bit(s)) {
            Some(pc) => {
                crate::state::lemma_at_index(pc);
            },
            None => {},
        }
    }
}

/// Every position of a game whose counters fit in thirty-two bits is told by its
/// text in Forsyth-Edwards notation, so that reading the text gives it back.
pub proof fn lemma_legal_position_is_told(p: Position)
    requires
        legal_position(p),
        0 <= p.half_moves <= u32::MAX,
        0 <= p.full_moves <= u32::MAX,
    ensures
        fen_faithful(p),
{
    lemma_consistent_pieces_agree(p);
    let own = p.of(p.side, 8);
    let mark = p.of(p.side.other(), 8);
    let w = p.boards[7];
    let b = p.boards[16];
    assert(w == crate::state::rights_board(w & 1 > 0, w & 2 > 0)) by (bit_vector)
        requires
            w <= 3,
    ;
    assert(b == crate::state::rights_board(b & 1 > 0, b & 2 > 0)) by (bit_vector)
        requires
            b <= 3,
    ;
    assert(mark | 0 == mark && 0 | mark == mark) by (bit_vector);
    lemma_mark_by_board(p.side.other(), mark);
    if mark != 0 {
        let s = choose|s: int|
            0 <= s < 64 && mark == #[trigger] square_bit(s) && rank_of(s) == if p.side.other()
                == Side::White {
                2int
            } else {
                5int
            };
        let i = s as u64;
        assert((i / 8 == 2 ==> 1u64 << i < 0x1_0000_0000) && (i / 8 == 5 ==> 1u64 << i
            >= 0x1_0000_0000)) by (bit_vector)
            requires
                i < 64,
        ;
    }
}

impl MoveGenerator {
    /// Whether the king of `side` is attacked.
    pub fn is_in_check(&self, state: &ChessState, side: Side) -> (r: bool)
        requires
            self.wf(),
        ensures
            r == king_in_check(state@, side),
    {
        let king = state.bboards[side.offset()];
        if king == 0 {
            false
        } else {
            self.is_hit(state, square_index(king), side.opposite().offset())
        }
    }

    /// Whether the position can be one of a game: the boards fit together, each
    /// side has one king, the side that has just moved is not in check, only that
    /// side has left a mark of a skipped square, on its third rank, and the castling
    /// rights that are there are still possible.
    pub fn is_legal_position(&self, state: &ChessState) -> (r: bool)
        requires
            self.wf(),
        ensures
            r == legal_position(state@),
    {
        let ghost p = state@;
        let b = &state.bboards;
        proof {
            lemma_consistent_by_boards(p);
            lemma_mark_by_board(p.side.other(), p.of(p.side.other(), 8));
            lemma_rights_by_board(p, Side::White);
            lemma_rights_by_board(p, Side::Black);
        }
        if !kinds_fit(b, 0) || !kinds_fit(b, 9) {
            return false;
        }
        let white = b[0] | b[1] | b[2] | b[3] | b[4] | b[5];
        let black = b[9] | b[10] | b[11] | b[12] | b[13] | b[14];
        if white & black != 0 || b[6] != white || b[15] != black {
            return false;
        }
        if b[0].count_ones() != 1 || b[9].count_ones() != 1 {
            return false;
        }
        let side = state.next_to_move;
        let other = side.opposite();
        if self.is_in_check(state, other) {
            return false;
        }
        if b[side.offset() + 8] != 0 {
            return false;
        }
        let mark = b[other.offset() + 8];
        let rank: BBoard = match other {
            Side::White => 0xff0000,
            Side::Black => 0xff0000000000,
        };
        if mark != 0 && (mark.count_ones() != 1 || mark & rank == 0) {
            return false;
        }
        rights_fit(state, Side::White) && rights_fit(state, Side::Black) && b[7] <= 3 && b[16] <= 3
    }
}

/// Whether no two of the six boards of kinds from place `o` on share a square.
fn kinds_fit(b: &[BBoard; 18], o: usize) -> (r: bool)
    requires
        o == 0 || o == 9,
    ensures
        r == ({
            &&& b[o as int] & b[o + 1] == 0
            &&& (b[o as int] | b[o + 1]) & b[o + 2] == 0
            &&& (b[o as int] | b[o + 1] | b[o + 2]) & b[o + 3] == 0
            &&& (b[o as int] | b[o + 1] | b[o + 2] | b[o + 3]) & b[o + 4] == 0
            &&& (b[o as int] | b[o + 1] | b[o + 2] | b[o + 3] | b[o + 4]) & b[o + 5] == 0
        }),
{
    let mut seen = b[o];
    if seen & b[o + 1] != 0 {
        return false;
    }
    seen = seen | b[o + 1];
    if seen & b[o + 2] != 0 {
        return false;
    }
    seen = seen | b[o + 2];
    if seen & b[o + 3] != 0 {
        return false;
    }
    seen = seen | b[o + 3];
    if seen & b[o + 4] != 0 {
        return false;
    }
    seen = seen | b[o + 4];
    seen & b[o + 5] == 0
}

/// Whether each castling right of `side` that is there finds the king on its home
/// square and the rook on its corner.
fn rights_fit(state: &ChessState, side: Side) -> (r: bool)
    ensures
        r == ({
            let p = state@;
            let king = p.of(side, 0);
            let rook = p.of(side, 2);
            let home = if side == Side::White {
                0x10u64
            } else {
                0x1000000000000000u64
            };
            let hk = if side == Side::White {
                0x80u64
            } else {
                0x8000000000000000u64
            };
            let hq = if side == Side::White {
                0x01u64
            } else {
                0x0100000000000000u64
            };
            (!p.castle_rights(side).0 || (king & home != 0 && rook & hk != 0)) && (
            !p.castle_rights(side).1 || (king & home != 0 && rook & hq != 0))
        }),
{
    let o = side.offset();
    let king = state.bboards[o];
    let rook = state.bboards[o + 2];
    let (home, hk, hq): (BBoard, BBoard, BBoard) = match side {
        Side::White => (0x10, 0x80, 0x01),
        Side::Black => (0x1000000000000000, 0x8000000000000000, 0x0100000000000000),
    };
    let (k, q) = state.castle_state(side);
    (!k || (king & home != 0 && rook & hk != 0)) && (!q || (king & home != 0 && rook & hq != 0))
}

} // verus!
