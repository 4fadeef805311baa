//! The ways of castling, and the castling rights that king and rooks still allow.
use crate::bboard::BBoard;
use crate::game_setup::castle_template;
use crate::state::{CastleSide, ChessState, Position, Side, rights_board};
use vstd::prelude::*;

verus! {

/// The castling rights that are left of `rights` when the side's king and rooks
/// stand as `king` and `rook` say: none once the king is off its home square, and on
/// each wing none once the rook of that wing is off its corner.
pub open spec fn rights_after(side: Side, king: u64, rook: u64, rights: u64) -> u64 {
    let k = castle_template(side, CastleSide::King);
    let q = castle_template(side, CastleSide::Queen);
    if king & k.0 == 0 {
        0
    } else {
        rights & rights_board(rook & k.1 != 0, rook & q.1 != 0)
    }
}

/// The castling rights that are left of `rights` when the side's king and rooks
/// stand as `king` and `rook` say.
pub fn castle_rights_left(side: Side, king: BBoard, rook: BBoard, rights: BBoard) -> (r: BBoard)
    ensures
        r == rights_after(side, king, rook, rights),
{
    let (king_b, rook_k, _, _, _, _) = castle_tuple_k_r_e_na_km_rm(side, CastleSide::King);
    let (_, rook_q, _, _, _, _) = castle_tuple_k_r_e_na_km_rm(side, CastleSide::Queen);
    if king & king_b == 0 {
        return 0;
    }
    let mut keep: BBoard = 0;
    if rook & rook_k != 0 {
        keep += 1;
    }
    if rook & rook_q != 0 {
        keep += 2;
    }
    rights & keep
}

/// Takes from `side` the castling rights that it has lost: all once its king is off
/// its home square, and on each wing once the rook of that wing is off its corner.
pub fn update_castles(state: &mut ChessState, side: Side)
    ensures
        final(state)@ == (Position {
            boards: old(state)@.boards.update(
                side.base() + 7,
                rights_after(
                    side,
                    old(state)@.of(side, 0),
                    old(state)@.of(side, 2),
                    old(state)@.of(side, 7),
                ),
            ),
            ..old(state)@
        }),
{
    let o = side.offset();
    let rights = castle_rights_left(
        side,
        state.bboards[o],
        state.bboards[o + 2],
        state.bboards[o + 7],
    );
    state.bboards[o + 7] = rights;
    assert(state@.boards =~= old(state)@.boards.update(side.base() + 7, rights));
}

/// The boards of one way of castling: king, rook, empty, not attacked, king's
/// move, rook's move.
pub fn castle_tuple_k_r_e_na_km_rm(side: Side, castle_type: CastleSide) -> (r: (
    BBoard,
    BBoard,
    BBoard,
    BBoard,
    BBoard,
    BBoard,
))
    ensures
        r == castle_template(side, castle_type),
{
    match side {
        Side::White => match castle_type {
            CastleSide::King => (0x10, 0x80, 0x60, 0x70, 0x50, 0xA0),
            CastleSide::Queen => (0x10, 0x01, 0x0E, 0x1C, 0x14, 0x09),
        },
        Side::Black => match castle_type {
            CastleSide::King => (
                0x1000000000000000,
                0x8000000000000000,
                0x6000000000000000,
                0x7000000000000000,
                0x5000000000000000,
                0xA000000000000000,
            ),
            CastleSide::Queen => (
                0x1000000000000000,
                0x0100000000000000,
                0x0E00000000000000,
                0x1C00000000000000,
                0x1400000000000000,
                0x0900000000000000,
            ),
        },
    }
}

} // verus!
