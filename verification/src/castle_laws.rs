//! That castling keeps what holds of every position of a game, and with it every
//! legal move.
use crate::bboard::{
    group_has_square, has_square, lemma_count_single, lemma_lowest_square, lowest_square,
    square_bit, square_count,
};
use crate::common::rights_after;
use crate::game_setup::{castle_of_king_move, castle_template, tog};
use crate::magic::{between, clear_between};
use crate::move_generator::{
    MoveKey, any_attacked, attacked, attacks, castle_key, key_deltas, king_in_check, king_squares,
    legal_keys,
};
use crate::piece_moves::{file_of, rank_of};
use crate::position_laws::{
    after_key, consistent, is_castle_key, is_piece_key, legal_position, lemma_legal_key_kinds,
    lemma_marks_and_rights, lemma_only_square, lemma_piece_move_legal, lemma_rights_left,
    lemma_side_piece, lemma_tog_has, mark_ok, plain_key, square_consistent,
};
use crate::state::{BBPiece, CastleSide, Position, Side};
use vstd::prelude::*;

verus! {

/// The squares that the rook of `side` leaves and reaches in castling on `wing`.
pub open spec fn rook_squares(side: Side, wing: CastleSide) -> (int, int) {
    match (side, wing) {
        (Side::White, CastleSide::King) => (7, 5),
        (Side::White, CastleSide::Queen) => (0, 3),
        (Side::Black, CastleSide::King) => (63, 61),
        (Side::Black, CastleSide::Queen) => (56, 59),
    }
}

/// The squares of the six boards of a way of castling.
pub proof fn lemma_castle_boards(side: Side, wing: CastleSide, s: int)
    requires
        0 <= s < 64,
    ensures
        ({
            let t = castle_template(side, wing);
            let k = king_squares(side, wing);
            let r = rook_squares(side, wing);
            &&& t.0 == square_bit(k.0)
            &&& has_square(t.1, s) == (s == r.0)
            &&& has_square(t.2, s) ==> !has_square(t.0, s) && !has_square(t.1, s)
            &&& has_square(t.2, k.1) && has_square(t.2, r.1)
            &&& has_square(t.3, k.0) && has_square(t.3, k.1)
            &&& t.4 == square_bit(k.0) | square_bit(k.1)
            &&& has_square(t.5, s) == (s == r.0 || s == r.1)
            &&& castle_of_king_move(t.4) == Some((side, wing))
        }),
{
    let i = s as u64;
    assert({
        &&& 0x10u64 == 1u64 << 4
        &&& 0x1000000000000000u64 == 1u64 << 60
        &&& 0x50u64 == (1u64 << 4) | (1u64 << 6)
        &&& 0x14u64 == (1u64 << 4) | (1u64 << 2)
        &&& 0x5000000000000000u64 == (1u64 << 60) | (1u64 << 62)
        &&& 0x1400000000000000u64 == (1u64 << 60) | (1u64 << 58)
        &&& ((0x80u64 >> i) & 1 == 1) == (i == 7)
        &&& ((0x01u64 >> i) & 1 == 1) == (i == 0)
        &&& ((0x8000000000000000u64 >> i) & 1 == 1) == (i == 63)
        &&& ((0x0100000000000000u64 >> i) & 1 == 1) == (i == 56)
        &&& ((0x60u64 >> i) & 1 == 1) == (i == 5 || i == 6)
        &&& ((0x0Eu64 >> i) & 1 == 1) == (i == 1 || i == 2 || i == 3)
        &&& ((0x6000000000000000u64 >> i) & 1 == 1) == (i == 61 || i == 62)
        &&& ((0x0E00000000000000u64 >> i) & 1 == 1) == (i == 57 || i == 58 || i == 59)
        &&& ((0x70u64 >> i) & 1 == 1) == (i == 4 || i == 5 || i == 6)
        &&& ((0x1Cu64 >> i) & 1 == 1) == (i == 2 || i == 3 || i == 4)
        &&& ((0x7000000000000000u64 >> i) & 1 == 1) == (i == 60 || i == 61 || i == 62)
        &&& ((0x1C00000000000000u64 >> i) & 1 == 1) == (i == 58 || i == 59 || i == 60)
        &&& ((0xA0u64 >> i) & 1 == 1) == (i == 5 || i == 7)
        &&& ((0x09u64 >> i) & 1 == 1) == (i == 0 || i == 3)
        &&& ((0xA000000000000000u64 >> i) & 1 == 1) == (i == 61 || i == 63)
        &&& ((0x0900000000000000u64 >> i) & 1 == 1) == (i == 56 || i == 59)
    }) by (bit_vector)
        requires
            i < 64,
    ;
    let t = castle_template(side, wing);
    let k = king_squares(side, wing);
    let r = rook_squares(side, wing);
    lemma_castle_masks(side, wing, s);
    lemma_castle_masks(side, wing, k.0);
    lemma_castle_masks(side, wing, k.1);
    lemma_castle_masks(side, wing, r.1);
    assert(t.0 == square_bit(k.0));
    assert(t.4 == square_bit(k.0) | square_bit(k.1));
    crate::bboard::lemma_has_square_bit(k.0, s);
    assert(has_square(t.1, s) == (s == r.0));
    assert(has_square(t.5, s) == (s == r.0 || s == r.1));
}

/// The squares of the boards of the empty squares and of the safe squares of a way
/// of castling.
proof fn lemma_castle_masks(side: Side, wing: CastleSide, s: int)
    requires
        0 <= s < 64,
    ensures
        ({
            let t = castle_template(side, wing);
            &&& has_square(t.2, s) == match (side, wing) {
                (Side::White, CastleSide::King) => s == 5 || s == 6,
                (Side::White, CastleSide::Queen) => s == 1 || s == 2 || s == 3,
                (Side::Black, CastleSide::King) => s == 61 || s == 62,
                (Side::Black, CastleSide::Queen) => s == 57 || s == 58 || s == 59,
            }
            &&& has_square(t.3, s) == match (side, wing) {
                (Side::White, CastleSide::King) => s == 4 || s == 5 || s == 6,
                (Side::White, CastleSide::Queen) => s == 2 || s == 3 || s == 4,
                (Side::Black, CastleSide::King) => s == 60 || s == 61 || s == 62,
                (Side::Black, CastleSide::Queen) => s == 58 || s == 59 || s == 60,
            }
        }),
{
    let i = s as u64;
    assert({
        &&& ((0x60u64 >> i) & 1 == 1) == (i == 5 || i == 6)
        &&& ((0x0Eu64 >> i) & 1 == 1) == (i == 1 || i == 2 || i == 3)
        &&& ((0x6000000000000000u64 >> i) & 1 == 1) == (i == 61 || i == 62)
        &&& ((0x0E00000000000000u64 >> i) & 1 == 1) == (i == 57 || i == 58 || i == 59)
        &&& ((0x70u64 >> i) & 1 == 1) == (i == 4 || i == 5 || i == 6)
        &&& ((0x1Cu64 >> i) & 1 == 1) == (i == 2 || i == 3 || i == 4)
        &&& ((0x7000000000000000u64 >> i) & 1 == 1) == (i == 60 || i == 61 || i == 62)
        &&& ((0x1C00000000000000u64 >> i) & 1 == 1) == (i == 58 || i == 59 || i == 60)
    }) by (bit_vector)
        requires
            i < 64,
    ;
}

/// Whether the board at place `j` holds the square `s` after `side` has castled on
/// `wing`: the king and the rook have left their squares and stand on their new
/// squares, and every other square is as it was.
pub open spec fn holds_after_castle(p: Position, wing: CastleSide, j: int, s: int) -> bool {
    let own = p.side.base();
    let k = king_squares(p.side, wing);
    let r = rook_squares(p.side, wing);
    if s == k.0 || s == r.0 {
        false
    } else if s == k.1 {
        j == own || j == own + 6
    } else if s == r.1 {
        j == own + 2 || j == own + 6
    } else {
        has_square(p.boards[j], s)
    }
}

/// The castling move on `wing` is legal in the position, and `k` names it.
pub open spec fn is_castle_on(p: Position, wing: CastleSide, k: MoveKey) -> bool {
    castle_key(p, wing) == seq![k]
}

/// What a legal castling move is: the king of the side to move goes from its home
/// square to its castling square, the right is there, and the squares between king
/// and rook are empty.
pub proof fn lemma_castle_key(p: Position, wing: CastleSide, k: MoveKey)
    requires
        legal_position(p),
        is_castle_on(p, wing, k),
    ensures
        k.piece == BBPiece::at(p.side.base()),
        k.piece.index() == p.side.base(),
        k.from == king_squares(p.side, wing).0,
        k.to == king_squares(p.side, wing).1,
        k.promote is None,
        plain_key(p, k),
        has_square(p.of(p.side, 0), k.from),
        has_square(p.of(p.side, 2), rook_squares(p.side, wing).0),
        !has_square(p.occupied(), k.to),
        !has_square(p.occupied(), rook_squares(p.side, wing).1),
        !any_attacked(p, castle_template(p.side, wing).3, p.side.other()),
{
    broadcast use group_has_square;

    let c = castle_key(p, wing);
    assert(c.len() == 1);
    assert(c[0] == k);
    let t = castle_template(p.side, wing);
    lemma_castle_boards(p.side, wing, k.to);
    lemma_castle_boards(p.side, wing, rook_squares(p.side, wing).1);
    assert(!has_square(t.2 & p.occupied(), k.to));
    assert(!has_square(t.2 & p.occupied(), rook_squares(p.side, wing).1));
}

/// What the boards of the pieces hold after castling.
pub proof fn lemma_castle_move_boards(p: Position, wing: CastleSide, k: MoveKey, j: int, s: int)
    requires
        legal_position(p),
        is_castle_on(p, wing, k),
        0 <= j < 18,
        j != 7 && j != 8 && j != 16 && j != 17,
        0 <= s < 64,
    ensures
        has_square(after_key(p, k).boards[j], s) == holds_after_castle(p, wing, j, s),
{
    broadcast use group_has_square;

    lemma_castle_key(p, wing, k);
    let own = p.side.base();
    let opp = p.side.other().base();
    let ks = king_squares(p.side, wing);
    let rs = rook_squares(p.side, wing);
    let tt = castle_template(p.side, wing);
    let r = k.piece.index();
    let f = square_bit(k.from);
    let t = square_bit(k.to);
    lemma_castle_boards(p.side, wing, s);
    lemma_side_piece(p, p.side.other(), k.to);
    assert(square_consistent(p, s));
    assert(square_consistent(p, ks.0));
    assert(square_consistent(p, ks.1));
    assert(square_consistent(p, rs.0));
    assert(square_consistent(p, rs.1));
    let d0 = Seq::new(18, |i: int| 0u64);
    let d1 = tog(d0, r, f | t);
    lemma_tog_has(d0, r, f | t, j, s);
    let d2 = tog(d1, own + 6, f | t);
    lemma_tog_has(d1, own + 6, f | t, j, s);
    assert(t & p.boards[opp + 6] == 0);
    let d3 = d2;
    let d4 = d3;
    assert(f | t == tt.4);
    let d5 = tog(tog(d4, own + 2, tt.5), own + 6, tt.5);
    lemma_tog_has(d4, own + 2, tt.5, j, s);
    lemma_tog_has(tog(d4, own + 2, tt.5), own + 6, tt.5, j, s);
    let d6 = tog(tog(d5, opp + 8, p.boards[opp + 8]), own + 8, p.boards[own + 8] ^ 0);
    let d7 = tog(
        d6,
        7,
        p.boards[7] ^ rights_after(
            Side::White,
            p.boards[0] ^ d6[0],
            p.boards[2] ^ d6[2],
            p.boards[7],
        ),
    );
    let d8 = tog(
        d7,
        16,
        p.boards[16] ^ rights_after(
            Side::Black,
            p.boards[9] ^ d7[9],
            p.boards[11] ^ d7[11],
            p.boards[16],
        ),
    );
    assert(key_deltas(p, k) == d8);
    assert(d8[j] == d5[j]);
    assert(after_key(p, k).boards[j] == p.boards[j] ^ d5[j]);
}


/// What all the boards of the pieces hold on one square after castling.
proof fn lemma_castle_squares_after(p: Position, wing: CastleSide, k: MoveKey, s: int)
    requires
        legal_position(p),
        is_castle_on(p, wing, k),
        0 <= s < 64,
    ensures
        forall|j: int|
            0 <= j < 18 && j != 7 && j != 8 && j != 16 && j != 17 ==> has_square(
                #[trigger] after_key(p, k).boards[j],
                s,
            ) == holds_after_castle(p, wing, j, s),
{
    assert forall|j: int| 0 <= j < 18 && j != 7 && j != 8 && j != 16 && j != 17 implies has_square(
        #[trigger] after_key(p, k).boards[j],
        s,
    ) == holds_after_castle(p, wing, j, s) by {
        lemma_castle_move_boards(p, wing, k, j, s);
    }
}

/// After castling the boards fit together, each side still has its one king, and
/// the king that has castled stands on its castling square.
pub proof fn lemma_castle_consistent(p: Position, wing: CastleSide, k: MoveKey)
    requires
        legal_position(p),
        is_castle_on(p, wing, k),
    ensures
        consistent(after_key(p, k)),
        square_count(after_key(p, k).boards[0]) == 1,
        square_count(after_key(p, k).boards[9]) == 1,
        after_key(p, k).of(p.side, 0) == square_bit(king_squares(p.side, wing).1),
{
    broadcast use group_has_square;

    let q = after_key(p, k);
    let ks = king_squares(p.side, wing);
    let rs = rook_squares(p.side, wing);
    lemma_castle_key(p, wing, k);
    assert(q.boards.len() == 18);
    assert(square_consistent(p, ks.0));
    assert(square_consistent(p, ks.1));
    assert(square_consistent(p, rs.0));
    assert(square_consistent(p, rs.1));
    assert forall|s: int| 0 <= s < 64 implies #[trigger] square_consistent(q, s) by {
        lemma_castle_squares_after(p, wing, k, s);
        assert(square_consistent(p, s));
    }
    let wk = p.boards[0];
    let bk = p.boards[9];
    lemma_count_single(wk);
    lemma_count_single(bk);
    lemma_lowest_square(wk);
    lemma_lowest_square(bk);
    let w = lowest_square(wk);
    let b = lowest_square(bk);
    let w2 = if p.side == Side::White {
        ks.1
    } else {
        w
    };
    let b2 = if p.side == Side::Black {
        ks.1
    } else {
        b
    };
    assert forall|t: int| 0 <= t < 64 implies has_square(q.boards[0], t) == (t == w2) by {
        lemma_castle_move_boards(p, wing, k, 0, t);
        assert(has_square(square_bit(w), t) == (t == w));
        assert(square_consistent(p, t));
    }
    assert forall|t: int| 0 <= t < 64 implies has_square(q.boards[9], t) == (t == b2) by {
        lemma_castle_move_boards(p, wing, k, 9, t);
        assert(has_square(square_bit(b), t) == (t == b));
        assert(square_consistent(p, t));
    }
    lemma_only_square(q.boards[0], w2);
    lemma_only_square(q.boards[9], b2);
}

/// The lines to the king's castling square: the rook's corner lies on none of them
/// between another square and the castling square, and where the king's home
/// square lies between, the rook's new square lies between as well.
proof fn lemma_castle_lines(side: Side, wing: CastleSide, a: int)
    requires
        0 <= a < 64,
    ensures
        !between(a, king_squares(side, wing).1, rook_squares(side, wing).0),
        between(a, king_squares(side, wing).1, king_squares(side, wing).0) ==> between(
            a,
            king_squares(side, wing).1,
            rook_squares(side, wing).1,
        ),
{
    assert(a == 8 * rank_of(a) + file_of(a));
}

/// After castling, a slider of the other side that sees the king's new square saw
/// it before.
proof fn lemma_castle_sight(p: Position, wing: CastleSide, k: MoveKey, a: int)
    requires
        legal_position(p),
        is_castle_on(p, wing, k),
        0 <= a < 64,
        clear_between(after_key(p, k).occupied(), a, k.to),
    ensures
        clear_between(p.occupied(), a, k.to),
{
    broadcast use group_has_square;

    let q = after_key(p, k);
    let ks = king_squares(p.side, wing);
    let rs = rook_squares(p.side, wing);
    lemma_castle_key(p, wing, k);
    lemma_castle_lines(p.side, wing, a);
    assert forall|m: int| 0 <= m < 64 && between(a, k.to, m) implies !has_square(
        p.occupied(),
        m,
    ) by {
        assert(!has_square(q.occupied(), m));
        lemma_castle_move_boards(p, wing, k, 6, m);
        lemma_castle_move_boards(p, wing, k, 15, m);
        if between(a, k.to, ks.0) {
            assert(!has_square(q.occupied(), rs.1));
            lemma_castle_move_boards(p, wing, k, 6, rs.1);
            lemma_castle_move_boards(p, wing, k, 15, rs.1);
        }
    }
}

/// After castling the king is not in check: none of the squares that it has
/// crossed was attacked.
pub proof fn lemma_castle_king_safe(p: Position, wing: CastleSide, k: MoveKey)
    requires
        legal_position(p),
        is_castle_on(p, wing, k),
    ensures
        !king_in_check(after_key(p, k), p.side),
{
    broadcast use group_has_square;

    let q = after_key(p, k);
    let opp = p.side.other();
    let o = opp.base();
    let ks = king_squares(p.side, wing);
    let t = castle_template(p.side, wing);
    lemma_castle_key(p, wing, k);
    lemma_castle_consistent(p, wing, k);
    lemma_castle_boards(p.side, wing, ks.1);
    lemma_lowest_square(square_bit(ks.1));
    assert(has_square(square_bit(ks.1), ks.1));
    assert(square_bit(ks.1) != 0);
    assert(has_square(square_bit(ks.1), lowest_square(square_bit(ks.1))));
    assert(lowest_square(q.of(p.side, 0)) == ks.1);
    if attacked(q, ks.1, opp) {
        let a = choose|a: int| 0 <= a < 64 && #[trigger] attacks(q, opp, a, ks.1);
        assert(square_consistent(p, a));
        lemma_castle_move_boards(p, wing, k, o, a);
        lemma_castle_move_boards(p, wing, k, o + 1, a);
        lemma_castle_move_boards(p, wing, k, o + 2, a);
        lemma_castle_move_boards(p, wing, k, o + 3, a);
        lemma_castle_move_boards(p, wing, k, o + 4, a);
        lemma_castle_move_boards(p, wing, k, o + 5, a);
        if clear_between(q.occupied(), a, ks.1) {
            lemma_castle_sight(p, wing, k, a);
        }
        assert(attacks(p, opp, a, ks.1));
        assert(attacked(p, ks.1, opp));
        assert(any_attacked(p, t.3, opp));
    }
}

/// After a legal castling move in a position of a game, the position is again one
/// of a game.
pub proof fn lemma_castle_move_legal(p: Position, k: MoveKey)
    requires
        legal_position(p),
        is_castle_key(p, k),
    ensures
        legal_position(after_key(p, k)),
{
    let wing = if castle_key(p, CastleSide::King) == seq![k] {
        CastleSide::King
    } else {
        CastleSide::Queen
    };
    let q = after_key(p, k);
    lemma_castle_key(p, wing, k);
    lemma_castle_consistent(p, wing, k);
    lemma_castle_king_safe(p, wing, k);
    lemma_marks_and_rights(p, k);
    lemma_rights_left(q, Side::White, p.boards[7]);
    lemma_rights_left(q, Side::Black, p.boards[16]);
    assert(mark_ok(p.side, 0));
}

/// Every legal move of a position of a game leads to a position of a game: the
/// boards still fit together, each side has its one king, and the side that has
/// moved is not in check.
pub proof fn lemma_legal_move_keeps_legal(p: Position, i: int)
    requires
        legal_position(p),
        0 <= i < legal_keys(p).len(),
    ensures
        legal_position(after_key(p, legal_keys(p)[i])),
{
    let k = legal_keys(p)[i];
    lemma_legal_key_kinds(p, i);
    if is_piece_key(p, k) {
        lemma_piece_move_legal(p, k);
    } else {
        lemma_castle_move_legal(p, k);
    }
}

} // verus!
