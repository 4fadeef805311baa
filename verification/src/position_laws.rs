//! What holds of every position of a game, and that the move of a piece keeps it.
use crate::bboard::{
    group_has_square, has_square, lemma_board_ext, lemma_count_single, lemma_lowest_square,
    lemma_mask_test, lowest_square, square_bit, square_count,
};
use crate::common::rights_after;
use crate::game_setup::{castle_of_king_move, castle_template, skipped_square, square_behind, tog};
use crate::move_generator::{
    MoveKey, attacked, attacks, castle_key, key_deltas, key_safe, keys_at, keys_from, keys_to,
    king_in_check, king_squares, legal_keys, promotes, reaches, safe_key,
};
use crate::piece_moves::{king_step, rank_of};
use crate::state::{BBPiece, CastleSide, Position, Side, lemma_at_index, rights_board};
use vstd::prelude::*;

verus! {

/// One if the square belongs to the board, and zero if not.
pub open spec fn hold(b: u64, s: int) -> int {
    if has_square(b, s) {
        1
    } else {
        0
    }
}

/// How many of the six boards of kinds of `side` hold the square `s`.
pub open spec fn side_holders(p: Position, side: Side, s: int) -> int {
    let o = side.base();
    hold(p.boards[o], s) + hold(p.boards[o + 1], s) + hold(p.boards[o + 2], s) + hold(
        p.boards[o + 3],
        s,
    ) + hold(p.boards[o + 4], s) + hold(p.boards[o + 5], s)
}

/// At most one of the twelve boards of kinds holds the square `s`, and the board of
/// all the pieces of a side holds it exactly when one of that side's boards of kinds
/// does.
pub open spec fn square_consistent(p: Position, s: int) -> bool {
    &&& side_holders(p, Side::White, s) + side_holders(p, Side::Black, s) <= 1
    &&& has_square(p.boards[6], s) == (side_holders(p, Side::White, s) == 1)
    &&& has_square(p.boards[15], s) == (side_holders(p, Side::Black, s) == 1)
}

/// The boards of the pieces fit together: the twelve boards of kinds share no
/// square, and the board of all the pieces of each side is the union of that side's
/// boards of kinds.
pub open spec fn consistent(p: Position) -> bool {
    &&& p.boards.len() == 18
    &&& forall|s: int| 0 <= s < 64 ==> #[trigger] square_consistent(p, s)
}

/// The mark of the square to capture in passing that `side` has left: none, or
/// one square on the third rank of that side.
pub open spec fn mark_ok(side: Side, mark: u64) -> bool {
    mark == 0 || exists|s: int|
        0 <= s < 64 && mark == #[trigger] square_bit(s) && rank_of(s) == if side == Side::White {
            2int
        } else {
            5int
        }
}

/// A right to castle is there only while the king stands on its home square and
/// the rook of that wing on its corner.
pub open spec fn rights_ok(p: Position, side: Side) -> bool {
    let k = king_squares(side, CastleSide::King).0;
    let hk = if side == Side::White {
        7int
    } else {
        63int
    };
    let hq = if side == Side::White {
        0int
    } else {
        56int
    };
    &&& p.castle_rights(side).0 ==> has_square(p.of(side, 0), k) && has_square(p.of(side, 2), hk)
    &&& p.castle_rights(side).1 ==> has_square(p.of(side, 0), k) && has_square(p.of(side, 2), hq)
}

/// What holds of every position of a game: the boards fit together, each side has
/// exactly one king, the side that has just moved is not in check, only the side
/// that has just moved has left a mark of a skipped square, the castling rights
/// that are there are still possible, and the boards of the rights hold nothing but
/// the two rights.
pub open spec fn legal_position(p: Position) -> bool {
    &&& consistent(p)
    &&& square_count(p.boards[0]) == 1
    &&& square_count(p.boards[9]) == 1
    &&& !king_in_check(p, p.side.other())
    &&& p.of(p.side, 8) == 0
    &&& mark_ok(p.side.other(), p.of(p.side.other(), 8))
    &&& rights_ok(p, Side::White)
    &&& rights_ok(p, Side::Black)
    &&& p.boards[7] <= 3
    &&& p.boards[16] <= 3
}

/// `k` names a move of a piece of the side to move that stands on `k.from` and
/// reaches `k.to`, with a promotion exactly for a pawn that reaches the last rank,
/// and the move leaves the mover's king safe.
pub open spec fn is_piece_key(p: Position, k: MoveKey) -> bool {
    let kind = k.piece.index() - p.side.base();
    &&& 0 <= kind < 6
    &&& 0 <= k.from < 64
    &&& 0 <= k.to < 64
    &&& has_square(p.of(p.side, kind), k.from)
    &&& reaches(p, kind, k.from, k.to)
    &&& if promotes(kind, k.to) {
        k.promote is Some && 2 <= k.promote.unwrap().index() - p.side.base() <= 5
    } else {
        k.promote is None
    }
    &&& key_safe(p, k)
}

/// `k` names a legal castling move of the side to move.
pub open spec fn is_castle_key(p: Position, k: MoveKey) -> bool {
    castle_key(p, CastleSide::King) == seq![k] || castle_key(p, CastleSide::Queen) == seq![k]
}

/// Every move that comes from `keys_at` is the move of a piece.
#[verifier::rlimit(40)]
proof fn lemma_keys_at_sound(p: Position, kind: int, from: int, to: int, j: int)
    requires
        0 <= kind < 6,
        0 <= from < 64,
        0 <= to < 64,
        has_square(p.of(p.side, kind), from),
        0 <= j < keys_at(p, kind, from, to).len(),
    ensures
        is_piece_key(p, keys_at(p, kind, from, to)[j]),
{
    let o = p.side.base();
    if promotes(kind, to) {
        let k1 = safe_key(p, kind, from, to, Some(BBPiece::at(o + 2)));
        let k2 = safe_key(p, kind, from, to, Some(BBPiece::at(o + 3)));
        let k3 = safe_key(p, kind, from, to, Some(BBPiece::at(o + 4)));
        let k4 = safe_key(p, kind, from, to, Some(BBPiece::at(o + 5)));
        assert(keys_at(p, kind, from, to) == k1 + k2 + k3 + k4);
        if j < k1.len() {
            assert(keys_at(p, kind, from, to)[j] == k1[j]);
        } else if j < k1.len() + k2.len() {
            assert(keys_at(p, kind, from, to)[j] == k2[j - k1.len()]);
        } else if j < k1.len() + k2.len() + k3.len() {
            assert(keys_at(p, kind, from, to)[j] == k3[j - k1.len() - k2.len()]);
        } else {
            assert(keys_at(p, kind, from, to)[j] == k4[j - k1.len() - k2.len() - k3.len()]);
        }
    }
}

/// Every move that comes from `keys_to` is the move of a piece.
proof fn lemma_keys_to_sound(p: Position, kind: int, from: int, hi: int, j: int)
    requires
        0 <= kind < 6,
        0 <= from < 64,
        0 <= hi <= 64,
        has_square(p.of(p.side, kind), from),
        0 <= j < keys_to(p, kind, from, hi).len(),
    ensures
        is_piece_key(p, keys_to(p, kind, from, hi)[j]),
    decreases hi,
{
    if hi > 0 {
        let a = keys_to(p, kind, from, hi - 1);
        if j < a.len() {
            lemma_keys_to_sound(p, kind, from, hi - 1, j);
        } else {
            lemma_keys_at_sound(p, kind, from, hi - 1, j - a.len());
        }
    }
}

/// Every move that comes from `keys_from` is the move of a piece.
proof fn lemma_keys_from_sound(p: Position, kind: int, hi: int, j: int)
    requires
        0 <= kind < 6,
        0 <= hi <= 64,
        0 <= j < keys_from(p, kind, hi).len(),
    ensures
        is_piece_key(p, keys_from(p, kind, hi)[j]),
    decreases hi,
{
    if hi > 0 {
        let a = keys_from(p, kind, hi - 1);
        if j < a.len() {
            lemma_keys_from_sound(p, kind, hi - 1, j);
        } else {
            lemma_keys_to_sound(p, kind, hi - 1, 64, j - a.len());
        }
    }
}

/// Every legal move is the move of a piece or a castling move.
pub proof fn lemma_legal_key_kinds(p: Position, i: int)
    requires
        0 <= i < legal_keys(p).len(),
    ensures
        is_piece_key(p, legal_keys(p)[i]) || is_castle_key(p, legal_keys(p)[i]),
{
    let k1 = keys_from(p, 1, 64);
    let k2 = keys_from(p, 2, 64);
    let k3 = keys_from(p, 3, 64);
    let k4 = keys_from(p, 4, 64);
    let k5 = keys_from(p, 5, 64);
    let k6 = keys_from(p, 0, 64);
    let c1 = castle_key(p, CastleSide::King);
    let c2 = castle_key(p, CastleSide::Queen);
    let all = legal_keys(p);
    let n1 = k1.len() as int;
    let n2 = n1 + k2.len();
    let n3 = n2 + k3.len();
    let n4 = n3 + k4.len();
    let n5 = n4 + k5.len();
    let n6 = n5 + k6.len();
    let n7 = n6 + c1.len();
    if i < n1 {
        assert(all[i] == k1[i]);
        lemma_keys_from_sound(p, 1, 64, i);
    } else if i < n2 {
        assert(all[i] == k2[i - n1]);
        lemma_keys_from_sound(p, 2, 64, i - n1);
    } else if i < n3 {
        assert(all[i] == k3[i - n2]);
        lemma_keys_from_sound(p, 3, 64, i - n2);
    } else if i < n4 {
        assert(all[i] == k4[i - n3]);
        lemma_keys_from_sound(p, 4, 64, i - n3);
    } else if i < n5 {
        assert(all[i] == k5[i - n4]);
        lemma_keys_from_sound(p, 5, 64, i - n4);
    } else if i < n6 {
        assert(all[i] == k6[i - n5]);
        lemma_keys_from_sound(p, 0, 64, i - n5);
    } else if i < n7 {
        assert(all[i] == c1[i - n6]);
        assert(c1 =~= seq![all[i]]);
    } else {
        assert(all[i] == c2[i - n7]);
        assert(c2 =~= seq![all[i]]);
    }
}


/// What toggling one board does to the squares of the boards.
pub proof fn lemma_tog_has(d: Seq<u64>, i: int, x: u64, j: int, s: int)
    requires
        0 <= i < d.len(),
        0 <= j < d.len(),
    ensures
        tog(d, i, x).len() == d.len(),
        has_square(tog(d, i, x)[j], s) == (has_square(d[j], s) != (j == i && has_square(x, s))),
{
    broadcast use group_has_square;

}

/// A king's step is no castling move: the two squares of a castling king are two
/// files apart.
pub proof fn lemma_step_is_no_castle(from: int, to: int)
    requires
        0 <= from < 64,
        0 <= to < 64,
        king_step(from, to),
    ensures
        castle_of_king_move(square_bit(from) | square_bit(to)) is None,
{
    let f = from as u64;
    let t = to as u64;
    let m = (1u64 << f) | (1u64 << t);
    assert((m == 0x50 ==> (f == 4 && t == 6) || (f == 6 && t == 4)) && (m == 0x14 ==> (f == 4 && t
        == 2) || (f == 2 && t == 4)) && (m == 0x5000000000000000 ==> (f == 60 && t == 62) || (f
        == 62 && t == 60)) && (m == 0x1400000000000000 ==> (f == 60 && t == 58) || (f == 58 && t
        == 60))) by (bit_vector)
        requires
            f < 64,
            t < 64,
            m == (1u64 << f) | (1u64 << t),
    ;
}

/// In a position whose boards fit together, the piece of a side that `side_piece_on`
/// finds on a single square is the one whose board holds the square.
pub proof fn lemma_side_piece(p: Position, side: Side, s: int)
    requires
        consistent(p),
        0 <= s < 64,
    ensures
        match p.side_piece_on(side, square_bit(s)) {
            Some(pc) => 0 <= pc.index() - side.base() < 6 && has_square(p.boards[pc.index()], s),
            None => side_holders(p, side, s) == 0,
        },
        (
            square_bit(s) & p.boards[side.base() + 6] != 0) == has_square(p.boards[side.base() + 6],
            s,
        ),
{
    let o = side.base();
    lemma_mask_test(p.boards[o], s);
    lemma_mask_test(p.boards[o + 1], s);
    lemma_mask_test(p.boards[o + 2], s);
    lemma_mask_test(p.boards[o + 3], s);
    lemma_mask_test(p.boards[o + 4], s);
    lemma_mask_test(p.boards[o + 5], s);
    lemma_mask_test(p.boards[o + 6], s);
    lemma_and_commutes(p.boards[o], square_bit(s));
    lemma_and_commutes(p.boards[o + 1], square_bit(s));
    lemma_and_commutes(p.boards[o + 2], square_bit(s));
    lemma_and_commutes(p.boards[o + 3], square_bit(s));
    lemma_and_commutes(p.boards[o + 4], square_bit(s));
    lemma_and_commutes(p.boards[o + 5], square_bit(s));
    lemma_and_commutes(p.boards[o + 6], square_bit(s));
    assert(square_consistent(p, s));
}

/// The intersection of two boards does not depend on their order.
pub proof fn lemma_and_commutes(a: u64, b: u64)
    ensures
        a & b == b & a,
{
    assert(a & b == b & a) by (bit_vector);
}

/// Whether the board at place `j` holds the square `s` after the move of a piece
/// that `k` names: the square that the piece leaves is empty, the square that it
/// reaches holds the piece, or what a pawn is promoted to, and nothing else, the
/// pawn that is taken in passing is gone, and every other square is as it was.
pub open spec fn holds_after(p: Position, k: MoveKey, j: int, s: int) -> bool {
    let own = p.side.base();
    let opp = p.side.other().base();
    let dest = match k.promote {
        Some(pp) => pp.index(),
        None => k.piece.index(),
    };
    let behind = if p.side == Side::White {
        k.to - 8
    } else {
        k.to + 8
    };
    if s == k.from {
        false
    } else if s == k.to {
        j == dest || j == own + 6
    } else if k.piece.index() == own + 1 && has_square(p.boards[opp + 8], k.to) && s == behind
        && has_square(p.boards[opp + 1], s) && (j == opp + 1 || j == opp + 6) {
        false
    } else {
        has_square(p.boards[j], s)
    }
}

/// The position after the move named `k`.
pub open spec fn after_key(p: Position, k: MoveKey) -> Position {
    p.moved(key_deltas(p, k))
}

/// What the boards of the pieces hold after the move of a piece.
pub proof fn lemma_piece_move_boards(p: Position, k: MoveKey, j: int, s: int)
    requires
        consistent(p),
        is_piece_key(p, k),
        0 <= j < 18,
        j != 7 && j != 8 && j != 16 && j != 17,
        0 <= s < 64,
    ensures
        has_square(after_key(p, k).boards[j], s) == holds_after(p, k, j, s),
{
    broadcast use group_has_square;

    let own = p.side.base();
    let opp = p.side.other().base();
    let r = k.piece.index();
    let kind = r - own;
    let f = square_bit(k.from);
    let t = square_bit(k.to);
    lemma_at_index(k.piece);
    lemma_side_piece(p, p.side.other(), k.to);
    lemma_side_piece(p, p.side, k.to);
    lemma_side_piece(p, p.side, k.from);
    assert(square_consistent(p, s));
    assert(square_consistent(p, k.from));
    assert(square_consistent(p, k.to));
    let d0 = Seq::new(18, |i: int| 0u64);
    let d1 = match k.promote {
        Some(pp) => tog(tog(d0, r, f), pp.index(), t),
        None => tog(d0, r, f | t),
    };
    match k.promote {
        Some(pp) => {
            lemma_at_index(pp);
            lemma_tog_has(d0, r, f, j, s);
            lemma_tog_has(tog(d0, r, f), pp.index(), t, j, s);
        },
        None => {
            lemma_tog_has(d0, r, f | t, j, s);
        },
    }
    let dest = match k.promote {
        Some(pp) => pp.index(),
        None => r,
    };
    assert(has_square(d1[j], s) == ((j == r && s == k.from) || (j == dest && s == k.to)));
    let d2 = tog(d1, own + 6, f | t);
    lemma_tog_has(d1, own + 6, f | t, j, s);
    let d3 = if t & p.boards[opp + 6] != 0 {
        match p.side_piece_on(p.side.other(), t) {
            Some(c) => tog(tog(d2, opp + 6, t), c.index(), t),
            None => tog(d2, opp + 6, t),
        }
    } else {
        d2
    };
    if t & p.boards[opp + 6] != 0 {
        lemma_tog_has(d2, opp + 6, t, j, s);
        match p.side_piece_on(p.side.other(), t) {
            Some(c) => {
                lemma_at_index(c);
                lemma_tog_has(tog(d2, opp + 6, t), c.index(), t, j, s);
            },
            None => {},
        }
    }
    assert(d3.len() == 18);
    let passing = r == own + 1 && t & p.boards[opp + 8] != 0;
    lemma_mask_test(p.boards[opp + 8], k.to);
    lemma_and_commutes(p.boards[opp + 8], t);
    let taken = square_behind(p.side, t) & p.boards[opp + 1];
    let d4 = if passing {
        tog(tog(d3, opp + 1, taken), opp + 6, taken)
    } else {
        d3
    };
    if passing {
        lemma_tog_has(d3, opp + 1, taken, j, s);
        lemma_tog_has(tog(d3, opp + 1, taken), opp + 6, taken, j, s);
    }
    assert(d4.len() == 18);
    if kind == 0 {
        lemma_step_is_no_castle(k.from, k.to);
    }
    let d5 = d4;
    let mark = if r == own + 1 {
        skipped_square(p.side, f, t)
    } else {
        0
    };
    let d6 = tog(tog(d5, opp + 8, p.boards[opp + 8]), own + 8, p.boards[own + 8] ^ mark);
    let d7 = tog(
        d6,
        7,
        p.boards[7] ^ rights_after(
            Side::White,
            p.boards[0] ^ d6[0],
            p.boards[2] ^ d6[2],
            p.boards[7],
        ),
    );
    let d8 = tog(
        d7,
        16,
        p.boards[16] ^ rights_after(
            Side::Black,
            p.boards[9] ^ d7[9],
            p.boards[11] ^ d7[11],
            p.boards[16],
        ),
    );
    assert(key_deltas(p, k) == d8);
    assert(d8[j] == d4[j]);
    assert(after_key(p, k).boards[j] == p.boards[j] ^ d4[j]);
}


/// A piece that reaches a square attacks it, unless it is a pawn that steps
/// forward to an empty square.
pub proof fn lemma_reach_attacks(p: Position, kind: int, from: int, to: int)
    requires
        0 <= kind < 6,
        has_square(p.of(p.side, kind), from),
        reaches(p, kind, from, to),
        has_square(p.occupied(), to),
    ensures
        attacks(p, p.side, from, to),
{
}

/// No legal move of a piece takes the king of the other side: the king would have
/// been in check with the other side to move.
pub proof fn lemma_king_is_not_taken(p: Position, k: MoveKey)
    requires
        legal_position(p),
        is_piece_key(p, k),
    ensures
        !has_square(p.of(p.side.other(), 0), k.to),
{
    broadcast use group_has_square;

    let king = p.of(p.side.other(), 0);
    let kind = k.piece.index() - p.side.base();
    if has_square(king, k.to) {
        lemma_count_single(king);
        lemma_lowest_square(king);
        assert(has_square(square_bit(lowest_square(king)), k.to));
        assert(lowest_square(king) == k.to);
        assert(square_consistent(p, k.to));
        assert(has_square(p.occupied(), k.to));
        lemma_reach_attacks(p, kind, k.from, k.to);
        assert(attacked(p, k.to, p.side));
        assert(king_in_check(p, p.side.other()));
    }
}

/// A board that holds exactly one square counts one square.
pub proof fn lemma_only_square(b: u64, s: int)
    requires
        0 <= s < 64,
        forall|t: int| 0 <= t < 64 ==> has_square(b, t) == (t == s),
    ensures
        b == square_bit(s),
        square_count(b) == 1,
{
    broadcast use group_has_square;

    lemma_board_ext(b, square_bit(s));
    lemma_lowest_square(b);
    lemma_count_single(b);
    assert(has_square(b, s));
    assert(has_square(b, lowest_square(b)));
}

/// After the move of a piece the boards fit together, and each side still has its
/// one king.
pub proof fn lemma_piece_move_consistent(p: Position, k: MoveKey)
    requires
        legal_position(p),
        is_piece_key(p, k),
    ensures
        consistent(after_key(p, k)),
        square_count(after_key(p, k).boards[0]) == 1,
        square_count(after_key(p, k).boards[9]) == 1,
{
    broadcast use group_has_square;

    let q = after_key(p, k);
    let own = p.side.base();
    let opp = p.side.other().base();
    lemma_at_index(k.piece);
    match k.promote {
        Some(pp) => {
            lemma_at_index(pp);
        },
        None => {},
    }
    assert(q.boards.len() == 18);
    assert forall|s: int| 0 <= s < 64 implies #[trigger] square_consistent(q, s) by {
        lemma_squares_after(p, k, s);
        assert(square_consistent(p, s));
        assert(square_consistent(p, k.from));
        assert(square_consistent(p, k.to));
    }
    lemma_king_is_not_taken(p, k);
    let wk = p.boards[0];
    let bk = p.boards[9];
    lemma_count_single(wk);
    lemma_count_single(bk);
    lemma_lowest_square(wk);
    lemma_lowest_square(bk);
    let w = lowest_square(wk);
    let b = lowest_square(bk);
    let w2 = if k.piece.index() == 0 {
        k.to
    } else {
        w
    };
    let b2 = if k.piece.index() == 9 {
        k.to
    } else {
        b
    };
    assert forall|t: int| 0 <= t < 64 implies has_square(q.boards[0], t) == (t == w2) by {
        lemma_piece_move_boards(p, k, 0, t);
        assert(has_square(square_bit(w), t) == (t == w));
        assert(square_consistent(p, t));
        assert(square_consistent(p, k.from));
        assert(square_consistent(p, k.to));
    }
    assert forall|t: int| 0 <= t < 64 implies has_square(q.boards[9], t) == (t == b2) by {
        lemma_piece_move_boards(p, k, 9, t);
        assert(has_square(square_bit(b), t) == (t == b));
        assert(square_consistent(p, t));
        assert(square_consistent(p, k.from));
        assert(square_consistent(p, k.to));
    }
    lemma_only_square(q.boards[0], w2);
    lemma_only_square(q.boards[9], b2);
}

/// What all the boards of the pieces hold on one square after the move of a piece.
proof fn lemma_squares_after(p: Position, k: MoveKey, s: int)
    requires
        consistent(p),
        is_piece_key(p, k),
        0 <= s < 64,
    ensures
        forall|j: int|
            0 <= j < 18 && j != 7 && j != 8 && j != 16 && j != 17 ==> has_square(
                #[trigger] after_key(p, k).boards[j],
                s,
            ) == holds_after(p, k, j, s),
{
    assert forall|j: int| 0 <= j < 18 && j != 7 && j != 8 && j != 16 && j != 17 implies has_square(
        #[trigger] after_key(p, k).boards[j],
        s,
    ) == holds_after(p, k, j, s) by {
        lemma_piece_move_boards(p, k, j, s);
    }
}


/// The move named `k` is that of a piece of the side to move, with a promotion, if
/// any, to a piece of that side: it toggles the boards of the marks and of the
/// rights only where the marks and the rights change.
pub open spec fn plain_key(p: Position, k: MoveKey) -> bool {
    &&& 0 <= k.piece.index() - p.side.base() < 6
    &&& 0 <= k.from < 64
    &&& 0 <= k.to < 64
    &&& k.promote matches Some(pp) ==> 2 <= pp.index() - p.side.base() <= 5
}

/// What a move toggles on the boards of the marks and of the rights: both marks are
/// wiped out and the square that a pawn skips is marked, and the rights are those
/// that are left after the move.
pub proof fn lemma_marks_and_rights(p: Position, k: MoveKey)
    requires
        p.boards.len() == 18,
        plain_key(p, k),
    ensures
        ({
            let q = after_key(p, k);
            let own = p.side.base();
            let opp = p.side.other().base();
            &&& q.boards.len() == 18
            &&& q.boards[opp + 8] == 0
            &&& q.boards[own + 8] == if k.piece.index() == own + 1 {
                skipped_square(p.side, square_bit(k.from), square_bit(k.to))
            } else {
                0
            }
            &&& q.boards[7] == rights_after(Side::White, q.boards[0], q.boards[2], p.boards[7])
            &&& q.boards[16] == rights_after(Side::Black, q.boards[9], q.boards[11], p.boards[16])
        }),
{
    let own = p.side.base();
    let opp = p.side.other().base();
    let r = k.piece.index();
    let f = square_bit(k.from);
    let t = square_bit(k.to);
    lemma_at_index(k.piece);
    let d0 = Seq::new(18, |i: int| 0u64);
    let d1 = match k.promote {
        Some(pp) => tog(tog(d0, r, f), pp.index(), t),
        None => tog(d0, r, f | t),
    };
    let d2 = tog(d1, own + 6, f | t);
    let d3 = if t & p.boards[opp + 6] != 0 {
        match p.side_piece_on(p.side.other(), t) {
            Some(c) => tog(tog(d2, opp + 6, t), c.index(), t),
            None => tog(d2, opp + 6, t),
        }
    } else {
        d2
    };
    assert(d3.len() == 18 && d3[7] == 0 && d3[8] == 0 && d3[16] == 0 && d3[17] == 0);
    let d4 = if r == own + 1 && t & p.boards[opp + 8] != 0 {
        let taken = square_behind(p.side, t) & p.boards[opp + 1];
        tog(tog(d3, opp + 1, taken), opp + 6, taken)
    } else {
        d3
    };
    let d5 = if r == own && castle_of_king_move(f | t) is Some && castle_of_king_move(
        f | t,
    ).unwrap().0 == p.side {
        let tt = castle_template(p.side, castle_of_king_move(f | t).unwrap().1);
        tog(tog(d4, own + 2, tt.5), own + 6, tt.5)
    } else {
        d4
    };
    assert(d5.len() == 18 && d5[7] == 0 && d5[8] == 0 && d5[16] == 0 && d5[17] == 0);
    let mark = if r == own + 1 {
        skipped_square(p.side, f, t)
    } else {
        0
    };
    let d6 = tog(tog(d5, opp + 8, p.boards[opp + 8]), own + 8, p.boards[own + 8] ^ mark);
    let ra = rights_after(Side::White, p.boards[0] ^ d6[0], p.boards[2] ^ d6[2], p.boards[7]);
    let d7 = tog(d6, 7, p.boards[7] ^ ra);
    let rb = rights_after(Side::Black, p.boards[9] ^ d7[9], p.boards[11] ^ d7[11], p.boards[16]);
    let d8 = tog(d7, 16, p.boards[16] ^ rb);
    assert(key_deltas(p, k) == d8);
    let q = after_key(p, k);
    lemma_xor_back(p.boards[opp + 8], 0);
    lemma_xor_back(p.boards[own + 8], mark);
    lemma_xor_back(p.boards[7], ra);
    lemma_xor_back(p.boards[16], rb);
    assert(d8[opp + 8] == 0 ^ p.boards[opp + 8]);
    assert(d8[own + 8] == 0 ^ (p.boards[own + 8] ^ mark));
    assert(d8[7] == 0 ^ (p.boards[7] ^ ra));
    assert(d8[16] == 0 ^ (p.boards[16] ^ rb));
    assert(q.boards[0] == p.boards[0] ^ d6[0]);
    assert(q.boards[2] == p.boards[2] ^ d6[2]);
    assert(q.boards[9] == p.boards[9] ^ d7[9]);
    assert(q.boards[11] == p.boards[11] ^ d7[11]);
}

/// Toggling a board by what makes it differ from another gives that other board.
pub proof fn lemma_xor_back(a: u64, b: u64)
    ensures
        a ^ (0 ^ (a ^ b)) == b,
        a ^ (0 ^ a) == 0,
{
    assert(a ^ (0 ^ (a ^ b)) == b && a ^ (0 ^ a) == 0) by (bit_vector);
}

/// The square that a pawn skips is one square on the third rank of its side, if it
/// is any.
pub proof fn lemma_skipped_square(side: Side, from: int, to: int)
    requires
        0 <= from < 64,
        0 <= to < 64,
    ensures
        mark_ok(side, skipped_square(side, square_bit(from), square_bit(to))),
{
    let i = from as u64;
    let f = 1u64 << i;
    assert((f & 0xff00 != 0 ==> 8 <= i < 16 && f << 8 == 1u64 << ((i + 8) as u64)) && (f
        & 0x00ff000000000000 != 0 ==> 48 <= i < 56 && f >> 8 == 1u64 << ((i - 8) as u64)))
        by (bit_vector)
        requires
            i < 64,
            f == 1u64 << i,
    ;
    let m = skipped_square(side, square_bit(from), square_bit(to));
    if m != 0 {
        let s = if side == Side::White {
            from + 8
        } else {
            from - 8
        };
        assert(m == square_bit(s));
    }
}

/// The rights that are left are rights that the king and the rooks still allow.
pub proof fn lemma_rights_left(p: Position, side: Side, rights: u64)
    requires
        p.boards.len() == 18,
        p.boards[side.base() + 7] == rights_after(side, p.of(side, 0), p.of(side, 2), rights),
    ensures
        rights_ok(p, side),
        p.boards[side.base() + 7] <= 3,
{
    let king = p.of(side, 0);
    let rook = p.of(side, 2);
    let k = castle_template(side, CastleSide::King);
    let q = castle_template(side, CastleSide::Queen);
    let keep = rights_board(rook & k.1 != 0, rook & q.1 != 0);
    let out = rights & keep;
    assert(((out & 1 > 0) ==> (keep == 1 || keep == 3)) && ((out & 2 > 0) ==> (keep == 2 || keep
        == 3)) && out <= 3 && (0u64 & 1 == 0) && (0u64 & 2 == 0) && (1u64 << 4 == 0x10) && (1u64 << 7 == 0x80)
        && (1u64 << 0 == 0x01) && (1u64 << 60 == 0x1000000000000000) && (1u64 << 63
        == 0x8000000000000000) && (1u64 << 56 == 0x0100000000000000)) by (bit_vector)
        requires
            out == rights & keep,
            keep <= 3,
    ;
    lemma_mask_test(king, 4);
    lemma_mask_test(king, 60);
    lemma_mask_test(rook, 7);
    lemma_mask_test(rook, 0);
    lemma_mask_test(rook, 63);
    lemma_mask_test(rook, 56);
}

/// After the move of a piece in a position of a game, the position is again one of
/// a game.
pub proof fn lemma_piece_move_legal(p: Position, k: MoveKey)
    requires
        legal_position(p),
        is_piece_key(p, k),
    ensures
        legal_position(after_key(p, k)),
{
    let q = after_key(p, k);
    lemma_piece_move_consistent(p, k);
    lemma_marks_and_rights(p, k);
    lemma_skipped_square(p.side, k.from, k.to);
    lemma_rights_left(q, Side::White, p.boards[7]);
    lemma_rights_left(q, Side::Black, p.boards[16]);
    assert(mark_ok(p.side, 0));
}


} // verus!
