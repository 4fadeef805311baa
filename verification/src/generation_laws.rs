//! That the moves which are generated are exactly the legal moves.
use crate::bboard::has_square;
use crate::move_generator::{
    MoveKey, castle_key, key_safe, keys_at, keys_from, keys_to, legal_keys, promotes, reaches,
    safe_key,
};
use crate::position_laws::{is_castle_key, is_piece_key, lemma_legal_key_kinds};
use crate::state::{BBPiece, CastleSide, Position, lemma_at_index};
use vstd::prelude::*;

verus! {

/// What one list followed by another holds is what one of the two holds.
pub proof fn lemma_contains_either(a: Seq<MoveKey>, b: Seq<MoveKey>, k: MoveKey)
    ensures
        (a + b).contains(k) == (a.contains(k) || b.contains(k)),
{
    if a.contains(k) {
        let i = choose|i: int| 0 <= i < a.len() && a[i] == k;
        assert((a + b)[i] == k);
    }
    if b.contains(k) {
        let i = choose|i: int| 0 <= i < b.len() && b[i] == k;
        assert((a + b)[a.len() + i] == k);
    }
    if (a + b).contains(k) {
        let i = choose|i: int| 0 <= i < (a + b).len() && (a + b)[i] == k;
        if i < a.len() {
            assert(a[i] == k);
        } else {
            assert(b[i - a.len()] == k);
        }
    }
}

/// The move of a piece that is legal is among the moves of that piece to the
/// square that it reaches.
proof fn lemma_keys_at_complete(p: Position, k: MoveKey)
    requires
        is_piece_key(p, k),
    ensures
        keys_at(p, k.piece.index() - p.side.base(), k.from, k.to).contains(k),
{
    let o = p.side.base();
    let kind = k.piece.index() - o;
    lemma_at_index(k.piece);
    if promotes(kind, k.to) {
        let pp = k.promote.unwrap();
        lemma_at_index(pp);
        let k1 = safe_key(p, kind, k.from, k.to, Some(BBPiece::at(o + 2)));
        let k2 = safe_key(p, kind, k.from, k.to, Some(BBPiece::at(o + 3)));
        let k3 = safe_key(p, kind, k.from, k.to, Some(BBPiece::at(o + 4)));
        let k4 = safe_key(p, kind, k.from, k.to, Some(BBPiece::at(o + 5)));
        let mine = safe_key(p, kind, k.from, k.to, k.promote);
        assert(mine[0] == k);
        assert(mine.contains(k));
        assert(mine == k1 || mine == k2 || mine == k3 || mine == k4);
        lemma_contains_either(k1, k2, k);
        lemma_contains_either(k1 + k2, k3, k);
        lemma_contains_either(k1 + k2 + k3, k4, k);
    } else {
        let mine = safe_key(p, kind, k.from, k.to, None);
        assert(mine[0] == k);
    }
}

/// The moves to the squares below `hi` hold the moves to each of those squares.
proof fn lemma_keys_to_complete(p: Position, kind: int, from: int, to: int, hi: int, k: MoveKey)
    requires
        0 <= to < hi,
        keys_at(p, kind, from, to).contains(k),
    ensures
        keys_to(p, kind, from, hi).contains(k),
    decreases hi,
{
    lemma_contains_either(keys_to(p, kind, from, hi - 1), keys_at(p, kind, from, hi - 1), k);
    if to < hi - 1 {
        lemma_keys_to_complete(p, kind, from, to, hi - 1, k);
    }
}

/// The moves of the pieces on the squares below `hi` hold the moves of each of
/// those pieces.
proof fn lemma_keys_from_complete(p: Position, kind: int, from: int, hi: int, k: MoveKey)
    requires
        0 <= from < hi,
        has_square(p.of(p.side, kind), from),
        keys_to(p, kind, from, 64).contains(k),
    ensures
        keys_from(p, kind, hi).contains(k),
    decreases hi,
{
    if from < hi - 1 {
        lemma_keys_from_complete(p, kind, from, hi - 1, k);
        if has_square(p.of(p.side, kind), hi - 1) {
            lemma_contains_either(keys_from(p, kind, hi - 1), keys_to(p, kind, hi - 1, 64), k);
        }
    } else {
        lemma_contains_either(keys_from(p, kind, hi - 1), keys_to(p, kind, hi - 1, 64), k);
    }
}

/// The legal moves hold what any of their eight parts holds.
proof fn lemma_legal_keys_parts(p: Position, k: MoveKey)
    ensures
        legal_keys(p).contains(k) == (keys_from(p, 1, 64).contains(k) || keys_from(
            p,
            2,
            64,
        ).contains(k) || keys_from(p, 3, 64).contains(k) || keys_from(p, 4, 64).contains(k)
            || keys_from(p, 5, 64).contains(k) || keys_from(p, 0, 64).contains(k) || castle_key(
            p,
            CastleSide::King,
        ).contains(k) || castle_key(p, CastleSide::Queen).contains(k)),
{
    let k1 = keys_from(p, 1, 64);
    let k2 = keys_from(p, 2, 64);
    let k3 = keys_from(p, 3, 64);
    let k4 = keys_from(p, 4, 64);
    let k5 = keys_from(p, 5, 64);
    let k6 = keys_from(p, 0, 64);
    let c1 = castle_key(p, CastleSide::King);
    let c2 = castle_key(p, CastleSide::Queen);
    lemma_contains_either(k1, k2, k);
    lemma_contains_either(k1 + k2, k3, k);
    lemma_contains_either(k1 + k2 + k3, k4, k);
    lemma_contains_either(k1 + k2 + k3 + k4, k5, k);
    lemma_contains_either(k1 + k2 + k3 + k4 + k5, k6, k);
    lemma_contains_either(k1 + k2 + k3 + k4 + k5 + k6, c1, k);
    lemma_contains_either(k1 + k2 + k3 + k4 + k5 + k6 + c1, c2, k);
}

/// The generator gives exactly the legal moves: a move is among the moves that
/// `generate_moves` adds exactly when it is the move of a piece of the side to move
/// to a square that the piece reaches, with a promotion exactly for a pawn that
/// reaches the last rank, which leaves the mover's king safe, or a castling move
/// that is legal.
pub proof fn lemma_generated_moves_are_the_legal_moves(p: Position, k: MoveKey)
    ensures
        legal_keys(p).contains(k) == (is_piece_key(p, k) || is_castle_key(p, k)),
{
    lemma_legal_keys_parts(p, k);
    if legal_keys(p).contains(k) {
        let i = choose|i: int| 0 <= i < legal_keys(p).len() && legal_keys(p)[i] == k;
        lemma_legal_key_kinds(p, i);
    }
    if is_piece_key(p, k) {
        let kind = k.piece.index() - p.side.base();
        lemma_keys_at_complete(p, k);
        lemma_keys_to_complete(p, kind, k.from, k.to, 64, k);
        lemma_keys_from_complete(p, kind, k.from, 64, k);
    }
    if is_castle_key(p, k) {
        if castle_key(p, CastleSide::King) == seq![k] {
            assert(castle_key(p, CastleSide::King)[0] == k);
        } else {
            assert(castle_key(p, CastleSide::Queen)[0] == k);
        }
    }
}

} // verus!
