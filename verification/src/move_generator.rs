//! The legal moves of a position: which squares are attacked, which squares each
//! piece reaches, and which moves leave the mover's king safe.
use crate::bboard::{
    BBoard, bb_to_coord, board_name, group_has_square, has_square, last_bit, lemma_lowest_square,
    lowest_square, remove_last_bit, square_bit, square_count, square_index,
};
use crate::game_setup::{ChessMove, castle_of_king_move, castle_template, move_deltas};
use crate::magic::{Magic, bishop_sees, rook_sees};
use crate::piece_moves::{
    PieceMoveProvider, black_pawn_attack, black_pawn_step, holds_targets, king_step, knight_step,
    rank_of, white_pawn_attack, white_pawn_step,
};
use crate::state::{BBPiece, CastleSide, ChessState, Position, Side};
use vstd::prelude::*;
use vstd::string::StringExecFns;

verus! {

/// A pawn of `by` on `p` attacks `s`.
pub open spec fn pawn_attack(by: Side, p: int, s: int) -> bool {
    match by {
        Side::White => white_pawn_attack(p, s),
        Side::Black => black_pawn_attack(p, s),
    }
}

/// A pawn of `by` on `p` may be pushed to `s`, were the squares empty.
pub open spec fn pawn_step(by: Side, p: int, s: int) -> bool {
    match by {
        Side::White => white_pawn_step(p, s),
        Side::Black => black_pawn_step(p, s),
    }
}

/// A piece of `by` stands on `p` and attacks `s` from there.
pub open spec fn attacks(st: Position, by: Side, p: int, s: int) -> bool {
    let o = by.base();
    let occ = st.occupied();
    ||| has_square(st.boards[o + 1], p) && pawn_attack(by, p, s)
    ||| has_square(st.boards[o + 3], p) && knight_step(p, s)
    ||| has_square(st.boards[o + 2], p) && rook_sees(occ, p, s)
    ||| has_square(st.boards[o + 4], p) && bishop_sees(occ, p, s)
    ||| has_square(st.boards[o + 5], p) && (rook_sees(occ, p, s) || bishop_sees(occ, p, s))
    ||| has_square(st.boards[o], p) && king_step(p, s)
}

/// Some piece of `by` attacks the square `s`.
pub open spec fn attacked(st: Position, s: int, by: Side) -> bool {
    exists|p: int| 0 <= p < 64 && #[trigger] attacks(st, by, p, s)
}

/// Some piece of `by` attacks some square of `b`.
pub open spec fn any_attacked(st: Position, b: u64, by: Side) -> bool {
    exists|s: int| has_square(b, s) && #[trigger] attacked(st, s, by)
}

/// The king of `side` is attacked. Where a side has several kings, the one on the
/// lowest square counts; a side without a king is never in check.
pub open spec fn king_in_check(st: Position, side: Side) -> bool {
    st.of(side, 0) != 0 && attacked(st, lowest_square(st.of(side, 0)), side.other())
}

/// What names a move in a position: the piece that moves, the squares that it
/// leaves and reaches, and what a pawn is promoted to.
pub ghost struct MoveKey {
    pub piece: BBPiece,
    pub from: int,
    pub to: int,
    pub promote: Option<BBPiece>,
}

/// What the move named `k` toggles in the position `st`.
pub open spec fn key_deltas(st: Position, k: MoveKey) -> Seq<u64> {
    move_deltas(st, k.piece, square_bit(k.from), square_bit(k.to), k.promote)
}

/// The move named `k` does not leave the mover's king attacked.
pub open spec fn key_safe(st: Position, k: MoveKey) -> bool {
    !king_in_check(st.moved(key_deltas(st, k)), st.side)
}

/// `m` is the move named `k` in the position `st`.
pub open spec fn is_key_move(st: Position, k: MoveKey, m: ChessMove) -> bool {
    ChessMove::of_position(st, k.piece, square_bit(k.from), square_bit(k.to), k.promote, m)
}

/// The list `after` is the list `before` followed by the moves that `keys` names,
/// in the same order.
pub open spec fn extends_by(
    st: Position,
    before: Seq<ChessMove>,
    after: Seq<ChessMove>,
    keys: Seq<MoveKey>,
) -> bool {
    &&& after.len() == before.len() + keys.len()
    &&& forall|i: int| 0 <= i < before.len() ==> after[i] == before[i]
    &&& forall|j: int|
        0 <= j < keys.len() ==> is_key_move(st, keys[j], #[trigger] after[before.len() + j])
}

/// A double step of a pawn from `from` to `to` is blocked by a piece on the square
/// between.
pub open spec fn step_blocked(st: Position, from: int, to: int) -> bool {
    match st.side {
        Side::White => to == from + 16 && has_square(st.occupied(), from + 8),
        Side::Black => to == from - 16 && has_square(st.occupied(), from - 8),
    }
}

/// A piece of the side to move, of the kind at place `kind` among a side's boards,
/// would go from `from` to `to` if it stood on `from`, the king's safety aside: `to`
/// holds no piece of its own side, and
/// - a pawn steps forward to an empty square, two squares only over an empty one, or
///   attacks a square that holds an enemy piece or is marked as skipped by an
///   enemy pawn;
/// - a knight or a king makes its step;
/// - a rook, a bishop or a queen sees the square over empty squares.
pub open spec fn reaches(st: Position, kind: int, from: int, to: int) -> bool {
    let side = st.side;
    let occ = st.occupied();
    !has_square(st.of(side, 6), to) && if kind == 1 {
        (pawn_step(side, from, to) && !has_square(occ, to) && !step_blocked(st, from, to)) || (
        pawn_attack(side, from, to) && (has_square(st.of(side.other(), 6), to) || has_square(
            st.of(side.other(), 8),
            to,
        )))
    } else if kind == 2 {
        rook_sees(occ, from, to)
    } else if kind == 3 {
        knight_step(from, to)
    } else if kind == 4 {
        bishop_sees(occ, from, to)
    } else if kind == 5 {
        rook_sees(occ, from, to) || bishop_sees(occ, from, to)
    } else {
        king_step(from, to)
    }
}

/// The move named by the arguments if it leaves the mover's king safe, and nothing
/// otherwise.
pub open spec fn safe_key(
    st: Position,
    kind: int,
    from: int,
    to: int,
    promote: Option<BBPiece>,
) -> Seq<MoveKey> {
    let k = MoveKey { piece: BBPiece::at(st.side.base() + kind), from, to, promote };
    if key_safe(st, k) {
        seq![k]
    } else {
        Seq::empty()
    }
}

/// Whether a pawn that reaches `to` is promoted.
pub open spec fn promotes(kind: int, to: int) -> bool {
    kind == 1 && (rank_of(to) == 0 || rank_of(to) == 7)
}

/// The legal moves of a piece of kind `kind` from `from` to `to`: none if the
/// piece does not reach `to`; for a pawn that reaches the last rank one for each
/// piece that it may be promoted to (rook, knight, bishop, queen), as far as they
/// leave the king safe; otherwise the one move, if it leaves the king safe.
pub open spec fn keys_at(st: Position, kind: int, from: int, to: int) -> Seq<MoveKey> {
    let o = st.side.base();
    if !reaches(st, kind, from, to) {
        Seq::empty()
    } else if promotes(kind, to) {
        safe_key(st, kind, from, to, Some(BBPiece::at(o + 2))) + safe_key(
            st,
            kind,
            from,
            to,
            Some(BBPiece::at(o + 3)),
        ) + safe_key(st, kind, from, to, Some(BBPiece::at(o + 4))) + safe_key(
            st,
            kind,
            from,
            to,
            Some(BBPiece::at(o + 5)),
        )
    } else {
        safe_key(st, kind, from, to, None)
    }
}

/// The legal moves of a piece of kind `kind` from `from` to the squares below `hi`,
/// by rising square.
pub open spec fn keys_to(st: Position, kind: int, from: int, hi: int) -> Seq<MoveKey>
    decreases hi,
{
    if hi <= 0 {
        Seq::empty()
    } else {
        keys_to(st, kind, from, hi - 1) + keys_at(st, kind, from, hi - 1)
    }
}

/// The legal moves of the pieces of kind `kind` of the side to move that stand on
/// the squares below `hi`, by rising square of the piece.
pub open spec fn keys_from(st: Position, kind: int, hi: int) -> Seq<MoveKey>
    decreases hi,
{
    if hi <= 0 {
        Seq::empty()
    } else if has_square(st.of(st.side, kind), hi - 1) {
        keys_from(st, kind, hi - 1) + keys_to(st, kind, hi - 1, 64)
    } else {
        keys_from(st, kind, hi - 1)
    }
}

/// The squares that the king of `side` leaves and reaches in castling on `wing`.
pub open spec fn king_squares(side: Side, wing: CastleSide) -> (int, int) {
    match (side, wing) {
        (Side::White, CastleSide::King) => (4, 6),
        (Side::White, CastleSide::Queen) => (4, 2),
        (Side::Black, CastleSide::King) => (60, 62),
        (Side::Black, CastleSide::Queen) => (60, 58),
    }
}

/// The castling move of the side to move on `wing`, if it is legal: the right is
/// there, the squares between king and rook are empty, and the king neither stands
/// on, passes nor reaches a square that the other side attacks.
pub open spec fn castle_key(st: Position, wing: CastleSide) -> Seq<MoveKey> {
    let t = castle_template(st.side, wing);
    let right = if wing == CastleSide::King {
        st.castle_rights(st.side).0
    } else {
        st.castle_rights(st.side).1
    };
    if right && t.2 & st.occupied() == 0 && !any_attacked(st, t.3, st.side.other()) {
        seq![
            MoveKey {
                piece: BBPiece::at(st.side.base()),
                from: king_squares(st.side, wing).0,
                to: king_squares(st.side, wing).1,
                promote: None,
            },
        ]
    } else {
        Seq::empty()
    }
}

/// The legal moves of the position `st`, in the order in which they are generated:
/// those of the pawns, the rooks, the knights, the bishops, the queens and the king,
/// then castling on the king's wing and on the queen's.
pub open spec fn legal_keys(st: Position) -> Seq<MoveKey> {
    keys_from(st, 1, 64) + keys_from(st, 2, 64) + keys_from(st, 3, 64) + keys_from(st, 4, 64)
        + keys_from(st, 5, 64) + keys_from(st, 0, 64) + castle_key(st, CastleSide::King)
        + castle_key(st, CastleSide::Queen)
}

/// Extending a list twice extends it by the two lists of moves, one after the
/// other.
pub proof fn lemma_extends_twice(
    st: Position,
    a: Seq<ChessMove>,
    b: Seq<ChessMove>,
    c: Seq<ChessMove>,
    k1: Seq<MoveKey>,
    k2: Seq<MoveKey>,
)
    requires
        extends_by(st, a, b, k1),
        extends_by(st, b, c, k2),
    ensures
        extends_by(st, a, c, k1 + k2),
{
    assert forall|j: int| 0 <= j < (k1 + k2).len() implies is_key_move(
        st,
        (k1 + k2)[j],
        #[trigger] c[a.len() + j],
    ) by {
        if j < k1.len() {
            assert(c[a.len() + j] == b[a.len() + j]);
        } else {
            assert(c[a.len() + j] == c[b.len() + (j - k1.len())]);
        }
    }
}

/// The legal moves of a piece of kind `kind` from `from` to those of the squares
/// below `hi` that belong to `cands`, by rising square: a square of `cands` that the
/// piece does not reach adds nothing.
pub open spec fn keys_among(st: Position, kind: int, from: int, cands: u64, hi: int) -> Seq<
    MoveKey,
>
    decreases hi,
{
    if hi <= 0 {
        Seq::empty()
    } else if has_square(cands, hi - 1) {
        keys_among(st, kind, from, cands, hi - 1) + keys_at(st, kind, from, hi - 1)
    } else {
        keys_among(st, kind, from, cands, hi - 1)
    }
}

/// Squares that are no candidates, or that the piece does not reach, add no move:
/// `reach` is the board of the squares that the piece reaches.
pub proof fn lemma_keys_among_skip(
    st: Position,
    kind: int,
    from: int,
    cands: u64,
    reach: u64,
    lo: int,
    hi: int,
)
    requires
        0 <= lo <= hi <= 64,
        holds_targets(reach, from, |s: int, t: int| reaches(st, kind, s, t)),
        forall|t: int| lo <= t < hi ==> !(has_square(cands, t) && has_square(reach, t)),
    ensures
        keys_among(st, kind, from, cands, hi) == keys_among(st, kind, from, cands, lo),
    decreases hi - lo,
{
    if lo < hi {
        lemma_keys_among_skip(st, kind, from, cands, reach, lo, hi - 1);
        if has_square(cands, hi - 1) {
            assert(!has_square(reach, hi - 1));
            assert(!reaches(st, kind, from, hi - 1));
            assert(keys_among(st, kind, from, cands, hi) =~= keys_among(
                st,
                kind,
                from,
                cands,
                hi - 1,
            ));
        }
    }
}

/// Where every square that the piece reaches is a candidate, the moves to the
/// candidates are all the moves of the piece.
pub proof fn lemma_keys_among_all(st: Position, kind: int, from: int, cands: u64, hi: int)
    requires
        0 <= hi <= 64,
        forall|t: int| 0 <= t < hi && reaches(st, kind, from, t) ==> has_square(cands, t),
    ensures
        keys_among(st, kind, from, cands, hi) == keys_to(st, kind, from, hi),
    decreases hi,
{
    if hi > 0 {
        lemma_keys_among_all(st, kind, from, cands, hi - 1);
        if !has_square(cands, hi - 1) {
            assert(!reaches(st, kind, from, hi - 1));
            assert(keys_to(st, kind, from, hi) =~= keys_to(st, kind, from, hi - 1));
        }
    }
}

/// The squares of the intersection of two boards.
pub proof fn lemma_chosen(cands: u64, reach: u64)
    ensures
        forall|t: int|
            has_square(cands & reach, t) == (has_square(cands, t) && has_square(reach, t)),
{
    broadcast use group_has_square;

}

/// Squares without a piece of the kind add no move.
pub proof fn lemma_keys_from_skip(st: Position, kind: int, lo: int, hi: int)
    requires
        0 <= lo <= hi,
        forall|f: int| lo <= f < hi ==> !has_square(st.of(st.side, kind), f),
    ensures
        keys_from(st, kind, hi) == keys_from(st, kind, lo),
    decreases hi - lo,
{
    if lo < hi {
        lemma_keys_from_skip(st, kind, lo, hi - 1);
    }
}

/// Generates the legal moves of a position.
pub struct MoveGenerator {
    pub move_provider: PieceMoveProvider,
    pub magic: Magic,
}

impl MoveGenerator {
    /// The tables are in order.
    pub open spec fn wf(&self) -> bool {
        self.move_provider.wf() && self.magic.wf()
    }

    /// Computes the tables.
    pub fn new() -> (r: MoveGenerator)
        ensures
            r.wf(),
    {
        let move_provider = PieceMoveProvider::new();
        let magic = Magic::new(&move_provider);
        MoveGenerator { move_provider, magic }
    }

    /// Whether the move, made in the position `state`, leaves the mover's king
    /// attacked. The move is made and taken back: the position is left as it was.
    pub fn is_king_hit(&self, state: &mut ChessState, chess_move: &ChessMove) -> (r: bool)
        requires
            self.wf(),
            old(state).half_move_count < u32::MAX,
            old(state).full_move_count < u32::MAX,
            chess_move.half_move_clock == old(state).half_move_count,
        ensures
            final(state)@ == old(state)@,
            r == king_in_check(old(state)@.after(*chess_move), old(state)@.side),
    {
        let (this_ofs, other_ofs) = state.next_to_move.offsets();
        proof {
            crate::state::lemma_do_undo(state@, *chess_move);
        }
        state.do_move(chess_move);
        let king = state.bboards[this_ofs];
        let result = if king != 0 {
            let idx = square_index(king);
            self.is_hit(state, idx, other_ofs)
        } else {
            false
        };
        state.undo_move(chess_move);
        result
    }

    /// Adds to `moves` the move of `piece` from `move_from` to `move_to`, with the
    /// promotion `promote` if any, unless it leaves the mover's king attacked.
    fn push_if_legal(
        &self,
        state: &mut ChessState,
        moves: &mut Vec<ChessMove>,
        piece: BBPiece,
        move_from: BBoard,
        move_to: BBoard,
        promote: Option<BBPiece>,
        Ghost(kind): Ghost<int>,
        Ghost(from): Ghost<int>,
        Ghost(to): Ghost<int>,
    )
        requires
            self.wf(),
            old(state).half_move_count < u32::MAX,
            old(state).full_move_count < u32::MAX,
            piece == BBPiece::at(old(state)@.side.base() + kind),
            move_from == square_bit(from),
            move_to == square_bit(to),
        ensures
            final(state)@ == old(state)@,
            extends_by(
                old(state)@,
                old(moves)@,
                final(moves)@,
                safe_key(old(state)@, kind, from, to, promote),
            ),
    {
        let new_move = ChessMove::build(state, piece, move_from, move_to, promote);
        if !self.is_king_hit(state, &new_move) {
            moves.push(new_move);
        }
    }

    /// Adds to `moves` the legal moves of the piece `piece`, which is no pawn, from
    /// the square of `move_from` to those squares of `move_candidates` that the piece
    /// reaches; the other squares of `move_candidates` add nothing.
    pub fn fill_rbqn_moves(
        &self,
        state: &mut ChessState,
        moves: &mut Vec<ChessMove>,
        piece: BBPiece,
        move_from: BBoard,
        move_candidates: BBoard,
    )
        requires
            self.wf(),
            old(state).half_move_count < u32::MAX,
            old(state).full_move_count < u32::MAX,
            move_from != 0,
            move_from == square_bit(lowest_square(move_from)),
            0 <= piece.index() - old(state)@.side.base() < 6,
            piece.index() - old(state)@.side.base() != 1,
        ensures
            final(state)@ == old(state)@,
            extends_by(
                old(state)@,
                old(moves)@,
                final(moves)@,
                keys_among(
                    old(state)@,
                    piece.index() - old(state)@.side.base(),
                    lowest_square(move_from),
                    move_candidates,
                    64,
                ),
            ),
    {
        let ghost st = state@;
        let ghost kind = piece.index() - st.side.base();
        proof {
            crate::state::lemma_at_index(piece);
        }
        let ghost from = lowest_square(move_from);
        let ghost start = moves@;
        let ghost mut cur: int = 0;
        proof {
            lemma_lowest_square(move_from);
        }
        let reach = self.targets(
            state,
            piece.idx() - state.next_to_move.offset(),
            square_index(move_from),
        );
        let chosen = move_candidates & reach;
        let mut rest = chosen;
        proof {
            lemma_chosen(move_candidates, reach);
        }
        while rest != 0
            invariant
                self.wf(),
                state@ == st,
                st.half_moves < u32::MAX,
                st.full_moves < u32::MAX,
                0 <= from < 64,
                move_from == square_bit(from),
                kind == piece.index() - st.side.base(),
                kind != 1,
                piece == BBPiece::at(st.side.base() + kind),
                0 <= cur <= 64,
                holds_targets(reach, from, |s: int, t: int| reaches(st, kind, s, t)),
                forall|t: int|
                    has_square(chosen, t) == (has_square(move_candidates, t) && has_square(
                        reach,
                        t,
                    )),
                forall|t: int| has_square(rest, t) == (has_square(chosen, t) && cur <= t),
                extends_by(st, start, moves@, keys_among(st, kind, from, move_candidates, cur)),
            decreases rest,
        {
            proof {
                lemma_scan_step(chosen, rest, cur);
            }
            let move_to = last_bit(rest);
            let ghost to = lowest_square(rest);
            let ghost mid = moves@;
            proof {
                lemma_keys_among_skip(st, kind, from, move_candidates, reach, cur, to);
                assert(has_square(move_candidates, to) && reaches(st, kind, from, to));
            }
            self.push_if_legal(
                state,
                moves,
                piece,
                move_from,
                move_to,
                None,
                Ghost(kind),
                Ghost(from),
                Ghost(to),
            );
            proof {
                lemma_extends_twice(
                    st,
                    start,
                    mid,
                    moves@,
                    keys_among(st, kind, from, move_candidates, to),
                    safe_key(st, kind, from, to, None),
                );
                cur = to + 1;
            }
            rest = remove_last_bit(rest);
        }
        proof {
            lemma_scan_end(chosen, cur);
            lemma_keys_among_skip(st, kind, from, move_candidates, reach, cur, 64);
        }
    }

    /// Adds to `moves` the legal moves of the pawn on the square of `move_from` to
    /// those squares of `move_candidates` that the pawn reaches; a pawn that reaches
    /// the last rank gives one move for each piece that it may be promoted to. The
    /// other squares of `move_candidates` add nothing: so a double step over an
    /// occupied square is dropped here.
    pub fn fill_pawn_moves(
        &self,
        state: &mut ChessState,
        moves: &mut Vec<ChessMove>,
        move_from: BBoard,
        move_candidates: BBoard,
    )
        requires
            self.wf(),
            old(state).half_move_count < u32::MAX,
            old(state).full_move_count < u32::MAX,
            move_from != 0,
            move_from == square_bit(lowest_square(move_from)),
        ensures
            final(state)@ == old(state)@,
            extends_by(
                old(state)@,
                old(moves)@,
                final(moves)@,
                keys_among(old(state)@, 1, lowest_square(move_from), move_candidates, 64),
            ),
    {
        let ghost st = state@;
        let ghost from = lowest_square(move_from);
        let ghost start = moves@;
        let ghost mut cur: int = 0;
        let this_ofs = state.next_to_move.offset();
        let piece = BBPiece::from_idx(this_ofs + 1);
        let rook = BBPiece::from_idx(this_ofs + 2);
        let knight = BBPiece::from_idx(this_ofs + 3);
        let bishop = BBPiece::from_idx(this_ofs + 4);
        let queen = BBPiece::from_idx(this_ofs + 5);
        proof {
            lemma_lowest_square(move_from);
        }
        let reach = self.targets(state, 1, square_index(move_from));
        let chosen = move_candidates & reach;
        let mut rest = chosen;
        proof {
            lemma_chosen(move_candidates, reach);
        }
        while rest != 0
            invariant
                self.wf(),
                state@ == st,
                st.half_moves < u32::MAX,
                st.full_moves < u32::MAX,
                0 <= from < 64,
                move_from == square_bit(from),
                piece == BBPiece::at(st.side.base() + 1),
                rook == BBPiece::at(st.side.base() + 2),
                knight == BBPiece::at(st.side.base() + 3),
                bishop == BBPiece::at(st.side.base() + 4),
                queen == BBPiece::at(st.side.base() + 5),
                0 <= cur <= 64,
                holds_targets(reach, from, |s: int, t: int| reaches(st, 1, s, t)),
                forall|t: int|
                    has_square(chosen, t) == (has_square(move_candidates, t) && has_square(
                        reach,
                        t,
                    )),
                forall|t: int| has_square(rest, t) == (has_square(chosen, t) && cur <= t),
                extends_by(st, start, moves@, keys_among(st, 1, from, move_candidates, cur)),
            decreases rest,
        {
            proof {
                lemma_scan_step(chosen, rest, cur);
            }
            let move_to = last_bit(rest);
            let ghost to = lowest_square(rest);
            let ghost mid = moves@;
            proof {
                lemma_keys_among_skip(st, 1, from, move_candidates, reach, cur, to);
                assert(has_square(move_candidates, to) && reaches(st, 1, from, to));
                lemma_last_ranks(to);
            }
            if move_to & 0xff000000000000ffu64 != 0 {
                self.push_if_legal(
                    state,
                    moves,
                    piece,
                    move_from,
                    move_to,
                    Some(rook),
                    Ghost(1),
                    Ghost(from),
                    Ghost(to),
                );
                let ghost m1 = moves@;
                self.push_if_legal(
                    state,
                    moves,
                    piece,
                    move_from,
                    move_to,
                    Some(knight),
                    Ghost(1),
                    Ghost(from),
                    Ghost(to),
                );
                let ghost m2 = moves@;
                self.push_if_legal(
                    state,
                    moves,
                    piece,
                    move_from,
                    move_to,
                    Some(bishop),
                    Ghost(1),
                    Ghost(from),
                    Ghost(to),
                );
                let ghost m3 = moves@;
                self.push_if_legal(
                    state,
                    moves,
                    piece,
                    move_from,
                    move_to,
                    Some(queen),
                    Ghost(1),
                    Ghost(from),
                    Ghost(to),
                );
                proof {
                    let k1 = safe_key(st, 1, from, to, Some(rook));
                    let k2 = safe_key(st, 1, from, to, Some(knight));
                    let k3 = safe_key(st, 1, from, to, Some(bishop));
                    let k4 = safe_key(st, 1, from, to, Some(queen));
                    lemma_extends_twice(st, mid, m1, m2, k1, k2);
                    lemma_extends_twice(st, mid, m2, m3, k1 + k2, k3);
                    lemma_extends_twice(st, mid, m3, moves@, k1 + k2 + k3, k4);
                    assert(keys_at(st, 1, from, to) == k1 + k2 + k3 + k4);
                }
            } else {
                self.push_if_legal(
                    state,
                    moves,
                    piece,
                    move_from,
                    move_to,
                    None,
                    Ghost(1),
                    Ghost(from),
                    Ghost(to),
                );
            }
            proof {
                lemma_extends_twice(
                    st,
                    start,
                    mid,
                    moves@,
                    keys_among(st, 1, from, move_candidates, to),
                    keys_at(st, 1, from, to),
                );
                cur = to + 1;
            }
            rest = remove_last_bit(rest);
        }
        proof {
            lemma_scan_end(chosen, cur);
            lemma_keys_among_skip(st, 1, from, move_candidates, reach, cur, 64);
        }
    }

    /// Adds to `moves` the legal moves of the pieces of the side to move of the
    /// kind at place `kind` among a side's boards.
    fn fill_kind_moves(&self, state: &mut ChessState, moves: &mut Vec<ChessMove>, kind: usize)
        requires
            self.wf(),
            old(state).half_move_count < u32::MAX,
            old(state).full_move_count < u32::MAX,
            kind < 6,
        ensures
            final(state)@ == old(state)@,
            extends_by(
                old(state)@,
                old(moves)@,
                final(moves)@,
                keys_from(old(state)@, kind as int, 64),
            ),
    {
        let ghost st = state@;
        let ghost start = moves@;
        let ghost mut cur: int = 0;
        let this_ofs = state.next_to_move.offset();
        let piece = BBPiece::from_idx(this_ofs + kind);
        let board = state.bboards[this_ofs + kind];
        let mut rest = board;
        while rest != 0
            invariant
                self.wf(),
                state@ == st,
                st.half_moves < u32::MAX,
                st.full_moves < u32::MAX,
                kind < 6,
                piece.index() == st.side.base() + kind,
                board == st.of(st.side, kind as int),
                0 <= cur <= 64,
                forall|t: int| has_square(rest, t) == (has_square(board, t) && cur <= t),
                extends_by(st, start, moves@, keys_from(st, kind as int, cur)),
            decreases rest,
        {
            proof {
                lemma_scan_step(board, rest, cur);
            }
            let move_from = last_bit(rest);
            let from_idx = square_index(rest);
            let ghost mid = moves@;
            proof {
                lemma_keys_from_skip(st, kind as int, cur, from_idx as int);
            }
            let move_candidates = self.targets(state, kind, from_idx);
            if kind == 1 {
                self.fill_pawn_moves(state, moves, move_from, move_candidates);
            } else {
                self.fill_rbqn_moves(state, moves, piece, move_from, move_candidates);
            }
            proof {
                lemma_keys_among_all(st, kind as int, from_idx as int, move_candidates, 64);
                lemma_extends_twice(
                    st,
                    start,
                    mid,
                    moves@,
                    keys_from(st, kind as int, from_idx as int),
                    keys_to(st, kind as int, from_idx as int, 64),
                );
                cur = from_idx + 1;
            }
            rest = remove_last_bit(rest);
        }
        proof {
            lemma_scan_end(board, cur);
            lemma_keys_from_skip(st, kind as int, cur, 64);
        }
    }

    /// Adds to `moves` the castling move on the wing on which the king leaves and
    /// reaches the two squares of `king_move`, if it is legal: the squares between
    /// king and rook are empty, and none of the squares that the king crosses is
    /// attacked. The right to castle there is the caller's to test.
    fn fill_castle_move(
        &self,
        state: &mut ChessState,
        moves: &mut Vec<ChessMove>,
        king_move: BBoard,
        Ghost(wing): Ghost<CastleSide>,
    )
        requires
            self.wf(),
            king_move == castle_template(old(state)@.side, wing).4,
            if wing == CastleSide::King {
                old(state)@.castle_rights(old(state)@.side).0
            } else {
                old(state)@.castle_rights(old(state)@.side).1
            },
        ensures
            final(state)@ == old(state)@,
            extends_by(old(state)@, old(moves)@, final(moves)@, castle_key(old(state)@, wing)),
    {
        let all = state.bboards[6] | state.bboards[15];
        let (this_ofs, other_ofs) = state.next_to_move.offsets();
        let (king, _rook, empty, no_attack, king_move, _rook_move) =
            ChessMove::castle_tuple_k_r_e_na_km_rm(king_move);
        if empty & all == 0 && !self.is_any_hit(state, no_attack, other_ofs) {
            let move_from = king;
            let move_to = king ^ king_move;
            proof {
                lemma_castle_squares(state@.side, wing);
            }
            let new_move = ChessMove::build(
                state,
                BBPiece::from_idx(this_ofs),
                move_from,
                move_to,
                None,
            );
            moves.push(new_move);
        }
    }

    /// Adds to `moves` the legal castling moves of the side to move.
    pub fn fill_castle_moves(&self, state: &mut ChessState, moves: &mut Vec<ChessMove>)
        requires
            self.wf(),
        ensures
            final(state)@ == old(state)@,
            extends_by(
                old(state)@,
                old(moves)@,
                final(moves)@,
                castle_key(old(state)@, CastleSide::King) + castle_key(
                    old(state)@,
                    CastleSide::Queen,
                ),
            ),
    {
        let ghost st = state@;
        let ghost start = moves@;
        let side = state.next_to_move;
        let (king_castle, queen_castle) = state.castle_moves(side);
        let king: BBoard = match side {
            Side::White => 0x10,
            Side::Black => 0x1000000000000000,
        };
        proof {
            assert(0x10u64 | 0x40u64 == 0x50u64 && 0x10u64 | 0x04u64 == 0x14u64
                && 0x1000000000000000u64 | 0x4000000000000000u64 == 0x5000000000000000u64
                && 0x1000000000000000u64 | 0x0400000000000000u64 == 0x1400000000000000u64)
                by (bit_vector);
        }
        if king_castle != 0 {
            self.fill_castle_move(state, moves, king | king_castle, Ghost(CastleSide::King));
        }
        let ghost mid = moves@;
        if queen_castle != 0 {
            self.fill_castle_move(state, moves, king | queen_castle, Ghost(CastleSide::Queen));
        }
        proof {
            lemma_extends_twice(
                st,
                start,
                mid,
                moves@,
                castle_key(st, CastleSide::King),
                castle_key(st, CastleSide::Queen),
            );
        }
    }

    /// Adds to `moves` all the legal moves of the position `state`, which is left as
    /// it was.
    pub fn generate_moves(&self, state: &mut ChessState, moves: &mut Vec<ChessMove>)
        requires
            self.wf(),
            old(state).half_move_count < u32::MAX,
            old(state).full_move_count < u32::MAX,
        ensures
            final(state)@ == old(state)@,
            extends_by(old(state)@, old(moves)@, final(moves)@, legal_keys(old(state)@)),
    {
        let ghost st = state@;
        let ghost m0 = moves@;
        self.fill_kind_moves(state, moves, 1);
        let ghost m1 = moves@;
        self.fill_kind_moves(state, moves, 2);
        let ghost m2 = moves@;
        self.fill_kind_moves(state, moves, 3);
        let ghost m3 = moves@;
        self.fill_kind_moves(state, moves, 4);
        let ghost m4 = moves@;
        self.fill_kind_moves(state, moves, 5);
        let ghost m5 = moves@;
        self.fill_kind_moves(state, moves, 0);
        let ghost m6 = moves@;
        self.fill_castle_moves(state, moves);
        proof {
            let k1 = keys_from(st, 1, 64);
            let k2 = keys_from(st, 2, 64);
            let k3 = keys_from(st, 3, 64);
            let k4 = keys_from(st, 4, 64);
            let k5 = keys_from(st, 5, 64);
            let k6 = keys_from(st, 0, 64);
            let k7 = castle_key(st, CastleSide::King) + castle_key(st, CastleSide::Queen);
            lemma_extends_twice(st, m0, m1, m2, k1, k2);
            lemma_extends_twice(st, m0, m2, m3, k1 + k2, k3);
            lemma_extends_twice(st, m0, m3, m4, k1 + k2 + k3, k4);
            lemma_extends_twice(st, m0, m4, m5, k1 + k2 + k3 + k4, k5);
            lemma_extends_twice(st, m0, m5, m6, k1 + k2 + k3 + k4 + k5, k6);
            lemma_extends_twice(st, m0, m6, moves@, k1 + k2 + k3 + k4 + k5 + k6, k7);
            assert(legal_keys(st) =~= k1 + k2 + k3 + k4 + k5 + k6 + k7);
        }
    }

    /// Whether a piece of the side whose first board is at place `offset` attacks
    /// some square of `check_board`.
    pub fn is_any_hit(&self, state: &ChessState, check_board: BBoard, offset: usize) -> (r: bool)
        requires
            self.wf(),
            offset == 0 || offset == 9,
        ensures
            r == any_attacked(
                state@,
                check_board,
                if offset == 0 {
                    Side::White
                } else {
                    Side::Black
                },
            ),
    {
        let ghost by = if offset == 0 {
            Side::White
        } else {
            Side::Black
        };
        let mut rest = check_board;
        while rest != 0
            invariant
                self.wf(),
                offset == 0 || offset == 9,
                by == if offset == 0 {
                    Side::White
                } else {
                    Side::Black
                },
                forall|s: int| has_square(rest, s) ==> has_square(check_board, s),
                forall|s: int|
                    has_square(check_board, s) && !has_square(rest, s) ==> !attacked(state@, s, by),
            decreases rest,
        {
            broadcast use group_has_square;

            proof {
                lemma_lowest_square(rest);
            }
            let idx = square_index(rest);
            if self.is_hit(state, idx, offset) {
                return true;
            }
            let ghost before = rest;
            rest = remove_last_bit(rest);
            assert(rest < before) by {
                lemma_remove_decreases(before);
            }
        }
        proof {
            broadcast use group_has_square;

            assert forall|s: int| has_square(check_board, s) implies !attacked(state@, s, by) by {
                assert(!has_square(rest, s));
            }
        }
        false
    }

    /// The squares that the piece of kind `kind` of the side to move on square
    /// `from_idx` reaches.
    pub fn targets(&self, state: &ChessState, kind: usize, from_idx: usize) -> (r: BBoard)
        requires
            self.wf(),
            kind < 6,
            from_idx < 64,
        ensures
            holds_targets(r, from_idx as int, |s: int, t: int| reaches(state@, kind as int, s, t)),
    {
        broadcast use group_has_square;

        let side = state.next_to_move;
        let (this_ofs, other_ofs) = side.offsets();
        let own = state.bboards[this_ofs + 6];
        let enemy = state.bboards[other_ofs + 6];
        let all = state.bboards[6] | state.bboards[15];
        let ghost st = state@;
        let ghost f = from_idx as int;
        if kind == 1 {
            let (steps, hits) = match side {
                Side::White => (
                    self.move_provider.white_pawn_move[from_idx],
                    self.move_provider.white_pawn_capture[from_idx],
                ),
                Side::Black => (
                    self.move_provider.black_pawn_move[from_idx],
                    self.move_provider.black_pawn_capture[from_idx],
                ),
            };
            let taken = steps & all;
            let shadow = match side {
                Side::White => taken << 8,
                Side::Black => taken >> 8,
            };
            let r = (steps & !all & !shadow) | (hits & !own & (enemy | state.bboards[other_ofs
                + 8]));
            proof {
                assert(holds_targets(
                    self.move_provider.white_pawn_move[f],
                    f,
                    |a: int, t: int| white_pawn_step(a, t),
                ));
                assert(holds_targets(
                    self.move_provider.black_pawn_move[f],
                    f,
                    |a: int, t: int| black_pawn_step(a, t),
                ));
                assert(holds_targets(
                    self.move_provider.white_pawn_capture[f],
                    f,
                    |a: int, t: int| white_pawn_attack(a, t),
                ));
                assert(holds_targets(
                    self.move_provider.black_pawn_capture[f],
                    f,
                    |a: int, t: int| black_pawn_attack(a, t),
                ));
                assert forall|t: int| #[trigger]
                    has_square(r, t) == (0 <= t < 64 && reaches(st, 1, f, t)) by {
                    if 0 <= t < 64 {
                        assert(has_square(all, t) == (has_square(own, t) || has_square(enemy, t)));
                    }
                }
            }
            r
        } else if kind == 2 {
            self.magic.get_rook_attack_bits(from_idx, all) & !own
        } else if kind == 3 {
            assert(holds_targets(
                self.move_provider.knight_move[f],
                f,
                |a: int, t: int| knight_step(a, t),
            ));
            self.move_provider.knight_move[from_idx] & !own
        } else if kind == 4 {
            self.magic.get_bishop_attack_bits(from_idx, all) & !own
        } else if kind == 5 {
            (self.magic.get_rook_attack_bits(from_idx, all) | self.magic.get_bishop_attack_bits(
                from_idx,
                all,
            )) & !own
        } else {
            assert(holds_targets(
                self.move_provider.king_move[f],
                f,
                |a: int, t: int| king_step(a, t),
            ));
            self.move_provider.king_move[from_idx] & !own
        }
    }

    /// Whether a piece of the side whose first board is at place `offset` attacks
    /// the square `idx`.
    pub fn is_hit(&self, state: &ChessState, idx: usize, offset: usize) -> (r: bool)
        requires
            self.wf(),
            idx < 64,
            offset == 0 || offset == 9,
        ensures
            r == attacked(
                state@,
                idx as int,
                if offset == 0 {
                    Side::White
                } else {
                    Side::Black
                },
            ),
    {
        let ghost by = if offset == 0 {
            Side::White
        } else {
            Side::Black
        };
        let ghost st = state@;
        let ghost s = idx as int;
        let pawns_capture = if offset == 0 {
            self.move_provider.black_pawn_capture[idx]
        } else {
            self.move_provider.white_pawn_capture[idx]
        };
        let knights = self.move_provider.knight_move[idx];
        let kings = self.move_provider.king_move[idx];
        let all = state.bboards[6] | state.bboards[15];
        let rook_moves = self.magic.get_rook_attack_bits(idx, all);
        let bishop_moves = self.magic.get_bishop_attack_bits(idx, all);
        proof {
            broadcast use group_has_square;

            assert(holds_targets(
                self.move_provider.black_pawn_capture[s],
                s,
                |a: int, t: int| black_pawn_attack(a, t),
            ));
            assert(holds_targets(
                self.move_provider.white_pawn_capture[s],
                s,
                |a: int, t: int| white_pawn_attack(a, t),
            ));
            assert(holds_targets(knights, s, |a: int, t: int| knight_step(a, t)));
            assert(holds_targets(kings, s, |a: int, t: int| king_step(a, t)));
            assert forall|p: int| 0 <= p < 64 implies #[trigger] attacks(st, by, p, s) == ({
                ||| has_square(st.boards[offset + 1] & pawns_capture, p)
                ||| has_square(st.boards[offset + 3] & knights, p)
                ||| has_square(st.boards[offset + 2] & rook_moves, p)
                ||| has_square(st.boards[offset + 4] & bishop_moves, p)
                ||| has_square(st.boards[offset + 5] & (rook_moves | bishop_moves), p)
                ||| has_square(st.boards[offset + 0] & kings, p)
            }) by {
                lemma_sees_symmetric(all, p, s);
            }
            lemma_hit(st, by, s, st.boards[offset + 1] & pawns_capture);
            lemma_hit(st, by, s, st.boards[offset + 3] & knights);
            lemma_hit(st, by, s, st.boards[offset + 2] & rook_moves);
            lemma_hit(st, by, s, st.boards[offset + 4] & bishop_moves);
            lemma_hit(st, by, s, st.boards[offset + 5] & (rook_moves | bishop_moves));
            lemma_hit(st, by, s, st.boards[offset + 0] & kings);
        }
        if state.bboards[offset + 1] & pawns_capture != 0 {
            return true;
        }
        if state.bboards[offset + 3] & knights != 0 {
            return true;
        }
        if state.bboards[offset + 2] & rook_moves != 0 {
            return true;
        }
        if state.bboards[offset + 4] & bishop_moves != 0 {
            return true;
        }
        if state.bboards[offset + 5] & (rook_moves | bishop_moves) != 0 {
            return true;
        }
        if state.bboards[offset] & kings != 0 {
            return true;
        }
        false
    }
}

/// A move in words: the name of the piece, a blank, the square that it leaves, a
/// dash and the square that it reaches.
pub open spec fn long_move_text(piece: BBPiece, move_from: u64, move_to: u64) -> Seq<char> {
    piece.name() + " "@ + board_name(move_from) + "-"@ + board_name(move_to)
}

/// A move in words: the name of the piece, a blank, the square that it leaves, a
/// dash and the square that it reaches.
pub fn get_bb_move_text(piece: BBPiece, move_from: BBoard, move_to: BBoard) -> (r: String)
    ensures
        r@ == long_move_text(piece, move_from, move_to),
{
    let mut move_str = String::new();
    move_str.append(piece.to_string().as_str());
    move_str.append(" ");
    move_str.append(bb_to_coord(move_from).as_str());
    move_str.append("-");
    move_str.append(bb_to_coord(move_to).as_str());
    assert(move_str@ =~= long_move_text(piece, move_from, move_to));
    move_str
}

/// The move in words, for a move that toggles the square that it starts from on
/// some board.
pub fn get_move_text(chess_move: &ChessMove) -> (r: String)
    requires
        chess_move.piece_from(0) < 18,
    ensures
        r@ == long_move_text(
            BBPiece::at(chess_move.piece_from(0)),
            chess_move.move_from,
            chess_move.move_to,
        ),
{
    let piece = chess_move.get_piece();
    proof {
        crate::state::lemma_at_index(piece);
    }
    get_bb_move_text(piece, chess_move.move_from, chess_move.move_to)
}

/// What is looked at to tell whether a position can be one of a game: the side to
/// move has left no mark of a skipped square, the marks that are there are on the
/// third rank of their side, each side has one king, and the boards of all the pieces
/// of the two sides together are what the twelve boards of kinds make when each
/// toggles the next.
pub open spec fn looks_sane(p: Position) -> bool {
    &&& p.of(p.side, 8) == 0
    &&& p.boards[8] & 0xffffffffff00ffffu64 == 0
    &&& p.boards[17] & 0xffff00ffffffffffu64 == 0
    &&& square_count(p.boards[0]) == 1
    &&& square_count(p.boards[9]) == 1
    &&& p.boards[6] | p.boards[15] == p.boards[0] ^ p.boards[1] ^ p.boards[2] ^ p.boards[3]
        ^ p.boards[4] ^ p.boards[5] ^ p.boards[9] ^ p.boards[10] ^ p.boards[11] ^ p.boards[12]
        ^ p.boards[13] ^ p.boards[14]
}

/// Whether the position after the move looks like one of a game. The move is made
/// and taken back: the position is left as it was.
pub fn state_is_sane(state: &mut ChessState, chess_move: &ChessMove) -> (r: bool)
    requires
        old(state).half_move_count < u32::MAX,
        old(state).full_move_count < u32::MAX,
        chess_move.half_move_clock == old(state).half_move_count,
    ensures
        final(state)@ == old(state)@,
        r == looks_sane(old(state)@.after(*chess_move)),
{
    proof {
        crate::state::lemma_do_undo(state@, *chess_move);
    }
    state.do_move(chess_move);
    let all = state.bboards[6] | state.bboards[15];
    let all2 = state.bboards[0] ^ state.bboards[1] ^ state.bboards[2] ^ state.bboards[3]
        ^ state.bboards[4] ^ state.bboards[5] ^ state.bboards[9] ^ state.bboards[10]
        ^ state.bboards[11] ^ state.bboards[12] ^ state.bboards[13] ^ state.bboards[14];
    let mut result = true;
    if state.bboards[state.next_to_move.offset() + 8] != 0 {
        result = false;
    }
    if state.bboards[17] & 0xffff00ffffffffffu64 != 0 || state.bboards[8] & 0xffffffffff00ffffu64
        != 0 {
        result = false;
    }
    if state.bboards[0].count_ones() != 1 || state.bboards[9].count_ones() != 1 {
        result = false;
    }
    if all != all2 {
        result = false;
    }
    state.undo_move(chess_move);
    result
}

/// A board of which every square holds an attacker of `s` shows, unless it is
/// empty, that `s` is attacked.
proof fn lemma_hit(st: Position, by: Side, s: int, b: u64)
    requires
        forall|p: int| 0 <= p < 64 && has_square(b, p) ==> #[trigger] attacks(st, by, p, s),
    ensures
        b != 0 ==> attacked(st, s, by),
        b == 0 ==> forall|p: int| !has_square(b, p),
{
    broadcast use group_has_square;

    if b != 0 {
        lemma_lowest_square(b);
        assert(attacks(st, by, lowest_square(b), s));
    }
}

/// The board of the first and the last rank holds the squares of ranks 1 and 8.
proof fn lemma_last_ranks(t: int)
    requires
        0 <= t < 64,
    ensures
        (square_bit(t) & 0xff000000000000ffu64 != 0) == (rank_of(t) == 0 || rank_of(t) == 7),
{
    let i = t as u64;
    assert(((1u64 << i) & 0xff000000000000ffu64 != 0) == (i / 8 == 0 || i / 8 == 7))
        by (bit_vector)
        requires
            i < 64,
    ;
}

/// The king's squares in castling are the single squares that `king_squares` names.
proof fn lemma_castle_squares(side: Side, wing: CastleSide)
    ensures
        ({
            let t = castle_template(side, wing);
            let k = king_squares(side, wing);
            &&& t.0 == square_bit(k.0)
            &&& t.0 ^ t.4 == square_bit(k.1)
            &&& castle_of_king_move(t.4) == Some((side, wing))
        }),
{
    assert(0x10u64 ^ 0x50u64 == 1u64 << 6 && 0x10u64 ^ 0x14u64 == 1u64 << 2
        && 0x1000000000000000u64 ^ 0x5000000000000000u64 == 1u64 << 62 && 0x1000000000000000u64
        ^ 0x1400000000000000u64 == 1u64 << 58 && 0x10u64 == 1u64 << 4 && 0x1000000000000000u64
        == 1u64 << 60) by (bit_vector);
}

/// One step of a walk over the squares of `board` by rising square, where `rest`
/// holds the squares from `cur` on: the lowest square of `rest` is the next square of
/// `board`, and taking it out leaves the squares above it.
pub proof fn lemma_scan_step(board: u64, rest: u64, cur: int)
    requires
        rest != 0,
        0 <= cur,
        forall|t: int| has_square(rest, t) == (has_square(board, t) && cur <= t),
    ensures
        cur <= lowest_square(rest) < 64,
        has_square(board, lowest_square(rest)),
        forall|t: int| cur <= t < lowest_square(rest) ==> !has_square(board, t),
        forall|t: int|
            has_square(rest & !square_bit(lowest_square(rest)), t) == (has_square(board, t)
                && lowest_square(rest) + 1 <= t),
        rest & !square_bit(lowest_square(rest)) < rest,
        lowest_square(square_bit(lowest_square(rest))) == lowest_square(rest),
        square_bit(lowest_square(rest)) != 0,
{
    broadcast use group_has_square;

    lemma_lowest_square(rest);
    lemma_remove_decreases(rest);
    let l = lowest_square(rest);
    assert(has_square(rest, l));
    assert forall|t: int| cur <= t < l implies !has_square(board, t) by {
        assert(!has_square(rest, t));
    }
    lemma_lowest_square(square_bit(l));
    assert(has_square(square_bit(l), l));
    let ll = lowest_square(square_bit(l));
    if ll < 64 {
        assert(has_square(square_bit(l), ll));
    }
}

/// The end of a walk over the squares of `board`: when nothing is left, `board` has
/// no square from `cur` on.
pub proof fn lemma_scan_end(board: u64, cur: int)
    requires
        forall|t: int| has_square(0u64, t) == (has_square(board, t) && cur <= t),
    ensures
        forall|t: int| cur <= t ==> !has_square(board, t),
{
    broadcast use group_has_square;

    assert forall|t: int| cur <= t implies !has_square(board, t) by {
        assert(!has_square(0u64, t));
    }
}

/// A board without its lowest square is a smaller number.
pub proof fn lemma_remove_decreases(b: u64)
    requires
        b != 0,
    ensures
        b & !square_bit(lowest_square(b)) < b,
{
    lemma_lowest_square(b);
    let k = lowest_square(b) as u64;
    assert(b & !(1u64 << k) < b) by (bit_vector)
        requires
            k < 64,
            (b >> k) & 1 == 1,
    ;
}

/// The lines of sight go both ways: a slider on `p` attacks `s` exactly when one on
/// `s` would attack `p`, and so for the steps of the knight, the king and the pawns
/// of the two sides.
pub proof fn lemma_sees_symmetric(occ: u64, p: int, s: int)
    requires
        0 <= p < 64,
        0 <= s < 64,
    ensures
        rook_sees(occ, p, s) == rook_sees(occ, s, p),
        bishop_sees(occ, p, s) == bishop_sees(occ, s, p),
        knight_step(p, s) == knight_step(s, p),
        king_step(p, s) == king_step(s, p),
        white_pawn_attack(p, s) == black_pawn_attack(s, p),
{
    assert forall|m: int| 0 <= m < 64 implies crate::magic::between(p, s, m)
        == crate::magic::between(s, p, m) by {}
    if crate::magic::clear_between(occ, p, s) {
        assert(crate::magic::clear_between(occ, s, p));
    }
    if crate::magic::clear_between(occ, s, p) {
        assert(crate::magic::clear_between(occ, p, s));
    }
}

} // verus!
