//! The search: the value of a position by alpha-beta minimax to a fixed depth, and
//! the choice of a move.
use crate::evaluator::{evaluate_position, evaluation};
use crate::game_setup::ChessMove;
use crate::move_generator::{
    MoveGenerator, MoveKey, extends_by, is_key_move, key_deltas, king_in_check, legal_keys,
};
use crate::state::{ChessState, Position, Side, lemma_do_undo};
use vstd::prelude::*;

verus! {

/// The score of a side that is mated, before the sign of the side is applied.
pub const MATE_SCORE: i32 = 100000;

/// How many moves ahead `find_best_move` looks after each first move.
pub const SEARCH_DEPTH: u32 = 4;

/// The position after the move named `k`.
pub open spec fn position_after(st: Position, k: MoveKey) -> Position {
    st.moved(key_deltas(st, k))
}

/// The value that the search to depth `depth` gives the position, with the window
/// from `alpha` to `beta`.
///
/// At depth zero it is the static evaluation. A position without a legal move is
/// worth nothing if the side to move is not in check, and else the mate score
/// against the side to move: -100000 for White, 100000 for Black. Otherwise White
/// takes the highest and Black the lowest of the values of the moves, each
/// searched one ply less deep, and stops looking once the window is closed.
#[verifier::opaque]
pub open spec fn search(st: Position, depth: nat, alpha: int, beta: int) -> int
    decreases depth, legal_keys(st).len() + 1,
{
    if depth == 0 {
        evaluation(st)
    } else if legal_keys(st).len() == 0 {
        if king_in_check(st, st.side) {
            st.side.sign() * -100000
        } else {
            0
        }
    } else if st.side == Side::White {
        best_max(st, depth, legal_keys(st), 0, alpha, beta)
    } else {
        best_min(st, depth, legal_keys(st), 0, alpha, beta)
    }
}

/// White's choice among the moves from the `i`-th on, when the best that it has so
/// far is `alpha`: the highest value, or the first that reaches `beta`.
#[verifier::opaque]
pub open spec fn best_max(
    st: Position,
    depth: nat,
    keys: Seq<MoveKey>,
    i: int,
    alpha: int,
    beta: int,
) -> int
    decreases depth, keys.len() - i,
{
    if depth == 0 || i < 0 || i >= keys.len() {
        alpha
    } else {
        let score = search(position_after(st, keys[i]), (depth - 1) as nat, alpha, beta);
        let a = if score > alpha {
            score
        } else {
            alpha
        };
        if a >= beta {
            a
        } else {
            best_max(st, depth, keys, i + 1, a, beta)
        }
    }
}

/// Black's choice among the moves from the `i`-th on, when the best that it has so
/// far is `beta`: the lowest value, or the first that reaches `alpha`.
#[verifier::opaque]
pub open spec fn best_min(
    st: Position,
    depth: nat,
    keys: Seq<MoveKey>,
    i: int,
    alpha: int,
    beta: int,
) -> int
    decreases depth, keys.len() - i,
{
    if depth == 0 || i < 0 || i >= keys.len() {
        beta
    } else {
        let score = search(position_after(st, keys[i]), (depth - 1) as nat, alpha, beta);
        let b = if score < beta {
            score
        } else {
            beta
        };
        if alpha >= b {
            b
        } else {
            best_min(st, depth, keys, i + 1, alpha, b)
        }
    }
}

/// The value of the `i`-th legal move of the position for the choice of a move:
/// that of the position after it, searched with the widest window.
pub open spec fn root_score(st: Position, i: int) -> int {
    search(position_after(st, legal_keys(st)[i]), 4, i32::MIN as int, i32::MAX as int)
}

/// Which of the first `n` legal moves is chosen: the first with the highest value
/// for White, the first with the lowest value for Black.
#[verifier::opaque]
pub open spec fn best_root(st: Position, n: int) -> int
    decreases n,
{
    if n <= 1 {
        0
    } else {
        let b = best_root(st, n - 1);
        let s = root_score(st, n - 1);
        if (st.side == Side::White && s > root_score(st, b)) || (st.side == Side::Black && s
            < root_score(st, b)) {
            n - 1
        } else {
            b
        }
    }
}

/// What `search` is, one step unfolded.
pub proof fn lemma_search_unfold(st: Position, depth: nat, alpha: int, beta: int)
    ensures
        search(st, depth, alpha, beta) == if depth == 0 {
            evaluation(st)
        } else if legal_keys(st).len() == 0 {
            if king_in_check(st, st.side) {
                st.side.sign() * -100000
            } else {
                0
            }
        } else if st.side == Side::White {
            best_max(st, depth, legal_keys(st), 0, alpha, beta)
        } else {
            best_min(st, depth, legal_keys(st), 0, alpha, beta)
        },
{
    reveal_with_fuel(search, 2);
    reveal_with_fuel(best_max, 2);
    reveal_with_fuel(best_min, 2);
}

/// A side that is to move, has no legal move and is in check is mated: at any
/// depth above zero and with any window the search gives -100000 for White and
/// 100000 for Black.
pub proof fn lemma_mate_value(st: Position, depth: nat, alpha: int, beta: int)
    requires
        depth > 0,
        legal_keys(st).len() == 0,
        king_in_check(st, st.side),
    ensures
        search(st, depth, alpha, beta) == st.side.sign() * -100000,
        st.side == Side::White ==> search(st, depth, alpha, beta) == -100000,
        st.side == Side::Black ==> search(st, depth, alpha, beta) == 100000,
{
    lemma_search_unfold(st, depth, alpha, beta);
}

/// A side that is to move, has no legal move and is not in check is stalemated:
/// at any depth above zero and with any window the search gives zero.
pub proof fn lemma_stalemate_value(st: Position, depth: nat, alpha: int, beta: int)
    requires
        depth > 0,
        legal_keys(st).len() == 0,
        !king_in_check(st, st.side),
    ensures
        search(st, depth, alpha, beta) == 0,
{
    lemma_search_unfold(st, depth, alpha, beta);
}

/// What `best_max` and `best_min` are, one step unfolded.
pub proof fn lemma_best_unfold(
    st: Position,
    depth: nat,
    keys: Seq<MoveKey>,
    i: int,
    alpha: int,
    beta: int,
)
    ensures
        best_max(st, depth, keys, i, alpha, beta) == if depth == 0 || i < 0 || i >= keys.len() {
            alpha
        } else {
            let score = search(position_after(st, keys[i]), (depth - 1) as nat, alpha, beta);
            let a = if score > alpha {
                score
            } else {
                alpha
            };
            if a >= beta {
                a
            } else {
                best_max(st, depth, keys, i + 1, a, beta)
            }
        },
        best_min(st, depth, keys, i, alpha, beta) == if depth == 0 || i < 0 || i >= keys.len() {
            beta
        } else {
            let score = search(position_after(st, keys[i]), (depth - 1) as nat, alpha, beta);
            let b = if score < beta {
                score
            } else {
                beta
            };
            if alpha >= b {
                b
            } else {
                best_min(st, depth, keys, i + 1, alpha, b)
            }
        },
{
    reveal_with_fuel(search, 2);
    reveal_with_fuel(best_max, 2);
    reveal_with_fuel(best_min, 2);
}

/// What `best_root` is, one step unfolded.
pub proof fn lemma_best_root_unfold(st: Position, n: int)
    ensures
        best_root(st, n) == if n <= 1 {
            0
        } else {
            let b = best_root(st, n - 1);
            let s = root_score(st, n - 1);
            if (st.side == Side::White && s > root_score(st, b)) || (st.side == Side::Black && s
                < root_score(st, b)) {
                n - 1
            } else {
                b
            }
        },
{
    reveal_with_fuel(best_root, 2);
}

/// Chooses moves by searching the tree of moves to a fixed depth.
pub struct ChessEngine {
    pub move_generator: MoveGenerator,
}

impl ChessEngine {
    /// The tables of the move generator are in order.
    pub open spec fn wf(&self) -> bool {
        self.move_generator.wf()
    }

    pub fn new() -> (r: ChessEngine)
        ensures
            r.wf(),
    {
        ChessEngine { move_generator: MoveGenerator::new() }
    }

    /// Whether the king of `side` is attacked.
    pub fn is_in_check(&self, state: &ChessState, side: Side) -> (r: bool)
        requires
            self.wf(),
        ensures
            r == king_in_check(state@, side),
    {
        self.move_generator.is_in_check(state, side)
    }

    /// The value of the position by a search `depth` plies deep with the window
    /// from `alpha` to `beta`; the position is left as it was. `penalty` counts the
    /// plies from the root and does not change the value.
    pub fn min_max_search(
        &self,
        penalty: i32,
        depth: u32,
        alpha: i32,
        beta: i32,
        state: &mut ChessState,
    ) -> (r: i32)
        requires
            self.wf(),
            old(state).half_move_count + depth < u32::MAX,
            old(state).full_move_count + depth < u32::MAX,
            penalty + depth <= i32::MAX,
        ensures
            final(state)@ == old(state)@,
            r == search(old(state)@, depth as nat, alpha as int, beta as int),
        decreases depth,
    {
        let ghost st = state@;
        proof {
            lemma_search_unfold(st, depth as nat, alpha as int, beta as int);
        }
        if depth == 0 {
            return evaluate_position(state);
        }
        let mut moves: Vec<ChessMove> = Vec::with_capacity(20);
        self.move_generator.generate_moves(state, &mut moves);
        let ghost keys = legal_keys(st);
        if moves.len() == 0 {
            let king_hit = self.is_in_check(state, state.next_to_move);
            return if king_hit {
                state.next_to_move.value() * -MATE_SCORE
            } else {
                0
            };
        }
        let mut a = alpha;
        let mut b = beta;
        let white = state.next_to_move == Side::White;
        let mut i: usize = 0;
        while i < moves.len()
            invariant
                self.wf(),
                state@ == st,
                st == old(state)@,
                depth > 0,
                st.half_moves + depth < u32::MAX,
                st.full_moves + depth < u32::MAX,
                penalty + depth <= i32::MAX,
                keys == legal_keys(st),
                extends_by(st, Seq::empty(), moves@, keys),
                0 <= i <= moves.len(),
                white == (st.side == Side::White),
                search(st, depth as nat, alpha as int, beta as int) == if white {
                    best_max(st, depth as nat, keys, 0, alpha as int, beta as int)
                } else {
                    best_min(st, depth as nat, keys, 0, alpha as int, beta as int)
                },
                white ==> b == beta && best_max(
                    st,
                    depth as nat,
                    keys,
                    i as int,
                    a as int,
                    beta as int,
                ) == best_max(st, depth as nat, keys, 0, alpha as int, beta as int),
                !white ==> a == alpha && best_min(
                    st,
                    depth as nat,
                    keys,
                    i as int,
                    alpha as int,
                    b as int,
                ) == best_min(st, depth as nat, keys, 0, alpha as int, beta as int),
            decreases moves.len() - i,
        {
            let cur_move = moves[i];
            proof {
                assert(is_key_move(st, keys[i as int], moves@[0 + i]));
                assert(st.boards.len() == 18);
                lemma_do_undo(st, cur_move);
                assert(st.after(cur_move) == position_after(st, keys[i as int]));
                lemma_best_unfold(st, depth as nat, keys, i as int, a as int, b as int);
            }
            state.do_move(&cur_move);
            let score = self.min_max_search(penalty + 1, depth - 1, a, b, state);
            state.undo_move(&cur_move);
            assert(state@ == st);
            if white {
                if score > a {
                    a = score;
                }
            } else {
                if score < b {
                    b = score;
                }
            }
            if a >= b {
                return if white {
                    a
                } else {
                    b
                };
            }
            i += 1;
        }
        proof {
            lemma_best_unfold(st, depth as nat, keys, i as int, a as int, b as int);
        }
        if white {
            a
        } else {
            b
        }
    }

    /// The move that the side to move should make, by a search four plies deep
    /// after each legal move: the first of those with the best value, and none where
    /// there is no legal move. The position is left as it was.
    pub fn find_best_move(&self, state: &mut ChessState) -> (r: Option<ChessMove>)
        requires
            self.wf(),
            old(state).half_move_count + 5 < u32::MAX,
            old(state).full_move_count + 5 < u32::MAX,
        ensures
            final(state)@ == old(state)@,
            r is None <==> legal_keys(old(state)@).len() == 0,
            r is Some ==> is_key_move(
                old(state)@,
                legal_keys(old(state)@)[best_root(old(state)@, legal_keys(old(state)@).len() as int)],
                r.unwrap(),
            ),
    {
        let ghost st = state@;
        let ghost keys = legal_keys(st);
        let mut moves: Vec<ChessMove> = Vec::new();
        self.move_generator.generate_moves(state, &mut moves);
        if moves.len() == 0 {
            return None;
        }
        let mut best_score: i32 = 0;
        let mut best_index: usize = 0;
        let white = state.next_to_move == Side::White;
        let mut idx: usize = 0;
        while idx < moves.len()
            invariant
                self.wf(),
                state@ == st,
                st.half_moves + 5 < u32::MAX,
                st.full_moves + 5 < u32::MAX,
                keys == legal_keys(st),
                extends_by(st, Seq::empty(), moves@, keys),
                moves.len() > 0,
                0 <= idx <= moves.len(),
                white == (st.side == Side::White),
                idx > 0 ==> best_index == best_root(st, idx as int) && best_index < idx
                    && best_score == root_score(st, best_index as int),
            decreases moves.len() - idx,
        {
            let m = moves[idx];
            proof {
                assert(is_key_move(st, keys[idx as int], moves@[0 + idx]));
                assert(st.boards.len() == 18);
                lemma_do_undo(st, m);
                assert(st.after(m) == position_after(st, keys[idx as int]));
                lemma_best_root_unfold(st, idx + 1);
            }
            state.do_move(&m);
            let score = self.min_max_search(0, SEARCH_DEPTH, i32::MIN, i32::MAX, state);
            state.undo_move(&m);
            assert(state@ == st);
            assert(score == root_score(st, idx as int));
            let is_new_best = idx == 0 || (white && score > best_score) || (!white && score
                < best_score);
            if is_new_best {
                best_score = score;
                best_index = idx;
            }
            idx += 1;
        }
        assert(is_key_move(st, keys[best_index as int], moves@[0 + best_index]));
        Some(moves[best_index])
    }
}

} // verus!
