//! Where each piece goes on an empty board: the steps of pawns, knights and kings,
//! the lines of rooks, bishops and queens, and the squares whose occupancy decides how
//! far a slider reaches.
use crate::bboard::{BBoard, group_has_square, has_square, lemma_board_ext, square_bit};
use vstd::prelude::*;

verus! {

/// The file of square `s`, from 0 for file `a`.
pub open spec fn file_of(s: int) -> int {
    s % 8
}

/// The rank of square `s`, from 0 for rank 1.
pub open spec fn rank_of(s: int) -> int {
    s / 8
}

/// The distance between two files or two ranks.
pub open spec fn gap(a: int, b: int) -> int {
    if a < b {
        b - a
    } else {
        a - b
    }
}

/// A white pawn on `s` may be pushed to `t`, were the squares empty: one rank up,
/// or two from its home rank.
pub open spec fn white_pawn_step(s: int, t: int) -> bool {
    rank_of(s) < 7 && (t == s + 8 || (rank_of(s) == 1 && t == s + 16))
}

/// A white pawn on `s` attacks `t`: one rank up, one file aside.
pub open spec fn white_pawn_attack(s: int, t: int) -> bool {
    rank_of(t) == rank_of(s) + 1 && gap(file_of(s), file_of(t)) == 1
}

/// A black pawn on `s` may be pushed to `t`, were the squares empty: one rank down,
/// or two from its home rank.
pub open spec fn black_pawn_step(s: int, t: int) -> bool {
    rank_of(s) > 0 && (t == s - 8 || (rank_of(s) == 6 && t == s - 16))
}

/// A black pawn on `s` attacks `t`: one rank down, one file aside.
pub open spec fn black_pawn_attack(s: int, t: int) -> bool {
    rank_of(t) == rank_of(s) - 1 && gap(file_of(s), file_of(t)) == 1
}

/// `t` is another square on the file or the rank of `s`.
pub open spec fn rook_line(s: int, t: int) -> bool {
    s != t && (file_of(s) == file_of(t) || rank_of(s) == rank_of(t))
}

/// `t` is another square on a diagonal of `s`.
pub open spec fn bishop_line(s: int, t: int) -> bool {
    s != t && (file_of(s) - rank_of(s) == file_of(t) - rank_of(t) || file_of(s) + rank_of(s)
        == file_of(t) + rank_of(t))
}

/// `t` is another square on the file, the rank or a diagonal of `s`.
pub open spec fn queen_line(s: int, t: int) -> bool {
    rook_line(s, t) || bishop_line(s, t)
}

/// `t` is next to `s`.
pub open spec fn king_step(s: int, t: int) -> bool {
    s != t && gap(file_of(s), file_of(t)) < 2 && gap(rank_of(s), rank_of(t)) < 2
}

/// `t` is a knight's jump away from `s`.
pub open spec fn knight_step(s: int, t: int) -> bool {
    gap(file_of(s), file_of(t)) + gap(rank_of(s), rank_of(t)) == 3 && file_of(s) != file_of(t)
        && rank_of(s) != rank_of(t)
}

/// `t` is not on an edge of the board that `s` is off: such squares are those
/// whose occupancy decides how far a slider on `s` reaches.
pub open spec fn off_far_edges(s: int, t: int) -> bool {
    &&& file_of(s) > 0 ==> file_of(t) > 0
    &&& file_of(s) < 7 ==> file_of(t) < 7
    &&& rank_of(s) > 0 ==> rank_of(t) > 0
    &&& rank_of(s) < 7 ==> rank_of(t) < 7
}

/// The squares on the lines of a rook on `s` whose occupancy matters.
pub open spec fn rook_relevant(s: int, t: int) -> bool {
    rook_line(s, t) && off_far_edges(s, t)
}

/// The squares on the lines of a bishop on `s` whose occupancy matters.
pub open spec fn bishop_relevant(s: int, t: int) -> bool {
    bishop_line(s, t) && off_far_edges(s, t)
}

/// The board `b` holds exactly the squares `t` of the board with `rel(s, t)`.
pub open spec fn holds_targets(b: u64, s: int, rel: spec_fn(int, int) -> bool) -> bool {
    forall|t: int| #[trigger] has_square(b, t) == (0 <= t < 64 && rel(s, t))
}

/// Entry `s` of the table holds exactly the squares `t` with `rel(s, t)`, for
/// every square `s`.
pub open spec fn table_holds(tab: [u64; 64], rel: spec_fn(int, int) -> bool) -> bool {
    forall|s: int| 0 <= s < 64 ==> holds_targets(#[trigger] tab[s], s, rel)
}

/// There is one board that holds exactly the squares `t` with `rel(s, t)`: two
/// functions that both promise such a board return the same board. So the lookup
/// in the tables of `Magic` and the walk along the rays agree on every square and
/// every occupancy.
pub proof fn lemma_targets_unique(a: u64, b: u64, s: int, rel: spec_fn(int, int) -> bool)
    requires
        holds_targets(a, s, rel),
        holds_targets(b, s, rel),
    ensures
        a == b,
{
    lemma_board_ext(a, b);
}

/// The attack and move masks of every piece on every square, on an empty board.
pub struct PieceMoveProvider {
    pub black_pawn_move: [BBoard; 64],
    pub black_pawn_capture: [BBoard; 64],
    pub white_pawn_move: [BBoard; 64],
    pub white_pawn_capture: [BBoard; 64],
    pub rook_move: [BBoard; 64],
    pub knight_move: [BBoard; 64],
    pub bishop_move: [BBoard; 64],
    pub queen_move: [BBoard; 64],
    pub king_move: [BBoard; 64],
    pub inner_rook_attack_bits: [BBoard; 64],
    pub inner_bishop_attack_bits: [BBoard; 64],
}

impl PieceMoveProvider {
    /// Every table holds what its name says.
    pub open spec fn wf(&self) -> bool {
        &&& table_holds(self.black_pawn_move, |s: int, t: int| black_pawn_step(s, t))
        &&& table_holds(self.black_pawn_capture, |s: int, t: int| black_pawn_attack(s, t))
        &&& table_holds(self.white_pawn_move, |s: int, t: int| white_pawn_step(s, t))
        &&& table_holds(self.white_pawn_capture, |s: int, t: int| white_pawn_attack(s, t))
        &&& table_holds(self.rook_move, |s: int, t: int| rook_line(s, t))
        &&& table_holds(self.knight_move, |s: int, t: int| knight_step(s, t))
        &&& table_holds(self.bishop_move, |s: int, t: int| bishop_line(s, t))
        &&& table_holds(self.queen_move, |s: int, t: int| queen_line(s, t))
        &&& table_holds(self.king_move, |s: int, t: int| king_step(s, t))
        &&& table_holds(self.inner_rook_attack_bits, |s: int, t: int| rook_relevant(s, t))
        &&& table_holds(self.inner_bishop_attack_bits, |s: int, t: int| bishop_relevant(s, t))
    }

    /// Computes all the tables.
    pub fn new() -> (r: PieceMoveProvider)
        ensures
            r.wf(),
    {
        let bishop = generate_moves(bishop_move);
        let rook = generate_moves(rook_move);
        let inner = inner_bits(&bishop, &rook);
        PieceMoveProvider {
            black_pawn_move: generate_moves(black_pawn_move),
            black_pawn_capture: generate_moves(black_pawn_capture),
            white_pawn_move: generate_moves(white_pawn_move),
            white_pawn_capture: generate_moves(white_pawn_capture),
            rook_move: rook,
            knight_move: generate_moves(knight_move),
            bishop_move: bishop,
            queen_move: generate_moves(queen_move),
            king_move: generate_moves(king_move),
            inner_rook_attack_bits: inner.1,
            inner_bishop_attack_bits: inner.0,
        }
    }
}

pub const LEFT_BORDER: u64 = 0x0101010101010101u64;

pub const RIGHT_BORDER: u64 = 0x8080808080808080u64;

pub const TOP_BORDER: u64 = 0xff00000000000000u64;

pub const BOTTOM_BORDER: u64 = 0x00000000000000ffu64;

/// The four border boards hold the squares of file `a`, file `h`, rank 8 and rank 1.
pub proof fn lemma_borders(t: int)
    requires
        0 <= t < 64,
    ensures
        has_square(LEFT_BORDER, t) == (file_of(t) == 0),
        has_square(RIGHT_BORDER, t) == (file_of(t) == 7),
        has_square(TOP_BORDER, t) == (rank_of(t) == 7),
        has_square(BOTTOM_BORDER, t) == (rank_of(t) == 0),
{
    let i = t as u64;
    assert({
        &&& ((0x0101010101010101u64 >> i) & 1 == 1) == (i % 8 == 0)
        &&& ((0x8080808080808080u64 >> i) & 1 == 1) == (i % 8 == 7)
        &&& ((0xff00000000000000u64 >> i) & 1 == 1) == (i / 8 == 7)
        &&& ((0x00000000000000ffu64 >> i) & 1 == 1) == (i / 8 == 0)
    }) by (bit_vector)
        requires
            i < 64,
    ;
}

/// The masks of the squares whose occupancy matters to a bishop and to a rook, from
/// the masks of their lines: a line's squares but those on an edge that the slider's
/// own square is off.
pub fn inner_bits(bishop_moves: &[BBoard; 64], rook_moves: &[BBoard; 64]) -> (r: (
    [BBoard; 64],
    [BBoard; 64],
))
    requires
        table_holds(*bishop_moves, |s: int, t: int| bishop_line(s, t)),
        table_holds(*rook_moves, |s: int, t: int| rook_line(s, t)),
    ensures
        table_holds(r.0, |s: int, t: int| bishop_relevant(s, t)),
        table_holds(r.1, |s: int, t: int| rook_relevant(s, t)),
{
    let mut r_bishop: [u64; 64] = [0;64];
    let mut r_rook: [u64; 64] = [0;64];
    let mut i: usize = 0;
    while i < 64
        invariant
            0 <= i <= 64,
            table_holds(*bishop_moves, |s: int, t: int| bishop_line(s, t)),
            table_holds(*rook_moves, |s: int, t: int| rook_line(s, t)),
            forall|s: int|
                0 <= s < i ==> holds_targets(
                    #[trigger] r_bishop[s],
                    s,
                    |s: int, t: int| bishop_relevant(s, t),
                ),
            forall|s: int|
                0 <= s < i ==> holds_targets(
                    #[trigger] r_rook[s],
                    s,
                    |s: int, t: int| rook_relevant(s, t),
                ),
        decreases 64 - i,
    {
        let mut bboard = bishop_moves[i];
        let mut rboard = rook_moves[i];
        let x = i % 8;
        let y = i / 8;
        if x > 0 {
            bboard = bboard & !LEFT_BORDER;
            rboard = rboard & !LEFT_BORDER;
        }
        if x < 7 {
            bboard = bboard & !RIGHT_BORDER;
            rboard = rboard & !RIGHT_BORDER;
        }
        if y > 0 {
            bboard = bboard & !BOTTOM_BORDER;
            rboard = rboard & !BOTTOM_BORDER;
        }
        if y < 7 {
            bboard = bboard & !TOP_BORDER;
            rboard = rboard & !TOP_BORDER;
        }
        proof {
            broadcast use group_has_square;

            assert(holds_targets(bishop_moves[i as int], i as int, |s: int, t: int| bishop_line(s, t)));
            assert(holds_targets(rook_moves[i as int], i as int, |s: int, t: int| rook_line(s, t)));
            assert forall|t: int| #[trigger]
                has_square(bboard, t) == (0 <= t < 64 && bishop_relevant(i as int, t)) by {
                if 0 <= t < 64 {
                    lemma_borders(t);
                }
            }
            assert forall|t: int| #[trigger]
                has_square(rboard, t) == (0 <= t < 64 && rook_relevant(i as int, t)) by {
                if 0 <= t < 64 {
                    lemma_borders(t);
                }
            }
        }
        r_rook[i] = rboard;
        r_bishop[i] = bboard;
        i += 1;
    }
    (r_bishop, r_rook)
}

/// The table whose entry for each square is what `func` returns for that square.
pub fn generate_moves(func: impl Fn(u8) -> BBoard) -> (r: [BBoard; 64])
    requires
        forall|i: u8| i < 64 ==> call_requires(func, (i,)),
    ensures
        forall|i: u8| i < 64 ==> call_ensures(func, (i,), #[trigger] r[i as int]),
{
    let mut result: [u64; 64] = [0u64;64];
    let mut i: u8 = 0;
    while i < 64
        invariant
            0 <= i <= 64,
            forall|i: u8| i < 64 ==> call_requires(func, (i,)),
            forall|j: u8| j < i ==> call_ensures(func, (j,), #[trigger] result[j as int]),
        decreases 64 - i,
    {
        result[i as usize] = func(i);
        i += 1;
    }
    result
}

/// The squares to which a black pawn on `idx` may be pushed, were they empty.
pub fn black_pawn_move(idx: u8) -> (r: BBoard)
    requires
        idx < 64,
    ensures
        holds_targets(r, idx as int, |s: int, t: int| black_pawn_step(s, t)),
{
    broadcast use group_has_square;

    if idx < 8 {
        return 0u64;
    }
    let mut result = 1u64 << ((idx - 8) as u64);
    assert(result == square_bit(idx - 8));
    if idx / 8 == 6 {
        result = result | (1u64 << ((idx - 16) as u64));
        assert(result == square_bit(idx - 8) | square_bit(idx - 16));
    }
    result
}

/// The squares that a black pawn on `idx` attacks.
pub fn black_pawn_capture(idx: u8) -> (r: BBoard)
    requires
        idx < 64,
    ensures
        holds_targets(r, idx as int, |s: int, t: int| black_pawn_attack(s, t)),
{
    broadcast use group_has_square;

    if idx < 8 {
        return 0u64;
    }
    let mut result: u64 = 0;
    if idx % 8 > 0 {
        result = result | (1u64 << ((idx - 9) as u64));
        assert(result == 0u64 | square_bit(idx - 9));
    }
    let ghost left = result;
    if idx % 8 < 7 {
        result = result | (1u64 << ((idx - 7) as u64));
        assert(result == left | square_bit(idx - 7));
    }
    result
}

/// The squares to which a white pawn on `idx` may be pushed, were they empty.
pub fn white_pawn_move(idx: u8) -> (r: BBoard)
    requires
        idx < 64,
    ensures
        holds_targets(r, idx as int, |s: int, t: int| white_pawn_step(s, t)),
{
    broadcast use group_has_square;

    if idx > 55 {
        return 0u64;
    }
    let mut result = 1u64 << ((idx + 8) as u64);
    assert(result == square_bit(idx + 8));
    if idx / 8 == 1 {
        result = result | (1u64 << ((idx + 16) as u64));
        assert(result == square_bit(idx + 8) | square_bit(idx + 16));
    }
    result
}

/// The squares that a white pawn on `idx` attacks.
pub fn white_pawn_capture(idx: u8) -> (r: BBoard)
    requires
        idx < 64,
    ensures
        holds_targets(r, idx as int, |s: int, t: int| white_pawn_attack(s, t)),
{
    broadcast use group_has_square;

    if idx > 55 {
        return 0u64;
    }
    let mut result: u64 = 0;
    if idx % 8 > 0 {
        result = result | (1u64 << ((idx + 7) as u64));
        assert(result == 0u64 | square_bit(idx + 7));
    }
    let ghost left = result;
    if idx % 8 < 7 {
        result = result | (1u64 << ((idx + 9) as u64));
        assert(result == left | square_bit(idx + 9));
    }
    result
}


/// The other squares on the file and the rank of `idx`.
pub fn rook_move(idx: u8) -> (r: BBoard)
    requires
        idx < 64,
    ensures
        holds_targets(r, idx as int, |s: int, t: int| rook_line(s, t)),
{
    broadcast use group_has_square;

    let x1: i32 = (idx % 8) as i32;
    let y1: i32 = (idx / 8) as i32;
    let mut result: u64 = 0u64;
    let mut i: u8 = 0;
    while i < 64
        invariant
            0 <= i <= 64,
            idx < 64,
            x1 == file_of(idx as int),
            y1 == rank_of(idx as int),
            forall|t: int| #[trigger]
                has_square(result, t) == (0 <= t < i && rook_line(idx as int, t)),
        decreases 64 - i,
    {
        broadcast use group_has_square;

        let x2: i32 = (i % 8) as i32;
        let y2: i32 = (i / 8) as i32;
        let dx: i32 = if x1 < x2 {
            x2 - x1
        } else {
            x1 - x2
        };
        let dy: i32 = if y1 < y2 {
            y2 - y1
        } else {
            y1 - y2
        };
        if idx != i && (x1 == x2 || y1 == y2) {
            let ghost before = result;
            result = result | (1u64 << (i as u64));
            assert(result == before | square_bit(i as int));
        }
        i += 1;
    }
    result
}

/// The other squares on the diagonals of `idx`.
pub fn bishop_move(idx: u8) -> (r: BBoard)
    requires
        idx < 64,
    ensures
        holds_targets(r, idx as int, |s: int, t: int| bishop_line(s, t)),
{
    broadcast use group_has_square;

    let x1: i32 = (idx % 8) as i32;
    let y1: i32 = (idx / 8) as i32;
    let mut result: u64 = 0u64;
    let mut i: u8 = 0;
    while i < 64
        invariant
            0 <= i <= 64,
            idx < 64,
            x1 == file_of(idx as int),
            y1 == rank_of(idx as int),
            forall|t: int| #[trigger]
                has_square(result, t) == (0 <= t < i && bishop_line(idx as int, t)),
        decreases 64 - i,
    {
        broadcast use group_has_square;

        let x2: i32 = (i % 8) as i32;
        let y2: i32 = (i / 8) as i32;
        let dx: i32 = if x1 < x2 {
            x2 - x1
        } else {
            x1 - x2
        };
        let dy: i32 = if y1 < y2 {
            y2 - y1
        } else {
            y1 - y2
        };
        if idx != i && (x1 - y1 == x2 - y2 || x1 + y1 == x2 + y2) {
            let ghost before = result;
            result = result | (1u64 << (i as u64));
            assert(result == before | square_bit(i as int));
        }
        i += 1;
    }
    result
}

/// The other squares on the file, the rank and the diagonals of `idx`.
pub fn queen_move(idx: u8) -> (r: BBoard)
    requires
        idx < 64,
    ensures
        holds_targets(r, idx as int, |s: int, t: int| queen_line(s, t)),
{
    broadcast use group_has_square;

    let x1: i32 = (idx % 8) as i32;
    let y1: i32 = (idx / 8) as i32;
    let mut result: u64 = 0u64;
    let mut i: u8 = 0;
    while i < 64
        invariant
            0 <= i <= 64,
            idx < 64,
            x1 == file_of(idx as int),
            y1 == rank_of(idx as int),
            forall|t: int| #[trigger]
                has_square(result, t) == (0 <= t < i && queen_line(idx as int, t)),
        decreases 64 - i,
    {
        broadcast use group_has_square;

        let x2: i32 = (i % 8) as i32;
        let y2: i32 = (i / 8) as i32;
        let dx: i32 = if x1 < x2 {
            x2 - x1
        } else {
            x1 - x2
        };
        let dy: i32 = if y1 < y2 {
            y2 - y1
        } else {
            y1 - y2
        };
        if idx != i && (x1 == x2 || y1 == y2 || x1 - y1 == x2 - y2 || x1 + y1 == x2 + y2) {
            let ghost before = result;
            result = result | (1u64 << (i as u64));
            assert(result == before | square_bit(i as int));
        }
        i += 1;
    }
    result
}

/// The squares next to `idx`.
pub fn king_move(idx: u8) -> (r: BBoard)
    requires
        idx < 64,
    ensures
        holds_targets(r, idx as int, |s: int, t: int| king_step(s, t)),
{
    broadcast use group_has_square;

    let x1: i32 = (idx % 8) as i32;
    let y1: i32 = (idx / 8) as i32;
    let mut result: u64 = 0u64;
    let mut i: u8 = 0;
    while i < 64
        invariant
            0 <= i <= 64,
            idx < 64,
            x1 == file_of(idx as int),
            y1 == rank_of(idx as int),
            forall|t: int| #[trigger]
                has_square(result, t) == (0 <= t < i && king_step(idx as int, t)),
        decreases 64 - i,
    {
        broadcast use group_has_square;

        let x2: i32 = (i % 8) as i32;
        let y2: i32 = (i / 8) as i32;
        let dx: i32 = if x1 < x2 {
            x2 - x1
        } else {
            x1 - x2
        };
        let dy: i32 = if y1 < y2 {
            y2 - y1
        } else {
            y1 - y2
        };
        if idx != i && (dx < 2 && dy < 2) {
            let ghost before = result;
            result = result | (1u64 << (i as u64));
            assert(result == before | square_bit(i as int));
        }
        i += 1;
    }
    result
}

/// The squares a knight's jump away from `idx`.
pub fn knight_move(idx: u8) -> (r: BBoard)
    requires
        idx < 64,
    ensures
        holds_targets(r, idx as int, |s: int, t: int| knight_step(s, t)),
{
    broadcast use group_has_square;

    let x1: i32 = (idx % 8) as i32;
    let y1: i32 = (idx / 8) as i32;
    let mut result: u64 = 0u64;
    let mut i: u8 = 0;
    while i < 64
        invariant
            0 <= i <= 64,
            idx < 64,
            x1 == file_of(idx as int),
            y1 == rank_of(idx as int),
            forall|t: int| #[trigger]
                has_square(result, t) == (0 <= t < i && knight_step(idx as int, t)),
        decreases 64 - i,
    {
        broadcast use group_has_square;

        let x2: i32 = (i % 8) as i32;
        let y2: i32 = (i / 8) as i32;
        let dx: i32 = if x1 < x2 {
            x2 - x1
        } else {
            x1 - x2
        };
        let dy: i32 = if y1 < y2 {
            y2 - y1
        } else {
            y1 - y2
        };
        if idx != i && (dx + dy == 3 && dx > 0 && dy > 0) {
            let ghost before = result;
            result = result | (1u64 << (i as u64));
            assert(result == before | square_bit(i as int));
        }
        i += 1;
    }
    result
}

} // verus!
