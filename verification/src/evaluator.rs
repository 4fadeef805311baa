//! The static value of a position: material and bonuses for where the pieces
//! stand, and the laws of symmetry and of the loss of a piece.
use crate::bboard::{
    BBoard, count_below, group_has_square, has_square, last_bit, lemma_count_remove,
    lemma_lowest_square, lowest_square, remove_last_bit, square_bit, square_count,
};
use crate::move_generator::{lemma_scan_end, lemma_scan_step};
use crate::state::{ChessState, Position, Side};
use vstd::prelude::*;
use vstd::wrapping::u64_specs::wrapping_mul;

verus! {

/// A bonus for each square of the board.
pub type Scores = [i32; 64];

/// The bonus of Black for a pawn on each square.
pub open spec fn black_pawn_table() -> Seq<i32> {
    seq![
        0i32, 0i32, 0i32, 0i32, 0i32, 0i32, 0i32, 0i32,
        50i32, 50i32, 50i32, 50i32, 50i32, 50i32, 50i32, 50i32,
        10i32, 10i32, 20i32, 30i32, 30i32, 20i32, 10i32, 10i32,
        5i32, 5i32, 10i32, 25i32, 25i32, 10i32, 5i32, 5i32,
        0i32, 0i32, 0i32, 20i32, 20i32, 0i32, 0i32, 0i32,
        5i32, -5i32, -10i32, 0i32, 0i32, -10i32, -5i32, 5i32,
        5i32, 10i32, 10i32, -20i32, -20i32, 10i32, 10i32, 5i32,
        0i32, 0i32, 0i32, 0i32, 0i32, 0i32, 0i32, 0i32,
    ]
}

/// The bonus of Black for a knight on each square.
pub open spec fn black_knight_table() -> Seq<i32> {
    seq![
        -50i32, -40i32, -30i32, -30i32, -30i32, -30i32, -40i32, -50i32,
        -40i32, -20i32, 0i32, 0i32, 0i32, 0i32, -20i32, -40i32,
        -30i32, 0i32, 10i32, 15i32, 15i32, 10i32, 0i32, -30i32,
        -30i32, 5i32, 15i32, 20i32, 20i32, 15i32, 5i32, -30i32,
        -30i32, 0i32, 15i32, 20i32, 20i32, 15i32, 0i32, -30i32,
        -30i32, 5i32, 10i32, 15i32, 15i32, 10i32, 5i32, -30i32,
        -40i32, -20i32, 0i32, 5i32, 5i32, 0i32, -20i32, -40i32,
        -50i32, -40i32, -30i32, -30i32, -30i32, -30i32, -40i32, -50i32,
    ]
}

/// The bonus of Black for a bishop on each square.
pub open spec fn black_bishop_table() -> Seq<i32> {
    seq![
        -20i32, -10i32, -10i32, -10i32, -10i32, -10i32, -10i32, -20i32,
        -10i32, 0i32, 0i32, 0i32, 0i32, 0i32, 0i32, -10i32,
        -10i32, 0i32, 5i32, 10i32, 10i32, 5i32, 0i32, -10i32,
        -10i32, 5i32, 5i32, 10i32, 10i32, 5i32, 5i32, -10i32,
        -10i32, 0i32, 10i32, 10i32, 10i32, 10i32, 0i32, -10i32,
        -10i32, 10i32, 10i32, 10i32, 10i32, 10i32, 10i32, -10i32,
        -10i32, 5i32, 0i32, 0i32, 0i32, 0i32, 5i32, -10i32,
        -20i32, -10i32, -10i32, -10i32, -10i32, -10i32, -10i32, -20i32,
    ]
}

/// The bonus of Black for a rook on each square.
pub open spec fn black_rook_table() -> Seq<i32> {
    seq![
        0i32, 0i32, 0i32, 0i32, 0i32, 0i32, 0i32, 0i32,
        5i32, 10i32, 10i32, 10i32, 10i32, 10i32, 10i32, 5i32,
        -5i32, 0i32, 0i32, 0i32, 0i32, 0i32, 0i32, -5i32,
        -5i32, 0i32, 0i32, 0i32, 0i32, 0i32, 0i32, -5i32,
        -5i32, 0i32, 0i32, 0i32, 0i32, 0i32, 0i32, -5i32,
        -5i32, 0i32, 0i32, 0i32, 0i32, 0i32, 0i32, -5i32,
        -5i32, 0i32, 0i32, 0i32, 0i32, 0i32, 0i32, -5i32,
        0i32, 0i32, 0i32, 5i32, 5i32, 0i32, 0i32, 0i32,
    ]
}

/// The bonus of Black for a queen on each square.
pub open spec fn black_queen_table() -> Seq<i32> {
    seq![
        -20i32, -10i32, -10i32, -5i32, -5i32, -10i32, -10i32, -20i32,
        -10i32, 0i32, 0i32, 0i32, 0i32, 0i32, 0i32, -10i32,
        -10i32, 0i32, 5i32, 5i32, 5i32, 5i32, 0i32, -10i32,
        -5i32, 0i32, 5i32, 5i32, 5i32, 5i32, 0i32, -5i32,
        0i32, 0i32, 5i32, 5i32, 5i32, 5i32, 0i32, -5i32,
        -10i32, 5i32, 5i32, 5i32, 5i32, 5i32, 0i32, -10i32,
        -10i32, 0i32, 5i32, 0i32, 0i32, 0i32, 0i32, -10i32,
        -20i32, -10i32, -10i32, -5i32, -5i32, -10i32, -10i32, -20i32,
    ]
}

/// The bonus of Black for the king in the middle game on each square.
pub open spec fn black_king_table() -> Seq<i32> {
    seq![
        -30i32, -40i32, -40i32, -50i32, -50i32, -40i32, -40i32, -30i32,
        -30i32, -40i32, -40i32, -50i32, -50i32, -40i32, -40i32, -30i32,
        -30i32, -40i32, -40i32, -50i32, -50i32, -40i32, -40i32, -30i32,
        -30i32, -40i32, -40i32, -50i32, -50i32, -40i32, -40i32, -30i32,
        -20i32, -30i32, -30i32, -40i32, -40i32, -30i32, -30i32, -20i32,
        -10i32, -20i32, -20i32, -20i32, -20i32, -20i32, -20i32, -10i32,
        20i32, 20i32, 0i32, 0i32, 0i32, 0i32, 20i32, 20i32,
        20i32, 30i32, 10i32, 0i32, 0i32, 10i32, 30i32, 20i32,
    ]
}

/// The bonus of Black for the king in the end game on each square.
pub open spec fn black_king_end_table() -> Seq<i32> {
    seq![
        -50i32, -40i32, -30i32, -20i32, -20i32, -30i32, -40i32, -50i32,
        -30i32, -20i32, -10i32, 0i32, 0i32, -10i32, -20i32, -30i32,
        -30i32, -10i32, 20i32, 30i32, 30i32, 20i32, -10i32, -30i32,
        -30i32, -10i32, 30i32, 40i32, 40i32, 30i32, -10i32, -30i32,
        -30i32, -10i32, 30i32, 40i32, 40i32, 30i32, -10i32, -30i32,
        -30i32, -10i32, 20i32, 30i32, 30i32, 20i32, -10i32, -30i32,
        -30i32, -30i32, 0i32, 0i32, 0i32, 0i32, -30i32, -30i32,
        -50i32, -30i32, -30i32, -30i32, -30i32, -30i32, -30i32, -50i32,
    ]
}

/// The square with the same file on the rank that is as far from the other edge.
pub open spec fn flip_square(s: int) -> int {
    (7 - s / 8) * 8 + s % 8
}

/// The table seen from the other side of the board: the bonus of each square is
/// that of the square with the same file on the mirrored rank.
pub open spec fn flipped(tab: Seq<i32>) -> Seq<i32> {
    Seq::new(64, |s: int| tab[flip_square(s)])
}

/// Every bonus of the table is small enough for sixty-four of them to be added up.
pub open spec fn small_scores(tab: Seq<i32>) -> bool {
    tab.len() == 64 && forall|i: int| 0 <= i < 64 ==> -1000 <= #[trigger] tab[i] <= 1000
}

/// The bonus of square `s`, if it belongs to the board.
pub open spec fn cell(tab: Seq<i32>, b: u64, s: int) -> int {
    if has_square(b, s) {
        tab[s] as int
    } else {
        0
    }
}

/// The sum of the bonuses of the squares of the board below `n`.
pub open spec fn score_below(tab: Seq<i32>, b: u64, n: int) -> int
    decreases n,
{
    if n <= 0 {
        0
    } else {
        score_below(tab, b, n - 1) + cell(tab, b, n - 1)
    }
}

/// The sum of the bonuses of the squares of the board.
pub open spec fn board_score(tab: Seq<i32>, b: u64) -> int {
    score_below(tab, b, 64)
}

/// The material value of a piece of each kind, by its place among a side's
/// boards: king, pawn, rook, knight, bishop, queen.
pub open spec fn kind_value(kind: int) -> int {
    if kind == 0 {
        40000
    } else if kind == 1 {
        100
    } else if kind == 2 {
        500
    } else if kind == 3 {
        320
    } else if kind == 4 {
        330
    } else if kind == 5 {
        900
    } else {
        0
    }
}

/// The material of `side`: the values of all its pieces.
pub open spec fn side_material(st: Position, side: Side) -> int {
    (square_count(st.of(side, 0)) * 40000 + square_count(st.of(side, 1)) * 100 + square_count(
        st.of(side, 2),
    ) * 500 + square_count(st.of(side, 3)) * 320 + square_count(st.of(side, 4)) * 330
        + square_count(st.of(side, 5)) * 900) as int
}

/// Whether the end game has begun: the rooks and queens of both sides together are
/// worth less than 1800. The threshold is a choice of this evaluation.
pub open spec fn is_end_game(st: Position) -> bool {
    (square_count(st.boards[2]) + square_count(st.boards[11])) * 500 + (square_count(
        st.boards[5],
    ) + square_count(st.boards[14])) * 900 < 1800
}

/// The table of Black for the kind of piece at place `kind` among a side's boards.
pub open spec fn black_table(kind: int, end_game: bool) -> Seq<i32> {
    if kind == 0 {
        if end_game {
            black_king_end_table()
        } else {
            black_king_table()
        }
    } else if kind == 1 {
        black_pawn_table()
    } else if kind == 2 {
        black_rook_table()
    } else if kind == 3 {
        black_knight_table()
    } else if kind == 4 {
        black_bishop_table()
    } else {
        black_queen_table()
    }
}

/// The table of `side` for a kind of piece: Black's as given, White's mirrored.
pub open spec fn side_table(side: Side, kind: int, end_game: bool) -> Seq<i32> {
    match side {
        Side::Black => black_table(kind, end_game),
        Side::White => flipped(black_table(kind, end_game)),
    }
}

/// The bonuses of `side` for where its pieces stand.
pub open spec fn side_placement(st: Position, side: Side) -> int {
    let e = is_end_game(st);
    board_score(side_table(side, 0, e), st.of(side, 0)) + board_score(
        side_table(side, 1, e),
        st.of(side, 1),
    ) + board_score(side_table(side, 2, e), st.of(side, 2)) + board_score(
        side_table(side, 3, e),
        st.of(side, 3),
    ) + board_score(side_table(side, 4, e), st.of(side, 4)) + board_score(
        side_table(side, 5, e),
        st.of(side, 5),
    )
}

/// The score of `side`: its material and the bonuses for where its pieces stand.
pub open spec fn side_score(st: Position, side: Side) -> int {
    side_material(st, side) + side_placement(st, side)
}

/// The value of a position: White's score less Black's.
pub open spec fn evaluation(st: Position) -> int {
    side_score(st, Side::White) - side_score(st, Side::Black)
}

/// The bonus of Black for a pawn on each square.
pub fn black_pawn_scores() -> (r: Scores)
    ensures
        r@ == black_pawn_table(),
        small_scores(r@),
{
    let r: Scores = [
        0, 0, 0, 0, 0, 0, 0, 0,
        50, 50, 50, 50, 50, 50, 50, 50,
        10, 10, 20, 30, 30, 20, 10, 10,
        5, 5, 10, 25, 25, 10, 5, 5,
        0, 0, 0, 20, 20, 0, 0, 0,
        5, -5, -10, 0, 0, -10, -5, 5,
        5, 10, 10, -20, -20, 10, 10, 5,
        0, 0, 0, 0, 0, 0, 0, 0,
    ];
    assert(r@ =~= black_pawn_table());
    r
}

/// The bonus of Black for a knight on each square.
pub fn black_knight_scores() -> (r: Scores)
    ensures
        r@ == black_knight_table(),
        small_scores(r@),
{
    let r: Scores = [
        -50, -40, -30, -30, -30, -30, -40, -50,
        -40, -20, 0, 0, 0, 0, -20, -40,
        -30, 0, 10, 15, 15, 10, 0, -30,
        -30, 5, 15, 20, 20, 15, 5, -30,
        -30, 0, 15, 20, 20, 15, 0, -30,
        -30, 5, 10, 15, 15, 10, 5, -30,
        -40, -20, 0, 5, 5, 0, -20, -40,
        -50, -40, -30, -30, -30, -30, -40, -50,
    ];
    assert(r@ =~= black_knight_table());
    r
}

/// The bonus of Black for a bishop on each square.
pub fn black_bishop_scores() -> (r: Scores)
    ensures
        r@ == black_bishop_table(),
        small_scores(r@),
{
    let r: Scores = [
        -20, -10, -10, -10, -10, -10, -10, -20,
        -10, 0, 0, 0, 0, 0, 0, -10,
        -10, 0, 5, 10, 10, 5, 0, -10,
        -10, 5, 5, 10, 10, 5, 5, -10,
        -10, 0, 10, 10, 10, 10, 0, -10,
        -10, 10, 10, 10, 10, 10, 10, -10,
        -10, 5, 0, 0, 0, 0, 5, -10,
        -20, -10, -10, -10, -10, -10, -10, -20,
    ];
    assert(r@ =~= black_bishop_table());
    r
}

/// The bonus of Black for a rook on each square.
pub fn black_rook_scores() -> (r: Scores)
    ensures
        r@ == black_rook_table(),
        small_scores(r@),
{
    let r: Scores = [
        0, 0, 0, 0, 0, 0, 0, 0,
        5, 10, 10, 10, 10, 10, 10, 5,
        -5, 0, 0, 0, 0, 0, 0, -5,
        -5, 0, 0, 0, 0, 0, 0, -5,
        -5, 0, 0, 0, 0, 0, 0, -5,
        -5, 0, 0, 0, 0, 0, 0, -5,
        -5, 0, 0, 0, 0, 0, 0, -5,
        0, 0, 0, 5, 5, 0, 0, 0,
    ];
    assert(r@ =~= black_rook_table());
    r
}

/// The bonus of Black for a queen on each square.
pub fn black_queen_scores() -> (r: Scores)
    ensures
        r@ == black_queen_table(),
        small_scores(r@),
{
    let r: Scores = [
        -20, -10, -10, -5, -5, -10, -10, -20,
        -10, 0, 0, 0, 0, 0, 0, -10,
        -10, 0, 5, 5, 5, 5, 0, -10,
        -5, 0, 5, 5, 5, 5, 0, -5,
        0, 0, 5, 5, 5, 5, 0, -5,
        -10, 5, 5, 5, 5, 5, 0, -10,
        -10, 0, 5, 0, 0, 0, 0, -10,
        -20, -10, -10, -5, -5, -10, -10, -20,
    ];
    assert(r@ =~= black_queen_table());
    r
}

/// The bonus of Black for the king in the middle game on each square.
pub fn black_king_scores() -> (r: Scores)
    ensures
        r@ == black_king_table(),
        small_scores(r@),
{
    let r: Scores = [
        -30, -40, -40, -50, -50, -40, -40, -30,
        -30, -40, -40, -50, -50, -40, -40, -30,
        -30, -40, -40, -50, -50, -40, -40, -30,
        -30, -40, -40, -50, -50, -40, -40, -30,
        -20, -30, -30, -40, -40, -30, -30, -20,
        -10, -20, -20, -20, -20, -20, -20, -10,
        20, 20, 0, 0, 0, 0, 20, 20,
        20, 30, 10, 0, 0, 10, 30, 20,
    ];
    assert(r@ =~= black_king_table());
    r
}

/// The bonus of Black for the king in the end game on each square.
pub fn black_king_end_scores() -> (r: Scores)
    ensures
        r@ == black_king_end_table(),
        small_scores(r@),
{
    let r: Scores = [
        -50, -40, -30, -20, -20, -30, -40, -50,
        -30, -20, -10, 0, 0, -10, -20, -30,
        -30, -10, 20, 30, 30, 20, -10, -30,
        -30, -10, 30, 40, 40, 30, -10, -30,
        -30, -10, 30, 40, 40, 30, -10, -30,
        -30, -10, 20, 30, 30, 20, -10, -30,
        -30, -30, 0, 0, 0, 0, -30, -30,
        -50, -30, -30, -30, -30, -30, -30, -50,
    ];
    assert(r@ =~= black_king_end_table());
    r
}

/// The table seen from the other side of the board.
pub fn flip_scores(s: &Scores) -> (r: Scores)
    ensures
        r@ == flipped(s@),
        small_scores(s@) ==> small_scores(r@),
{
    let mut result: Scores = [0i32;64];
    let mut i: usize = 0;
    while i < 64
        invariant
            0 <= i <= 64,
            forall|j: int| 0 <= j < i ==> #[trigger] result@[j] == s@[flip_square(j)],
        decreases 64 - i,
    {
        result[i] = s[(7 - i / 8) * 8 + i % 8];
        i += 1;
    }
    assert(result@ =~= flipped(s@));
    result
}

/// Where the index of each single square is found from the top six bits of its
/// product with the multiplier of `bit_scan_forward`: the entry at `scan_index(s)`
/// is `s`, for every square `s`.
fn index_64() -> (r: [i32; 64])
    ensures
        r@ == index_table(),
        forall|s: int|
            0 <= s < 64 ==> 0 <= #[trigger] scan_index(s) < 64 && r@[scan_index(s)] == s,
{
    let r: [i32; 64] = [
        63, 0, 58, 1, 59, 47, 53, 2, 60, 39, 48, 27, 54, 33, 42, 3, 61, 51, 37, 40, 49, 18, 28, 20,
        55, 30, 34, 11, 43, 14, 22, 4, 62, 57, 46, 52, 38, 26, 32, 41, 50, 36, 17, 19, 29, 10, 13,
        21, 56, 45, 25, 31, 35, 16, 9, 12, 44, 24, 15, 8, 23, 7, 6, 5,
    ];
    proof {
        assert(r@ =~= index_table());
        assert forall|s: int| 0 <= s < 64 implies 0 <= #[trigger] scan_index(s) < 64
            && r@[scan_index(s)] == s by {
            lemma_scan_index(s);
        }
    }
    r
}

/// The multiplier of `bit_scan_forward`: the sixty-four windows of six bits of its
/// binary notation are all different.
pub const SCAN_MULTIPLIER: u64 = 0x07EDD5E59A4E28C2u64;

/// The top six bits of the product of the board of the single square `s` with the
/// multiplier.
pub open spec fn scan_index(s: int) -> int {
    (wrapping_mul(square_bit(s), SCAN_MULTIPLIER) >> 58u64) as int
}

/// The square whose board gives each index; read the other way, the index that
/// each square gives.
pub open spec fn index_table() -> Seq<i32> {
    seq![
        63i32, 0i32, 58i32, 1i32, 59i32, 47i32, 53i32, 2i32, 60i32, 39i32, 48i32, 27i32,
        54i32, 33i32, 42i32, 3i32, 61i32, 51i32, 37i32, 40i32, 49i32, 18i32, 28i32, 20i32,
        55i32, 30i32, 34i32, 11i32, 43i32, 14i32, 22i32, 4i32, 62i32, 57i32, 46i32, 52i32,
        38i32, 26i32, 32i32, 41i32, 50i32, 36i32, 17i32, 19i32, 29i32, 10i32, 13i32, 21i32,
        56i32, 45i32, 25i32, 31i32, 35i32, 16i32, 9i32, 12i32, 44i32, 24i32, 15i32, 8i32,
        23i32, 7i32, 6i32, 5i32,
    ]
}

/// The index that each square gives.
pub open spec fn scan_index_table() -> Seq<int> {
    seq![
        1int, 3int, 7int, 15int, 31int, 63int, 62int, 61int, 59int, 54int, 45int, 27int,
        55int, 46int, 29int, 58int, 53int, 42int, 21int, 43int, 23int, 47int, 30int, 60int,
        57int, 50int, 37int, 11int, 22int, 44int, 25int, 51int, 38int, 13int, 26int, 52int,
        41int, 18int, 36int, 9int, 19int, 39int, 14int, 28int, 56int, 49int, 34int, 5int,
        10int, 20int, 40int, 17int, 35int, 6int, 12int, 24int, 48int, 33int, 2int, 4int,
        8int, 16int, 32int, 0int,
    ]
}

/// The board of every single square gives the index at which the table holds the
/// square.
pub proof fn lemma_scan_index(s: int)
    requires
        0 <= s < 64,
    ensures
        scan_index(s) == scan_index_table()[s],
        0 <= scan_index(s) < 64,
        index_table()[scan_index(s)] == s,
{
    let i = s as u64;
    let b = 1u64 << i;
    let m = wrapping_mul(b, SCAN_MULTIPLIER);
    assert(m == (b * 0x07EDD5E59A4E28C2u64) % 0x1_0000_0000_0000_0000);
    assert({
        &&& i == 0 ==> m >> 58u64 == 1
        &&& i == 1 ==> m >> 58u64 == 3
        &&& i == 2 ==> m >> 58u64 == 7
        &&& i == 3 ==> m >> 58u64 == 15
        &&& i == 4 ==> m >> 58u64 == 31
        &&& i == 5 ==> m >> 58u64 == 63
        &&& i == 6 ==> m >> 58u64 == 62
        &&& i == 7 ==> m >> 58u64 == 61
        &&& i == 8 ==> m >> 58u64 == 59
        &&& i == 9 ==> m >> 58u64 == 54
        &&& i == 10 ==> m >> 58u64 == 45
        &&& i == 11 ==> m >> 58u64 == 27
        &&& i == 12 ==> m >> 58u64 == 55
        &&& i == 13 ==> m >> 58u64 == 46
        &&& i == 14 ==> m >> 58u64 == 29
        &&& i == 15 ==> m >> 58u64 == 58
        &&& i == 16 ==> m >> 58u64 == 53
        &&& i == 17 ==> m >> 58u64 == 42
        &&& i == 18 ==> m >> 58u64 == 21
        &&& i == 19 ==> m >> 58u64 == 43
        &&& i == 20 ==> m >> 58u64 == 23
        &&& i == 21 ==> m >> 58u64 == 47
        &&& i == 22 ==> m >> 58u64 == 30
        &&& i == 23 ==> m >> 58u64 == 60
        &&& i == 24 ==> m >> 58u64 == 57
        &&& i == 25 ==> m >> 58u64 == 50
        &&& i == 26 ==> m >> 58u64 == 37
        &&& i == 27 ==> m >> 58u64 == 11
        &&& i == 28 ==> m >> 58u64 == 22
        &&& i == 29 ==> m >> 58u64 == 44
        &&& i == 30 ==> m >> 58u64 == 25
        &&& i == 31 ==> m >> 58u64 == 51
        &&& i == 32 ==> m >> 58u64 == 38
        &&& i == 33 ==> m >> 58u64 == 13
        &&& i == 34 ==> m >> 58u64 == 26
        &&& i == 35 ==> m >> 58u64 == 52
        &&& i == 36 ==> m >> 58u64 == 41
        &&& i == 37 ==> m >> 58u64 == 18
        &&& i == 38 ==> m >> 58u64 == 36
        &&& i == 39 ==> m >> 58u64 == 9
        &&& i == 40 ==> m >> 58u64 == 19
        &&& i == 41 ==> m >> 58u64 == 39
        &&& i == 42 ==> m >> 58u64 == 14
        &&& i == 43 ==> m >> 58u64 == 28
        &&& i == 44 ==> m >> 58u64 == 56
        &&& i == 45 ==> m >> 58u64 == 49
        &&& i == 46 ==> m >> 58u64 == 34
        &&& i == 47 ==> m >> 58u64 == 5
        &&& i == 48 ==> m >> 58u64 == 10
        &&& i == 49 ==> m >> 58u64 == 20
        &&& i == 50 ==> m >> 58u64 == 40
        &&& i == 51 ==> m >> 58u64 == 17
        &&& i == 52 ==> m >> 58u64 == 35
        &&& i == 53 ==> m >> 58u64 == 6
        &&& i == 54 ==> m >> 58u64 == 12
        &&& i == 55 ==> m >> 58u64 == 24
        &&& i == 56 ==> m >> 58u64 == 48
        &&& i == 57 ==> m >> 58u64 == 33
        &&& i == 58 ==> m >> 58u64 == 2
        &&& i == 59 ==> m >> 58u64 == 4
        &&& i == 60 ==> m >> 58u64 == 8
        &&& i == 61 ==> m >> 58u64 == 16
        &&& i == 62 ==> m >> 58u64 == 32
        &&& i == 63 ==> m >> 58u64 == 0
    }) by (bit_vector)
        requires
            i < 64,
            b == 1u64 << i,
            m == (b * 0x07EDD5E59A4E28C2u64) % 0x1_0000_0000_0000_0000,
    ;
}

/// The index of the lowest square of a board that is not empty. The index of a
/// single square is looked up from its product with a multiplier; what the table
/// gives is checked against the board, and any other board is scanned.
pub fn bit_scan_forward(bb: u64) -> (r: i32)
    requires
        bb != 0,
    ensures
        r == lowest_square(bb),
        0 <= r < 64,
{
    proof {
        lemma_lowest_square(bb);
    }
    let mul = bb.wrapping_mul(0x07EDD5E59A4E28C2u64);
    let idx = (mul >> 58u64) as usize;
    assert(mul >> 58u64 < 64) by (bit_vector);
    let table = index_64();
    let found = table[idx];
    if 0 <= found && found < 64 && 1u64 << (found as u64) == bb {
        proof {
            broadcast use group_has_square;

            lemma_lowest_square(square_bit(found as int));
            assert(has_square(bb, found as int));
            assert(has_square(bb, lowest_square(bb)));
        }
        found
    } else {
        bb.trailing_zeros() as i32
    }
}

/// Squares that are not on the board add nothing to the sum.
pub proof fn lemma_score_skip(tab: Seq<i32>, b: u64, lo: int, hi: int)
    requires
        0 <= lo <= hi,
        forall|t: int| lo <= t < hi ==> !has_square(b, t),
    ensures
        score_below(tab, b, hi) == score_below(tab, b, lo),
    decreases hi - lo,
{
    if lo < hi {
        lemma_score_skip(tab, b, lo, hi - 1);
    }
}

/// The sum of small bonuses is not large.
pub proof fn lemma_score_bound(tab: Seq<i32>, b: u64, n: int)
    requires
        small_scores(tab),
        0 <= n <= 64,
    ensures
        -1000 * n <= score_below(tab, b, n) <= 1000 * n,
    decreases n,
{
    if n > 0 {
        lemma_score_bound(tab, b, n - 1);
    }
}

/// The sums of the bonuses of the squares of the board, taken square by square,
/// all fit in thirty-two bits.
pub open spec fn sums_fit(tab: Seq<i32>, b: u64) -> bool {
    forall|n: int| 0 <= n <= 64 ==> i32::MIN <= #[trigger] score_below(tab, b, n) <= i32::MAX
}

/// Small bonuses give sums that fit.
pub proof fn lemma_small_sums_fit(tab: Seq<i32>, b: u64)
    requires
        small_scores(tab),
    ensures
        sums_fit(tab, b),
{
    assert forall|n: int| 0 <= n <= 64 implies i32::MIN <= #[trigger] score_below(tab, b, n)
        <= i32::MAX by {
        lemma_score_bound(tab, b, n);
    }
}

/// The sum of the bonuses of `scores` over the squares of `board`.
pub fn position_to_score(scores: &Scores, board: BBoard) -> (r: i32)
    requires
        sums_fit(scores@, board),
    ensures
        r == board_score(scores@, board),
{
    let mut result: i32 = 0;
    let mut rest = board;
    let ghost mut cur: int = 0;
    while rest != 0
        invariant
            sums_fit(scores@, board),
            0 <= cur <= 64,
            forall|t: int| has_square(rest, t) == (has_square(board, t) && cur <= t),
            result == score_below(scores@, board, cur),
        decreases rest,
    {
        proof {
            lemma_scan_step(board, rest, cur);
            lemma_score_skip(scores@, board, cur, lowest_square(rest));
            assert(i32::MIN <= score_below(scores@, board, lowest_square(rest) + 1) <= i32::MAX);
        }
        let bit = last_bit(rest);
        let idx = bit_scan_forward(bit) as usize;
        result += scores[idx];
        rest = remove_last_bit(rest);
        proof {
            cur = idx + 1;
        }
    }
    proof {
        lemma_scan_end(board, cur);
        lemma_score_skip(scores@, board, cur, 64);
    }
    result
}


/// A board has at most sixty-four squares.
pub proof fn lemma_count_bound(b: u64, n: int)
    requires
        0 <= n,
    ensures
        count_below(b, n) <= n,
    decreases n,
{
    if n > 0 {
        lemma_count_bound(b, n - 1);
    }
}

/// The material of the pieces of one kind: their number times the value of one.
fn material_of(board: BBoard, value: i32) -> (r: i32)
    requires
        0 <= value <= 40000,
    ensures
        r == square_count(board) * value,
        0 <= r <= 64 * value,
{
    proof {
        lemma_count_bound(board, 64);
    }
    let n = board.count_ones() as i32;
    assert(0 <= n * value <= 64 * value) by (nonlinear_arith)
        requires
            0 <= n <= 64,
            0 <= value <= 40000,
    ;
    n * value
}

/// The table of `side` for the kind of piece at place `kind` among a side's boards.
fn table_for(side: Side, kind: usize, end_game: bool) -> (r: Scores)
    requires
        kind < 6,
    ensures
        r@ == side_table(side, kind as int, end_game),
        small_scores(r@),
{
    let black = if kind == 0 {
        if end_game {
            black_king_end_scores()
        } else {
            black_king_scores()
        }
    } else if kind == 1 {
        black_pawn_scores()
    } else if kind == 2 {
        black_rook_scores()
    } else if kind == 3 {
        black_knight_scores()
    } else if kind == 4 {
        black_bishop_scores()
    } else {
        black_queen_scores()
    };
    match side {
        Side::White => flip_scores(&black),
        Side::Black => black,
    }
}

/// The bonus of `side` for where its pieces of one kind stand.
fn placement_of(state: &ChessState, side: Side, kind: usize, end_game: bool) -> (r: i32)
    requires
        kind < 6,
    ensures
        r == board_score(side_table(side, kind as int, end_game), state@.of(side, kind as int)),
        -64000 <= r <= 64000,
{
    let table = table_for(side, kind, end_game);
    proof {
        lemma_score_bound(table@, state@.of(side, kind as int), 64);
        lemma_small_sums_fit(table@, state@.of(side, kind as int));
    }
    position_to_score(&table, state.bboards[side.offset() + kind])
}

/// The score of one side: its material, and the bonuses for where its pieces stand.
fn score_of(state: &ChessState, side: Side, end_game: bool) -> (r: i32)
    requires
        end_game == is_end_game(state@),
    ensures
        r == side_score(state@, side),
        -400000 <= r <= 3100000,
{
    let o = side.offset();
    let material = material_of(state.bboards[o], 40000) + material_of(state.bboards[o + 1], 100)
        + material_of(state.bboards[o + 2], 500) + material_of(state.bboards[o + 3], 320)
        + material_of(state.bboards[o + 4], 330) + material_of(state.bboards[o + 5], 900);
    let placement = placement_of(state, side, 0, end_game) + placement_of(state, side, 1, end_game)
        + placement_of(state, side, 2, end_game) + placement_of(state, side, 3, end_game)
        + placement_of(state, side, 4, end_game) + placement_of(state, side, 5, end_game);
    material + placement
}

/// The value of the position, from White's point of view: for each side the
/// material of its pieces and the bonuses for where they stand, White's less
/// Black's. The king's bonus is taken from its end-game table once the rooks and
/// queens on the board are worth less than 1800 together.
pub fn evaluate_position(state: &ChessState) -> (r: i32)
    ensures
        r == evaluation(state@),
        -3500000 <= r <= 3500000,
{
    let heavy = material_of(state.bboards[2], 500) + material_of(state.bboards[11], 500)
        + material_of(state.bboards[5], 900) + material_of(state.bboards[14], 900);
    let end_game = heavy < 1800;
    let w = score_of(state, Side::White, end_game);
    let b = score_of(state, Side::Black, end_game);
    w - b
}


/// The board with its ranks in the opposite order: rank 1 becomes rank 8 and so on,
/// and every square keeps its file.
pub open spec fn flip_ranks(b: u64) -> u64 {
    ((b & 0xff) << 56) | ((b & 0xff00) << 40) | ((b & 0xff0000) << 24) | ((b & 0xff000000) << 8)
        | ((b >> 8) & 0xff000000) | ((b >> 24) & 0xff0000) | ((b >> 40) & 0xff00) | ((b >> 56)
        & 0xff)
}

/// The position seen from the other side of the board: the colours are swapped and
/// the ranks are in the opposite order.
pub open spec fn mirrored(p: Position) -> Position {
    Position {
        side: p.side.other(),
        boards: Seq::new(18, |i: int| flip_ranks(p.boards[(i + 9) % 18])),
        half_moves: p.half_moves,
        full_moves: p.full_moves,
    }
}

/// The squares of the flipped board are the flipped squares of the board.
pub proof fn lemma_flip_ranks(b: u64, s: int)
    requires
        0 <= s < 64,
    ensures
        has_square(flip_ranks(b), s) == has_square(b, flip_square(s)),
        0 <= flip_square(s) < 64,
        flip_square(flip_square(s)) == s,
{
    let i = s as u64;
    let j = flip_square(s) as u64;
    let f = flip_ranks(b);
    assert(j == i ^ 56) by (bit_vector)
        requires
            i < 64,
            j == (7 - i / 8) * 8 + i % 8,
    ;
    assert(((f >> i) & 1 == 1) == ((b >> j) & 1 == 1)) by (bit_vector)
        requires
            i < 64,
            j == i ^ 56,
            f == ((b & 0xff) << 56) | ((b & 0xff00) << 40) | ((b & 0xff0000) << 24) | ((b
                & 0xff000000) << 8) | ((b >> 8) & 0xff000000) | ((b >> 24) & 0xff0000) | ((b >> 40)
                & 0xff00) | ((b >> 56) & 0xff),
    ;
}

/// The sum of the bonuses of the squares of one rank.
pub open spec fn rank_score(tab: Seq<i32>, b: u64, y: int) -> int {
    cell(tab, b, 8 * y) + cell(tab, b, 8 * y + 1) + cell(tab, b, 8 * y + 2) + cell(
        tab,
        b,
        8 * y + 3,
    ) + cell(tab, b, 8 * y + 4) + cell(tab, b, 8 * y + 5) + cell(tab, b, 8 * y + 6) + cell(
        tab,
        b,
        8 * y + 7,
    )
}

/// The sum over the board is the sum of the sums over its ranks.
pub proof fn lemma_score_by_ranks(tab: Seq<i32>, b: u64)
    ensures
        board_score(tab, b) == rank_score(tab, b, 0) + rank_score(tab, b, 1) + rank_score(
            tab,
            b,
            2,
        ) + rank_score(tab, b, 3) + rank_score(tab, b, 4) + rank_score(tab, b, 5) + rank_score(
            tab,
            b,
            6,
        ) + rank_score(tab, b, 7),
{
    lemma_rank_split(tab, b, 0);
    lemma_rank_split(tab, b, 1);
    lemma_rank_split(tab, b, 2);
    lemma_rank_split(tab, b, 3);
    lemma_rank_split(tab, b, 4);
    lemma_rank_split(tab, b, 5);
    lemma_rank_split(tab, b, 6);
    lemma_rank_split(tab, b, 7);
}

/// The sum up to the end of a rank is the sum up to its start and the sum over it.
proof fn lemma_rank_split(tab: Seq<i32>, b: u64, y: int)
    requires
        0 <= y < 8,
    ensures
        score_below(tab, b, 8 * (y + 1)) == score_below(tab, b, 8 * y) + rank_score(tab, b, y),
{
    reveal_with_fuel(score_below, 9);
}

/// Flipping both the table and the board leaves the sum as it is.
pub proof fn lemma_score_flipped(tab: Seq<i32>, b: u64)
    requires
        tab.len() == 64,
    ensures
        board_score(flipped(tab), flip_ranks(b)) == board_score(tab, b),
        board_score(tab, flip_ranks(b)) == board_score(flipped(tab), b),
{
    let ft = flipped(tab);
    let fb = flip_ranks(b);
    assert forall|s: int| 0 <= s < 64 implies cell(ft, fb, s) == cell(tab, b, flip_square(s))
        && cell(tab, fb, s) == cell(ft, b, flip_square(s)) by {
        lemma_flip_ranks(b, s);
    }
    assert forall|y: int| 0 <= y < 8 implies rank_score(ft, fb, y) == rank_score(tab, b, 7 - y)
        && rank_score(tab, fb, y) == rank_score(ft, b, 7 - y) by {
        assert(flip_square(8 * y) == 8 * (7 - y));
        assert(flip_square(8 * y + 1) == 8 * (7 - y) + 1);
        assert(flip_square(8 * y + 2) == 8 * (7 - y) + 2);
        assert(flip_square(8 * y + 3) == 8 * (7 - y) + 3);
        assert(flip_square(8 * y + 4) == 8 * (7 - y) + 4);
        assert(flip_square(8 * y + 5) == 8 * (7 - y) + 5);
        assert(flip_square(8 * y + 6) == 8 * (7 - y) + 6);
        assert(flip_square(8 * y + 7) == 8 * (7 - y) + 7);
    }
    lemma_score_by_ranks(ft, fb);
    lemma_score_by_ranks(tab, b);
    lemma_score_by_ranks(tab, fb);
    lemma_score_by_ranks(ft, b);
}

/// The table that gives every square the bonus one.
pub open spec fn ones() -> Seq<i32> {
    Seq::new(64, |i: int| 1i32)
}

/// The number of squares is the sum of the bonuses of the table of ones.
pub proof fn lemma_count_is_score(b: u64, n: int)
    requires
        0 <= n <= 64,
    ensures
        count_below(b, n) == score_below(ones(), b, n),
    decreases n,
{
    if n > 0 {
        lemma_count_is_score(b, n - 1);
    }
}

/// Two tables with the same bonuses give the same sums.
pub proof fn lemma_score_same_table(t1: Seq<i32>, t2: Seq<i32>, b: u64, n: int)
    requires
        0 <= n <= 64,
        forall|i: int| 0 <= i < 64 ==> t1[i] == t2[i],
    ensures
        score_below(t1, b, n) == score_below(t2, b, n),
    decreases n,
{
    if n > 0 {
        lemma_score_same_table(t1, t2, b, n - 1);
    }
}

/// A flipped board has as many squares as the board.
pub proof fn lemma_count_flipped(b: u64)
    ensures
        square_count(flip_ranks(b)) == square_count(b),
{
    let fb = flip_ranks(b);
    lemma_count_is_score(b, 64);
    lemma_count_is_score(fb, 64);
    lemma_score_flipped(ones(), b);
    assert forall|i: int| 0 <= i < 64 implies flipped(ones())[i] == ones()[i] by {
        lemma_flip_ranks(b, i);
    }
    lemma_score_same_table(flipped(ones()), ones(), fb, 64);
}

/// The evaluation is symmetric: the position with the colours swapped and the
/// ranks in the opposite order is worth as much to Black as the position is to
/// White.
pub proof fn lemma_evaluation_mirrored(p: Position)
    requires
        p.boards.len() == 18,
    ensures
        evaluation(mirrored(p)) == -evaluation(p),
{
    let m = mirrored(p);
    lemma_count_flipped(p.boards[0]);
    lemma_count_flipped(p.boards[1]);
    lemma_count_flipped(p.boards[2]);
    lemma_count_flipped(p.boards[3]);
    lemma_count_flipped(p.boards[4]);
    lemma_count_flipped(p.boards[5]);
    lemma_count_flipped(p.boards[9]);
    lemma_count_flipped(p.boards[10]);
    lemma_count_flipped(p.boards[11]);
    lemma_count_flipped(p.boards[12]);
    lemma_count_flipped(p.boards[13]);
    lemma_count_flipped(p.boards[14]);
    assert(side_material(m, Side::White) == side_material(p, Side::Black));
    assert(side_material(m, Side::Black) == side_material(p, Side::White));
    let e = is_end_game(p);
    assert(is_end_game(m) == e);
    assert forall|kind: int| 0 <= kind < 6 implies board_score(
        side_table(Side::White, kind, e),
        m.of(Side::White, kind),
    ) == board_score(side_table(Side::Black, kind, e), p.of(Side::Black, kind)) && board_score(
        side_table(Side::Black, kind, e),
        m.of(Side::Black, kind),
    ) == board_score(side_table(Side::White, kind, e), p.of(Side::White, kind)) by {
        let t = black_table(kind, e);
        lemma_score_flipped(t, p.boards[9 + kind]);
        lemma_score_flipped(t, p.boards[kind]);
    }
    assert(side_placement(m, Side::White) == side_placement(p, Side::Black));
    assert(side_placement(m, Side::Black) == side_placement(p, Side::White));
}


/// Every bonus of the table is between -50 and 50.
pub open spec fn modest_scores(tab: Seq<i32>) -> bool {
    tab.len() == 64 && forall|i: int| 0 <= i < 64 ==> -50 <= #[trigger] tab[i] <= 50
}

/// The bonuses of all the tables are between -50 and 50: less than any piece is
/// worth.
pub proof fn lemma_tables_modest(side: Side, kind: int, end_game: bool)
    ensures
        modest_scores(side_table(side, kind, end_game)),
{
    let t = black_table(kind, end_game);
    assert(modest_scores(black_pawn_table()));
    assert(modest_scores(black_rook_table()));
    assert(modest_scores(black_knight_table()));
    assert(modest_scores(black_bishop_table()));
    assert(modest_scores(black_queen_table()));
    assert(modest_scores(black_king_table()));
    assert(modest_scores(black_king_end_table()));
    assert forall|i: int| 0 <= i < 64 implies -50 <= #[trigger] flipped(t)[i] <= 50 by {
        assert(0 <= flip_square(i) < 64);
    }
}

/// The sum of modest bonuses is at most fifty for each square of the board.
pub proof fn lemma_score_modest(tab: Seq<i32>, b: u64, n: int)
    requires
        modest_scores(tab),
        0 <= n <= 64,
    ensures
        -50 * count_below(b, n) <= score_below(tab, b, n) <= 50 * count_below(b, n),
    decreases n,
{
    if n > 0 {
        lemma_score_modest(tab, b, n - 1);
    }
}

/// Taking one square out of a board takes its bonus out of the sum.
pub proof fn lemma_score_remove(tab: Seq<i32>, b: u64, k: int, n: int)
    requires
        0 <= k < 64,
        has_square(b, k),
        0 <= n <= 64,
    ensures
        score_below(tab, b & !square_bit(k), n) == score_below(tab, b, n) - if k < n {
            tab[k] as int
        } else {
            0int
        },
    decreases n,
{
    broadcast use group_has_square;

    if n > 0 {
        lemma_score_remove(tab, b, k, n - 1);
    }
}

/// The position without the piece of `side` of the kind at place `kind` that
/// stands on square `s`.
pub open spec fn without_piece(p: Position, side: Side, kind: int, s: int) -> Position {
    Position {
        boards: p.boards.update(side.base() + kind, p.of(side, kind) & !square_bit(s)).update(
            side.base() + 6,
            p.of(side, 6) & !square_bit(s),
        ),
        ..p
    }
}

/// Taking a piece of a side off the board lowers the material of that side by the
/// value of the piece.
pub proof fn lemma_material_without_piece(p: Position, side: Side, kind: int, s: int)
    requires
        p.boards.len() == 18,
        0 <= kind < 6,
        0 <= s < 64,
        has_square(p.of(side, kind), s),
    ensures
        side_material(without_piece(p, side, kind, s), side) == side_material(p, side)
            - kind_value(kind),
        side_material(without_piece(p, side, kind, s), side) < side_material(p, side),
{
    lemma_count_remove(p.of(side, kind), s, 64);
}

/// Taking a piece of a side off the board never raises the score of that side, for
/// a side with at most one king: what the piece was worth is more than any bonus
/// for where it stood and any change of the king's bonus from the middle game to the
/// end game.
pub proof fn lemma_score_without_piece(p: Position, side: Side, kind: int, s: int)
    requires
        p.boards.len() == 18,
        0 <= kind < 6,
        0 <= s < 64,
        has_square(p.of(side, kind), s),
        square_count(p.of(side, 0)) <= 1,
    ensures
        side_score(without_piece(p, side, kind, s), side) < side_score(p, side),
{
    let q = without_piece(p, side, kind, s);
    let e = is_end_game(p);
    let f = is_end_game(q);
    lemma_material_without_piece(p, side, kind, s);
    lemma_count_remove(p.of(side, kind), s, 64);
    assert forall|k: int| 0 <= k < 6 implies #[trigger] board_score(
        side_table(side, k, f),
        q.of(side, k),
    ) <= board_score(side_table(side, k, e), p.of(side, k)) + if k == kind {
        50int
    } else if k == 0 && e != f {
        100int
    } else {
        0int
    } by {
        lemma_tables_modest(side, k, e);
        lemma_tables_modest(side, k, f);
        lemma_score_modest(side_table(side, k, e), p.of(side, k), 64);
        lemma_score_modest(side_table(side, k, f), q.of(side, k), 64);
        if k == kind {
            lemma_score_remove(side_table(side, k, f), p.of(side, k), s, 64);
            lemma_score_modest(side_table(side, k, f), p.of(side, k), 64);
        }
    }
    if e != f {
        assert(kind == 2 || kind == 5);
    }
    assert(board_score(side_table(side, 0, f), q.of(side, 0)) <= board_score(
        side_table(side, 0, e),
        p.of(side, 0),
    ) + 100);
}

} // verus!
