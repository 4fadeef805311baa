//! Boards of sixty-four squares as words of sixty-four bits, and what the bit
//! operations on them mean for their squares.
use vstd::prelude::*;
use vstd::std_specs::bits::{axiom_u64_trailing_zeros, u64_trailing_zeros};

verus! {

/// A set of squares of the board, one bit per square: bit `i` stands for square `i`,
/// where a square's index is its file (0 is file `a`) plus eight times its rank
/// (0 is rank 1).
pub type BBoard = u64;

/// Whether square `s` belongs to the board `b`.
pub open spec fn has_square(b: u64, s: int) -> bool {
    0 <= s < 64 && (b >> (s as u64)) & 1 == 1
}

/// The board that holds square `s` and nothing else.
pub open spec fn square_bit(s: int) -> u64
    recommends
        0 <= s < 64,
{
    1u64 << (s as u64)
}

/// The index of the square with file `x` and rank `y`.
pub open spec fn square_at(x: int, y: int) -> int {
    y * 8 + x
}

/// Whether file `x` and rank `y` name a square of the board.
pub open spec fn on_board(x: int, y: int) -> bool {
    0 <= x < 8 && 0 <= y < 8
}

/// The lowest square of `b`, or 64 when `b` is empty.
pub open spec fn lowest_square(b: u64) -> int {
    u64_trailing_zeros(b) as int
}

/// How many of the squares below `n` belong to `b`.
pub open spec fn count_below(b: u64, n: int) -> nat
    decreases n,
{
    if n <= 0 {
        0
    } else {
        count_below(b, n - 1) + if has_square(b, n - 1) {
            1nat
        } else {
            0nat
        }
    }
}

/// How many squares belong to `b`.
pub open spec fn square_count(b: u64) -> nat {
    count_below(b, 64)
}

/// Whether `b` holds exactly the square `s`.
pub open spec fn is_single(b: u64, s: int) -> bool {
    0 <= s < 64 && b == square_bit(s)
}

pub broadcast proof fn lemma_has_or(a: u64, b: u64, s: int)
    ensures
        #[trigger] has_square(a | b, s) == (has_square(a, s) || has_square(b, s)),
{
    if 0 <= s < 64 {
        let i = s as u64;
        assert(((a | b) >> i) & 1 == ((a >> i) & 1) | ((b >> i) & 1)) by (bit_vector);
        let p = (a >> i) & 1;
        let q = (b >> i) & 1;
        assert((p | q == 1) == (p == 1 || q == 1)) by (bit_vector)
            requires
                p == (a >> i) & 1,
                q == (b >> i) & 1,
        ;
    }
}

pub broadcast proof fn lemma_has_and(a: u64, b: u64, s: int)
    ensures
        #[trigger] has_square(a & b, s) == (has_square(a, s) && has_square(b, s)),
{
    if 0 <= s < 64 {
        let i = s as u64;
        assert((((a & b) >> i) & 1 == 1) == (((a >> i) & 1 == 1) && ((b >> i) & 1 == 1)))
            by (bit_vector);
    }
}

pub broadcast proof fn lemma_has_xor(a: u64, b: u64, s: int)
    ensures
        #[trigger] has_square(a ^ b, s) == (has_square(a, s) != has_square(b, s)),
{
    if 0 <= s < 64 {
        let i = s as u64;
        assert((((a ^ b) >> i) & 1 == 1) == (((a >> i) & 1 == 1) != ((b >> i) & 1 == 1)))
            by (bit_vector);
    }
}

pub broadcast proof fn lemma_has_not(a: u64, s: int)
    ensures
        #[trigger] has_square(!a, s) == (0 <= s < 64 && !has_square(a, s)),
{
    if 0 <= s < 64 {
        let i = s as u64;
        assert((((!a) >> i) & 1 == 1) == !((a >> i) & 1 == 1)) by (bit_vector)
            requires
                i < 64,
        ;
    }
}

pub broadcast proof fn lemma_has_square_bit(t: int, s: int)
    requires
        0 <= t < 64,
    ensures
        #[trigger] has_square(square_bit(t), s) == (s == t),
{
    if 0 <= s < 64 {
        let i = s as u64;
        let j = t as u64;
        assert((((1u64 << j) >> i) & 1 == 1) == (i == j)) by (bit_vector)
            requires
                i < 64,
                j < 64,
        ;
    }
}

pub broadcast proof fn lemma_has_zero(s: int)
    ensures
        !#[trigger] has_square(0u64, s),
{
    if 0 <= s < 64 {
        let i = s as u64;
        assert((0u64 >> i) & 1 == 0) by (bit_vector);
    }
}

/// Shifting a board left by eight moves every square up one rank.
pub broadcast proof fn lemma_has_shl8(a: u64, s: int)
    ensures
        #[trigger] has_square(a << 8, s) == (8 <= s < 64 && has_square(a, s - 8)),
{
    if 0 <= s < 64 {
        let i = s as u64;
        assert((((a << 8) >> i) & 1 == 1) == (i >= 8 && (a >> ((i - 8) as u64)) & 1 == 1))
            by (bit_vector)
            requires
                i < 64,
        ;
    }
}

/// Shifting a board right by eight moves every square down one rank.
pub broadcast proof fn lemma_has_shr8(a: u64, s: int)
    ensures
        #[trigger] has_square(a >> 8, s) == (0 <= s < 56 && has_square(a, s + 8)),
{
    if 0 <= s < 64 {
        let i = s as u64;
        assert((((a >> 8) >> i) & 1 == 1) == (i < 56 && (a >> ((i + 8) as u64)) & 1 == 1))
            by (bit_vector)
            requires
                i < 64,
        ;
    }
}

pub broadcast group group_has_square {
    lemma_has_or,
    lemma_has_and,
    lemma_has_xor,
    lemma_has_not,
    lemma_has_square_bit,
    lemma_has_zero,
    lemma_has_shl8,
    lemma_has_shr8,
}

/// A non-empty board has a lowest square, and no square lies below it.
pub proof fn lemma_lowest_square(b: u64)
    ensures
        b == 0 <==> lowest_square(b) == 64,
        0 <= lowest_square(b) <= 64,
        b != 0 ==> has_square(b, lowest_square(b)),
        forall|s: int| 0 <= s < lowest_square(b) ==> !has_square(b, s),
{
    axiom_u64_trailing_zeros(b);
    let l = u64_trailing_zeros(b);
    assert forall|s: int| 0 <= s < lowest_square(b) implies !has_square(b, s) by {
        let j = s as u64;
        assert((b >> j) & 1u64 == 0u64);
    }
}

/// Two boards with the same squares are the same board.
pub proof fn lemma_board_ext(a: u64, b: u64)
    requires
        forall|s: int| 0 <= s < 64 ==> has_square(a, s) == has_square(b, s),
    ensures
        a == b,
{
    let d = a ^ b;
    if d != 0 {
        lemma_lowest_square(d);
        lemma_has_xor(a, b, lowest_square(d));
        assert(false);
    }
    assert(a == b) by (bit_vector)
        requires
            a ^ b == 0,
    ;
}

/// A board with no square is zero.
pub proof fn lemma_board_empty(a: u64)
    requires
        forall|s: int| 0 <= s < 64 ==> !has_square(a, s),
    ensures
        a == 0,
{
    broadcast use lemma_has_zero;

    lemma_board_ext(a, 0);
}


/// What the two's-complement tricks on the lowest square compute: for a non-empty
/// board `b` with lowest square `k`, where `n` is the negation of `b` modulo 2^64.
proof fn lemma_low_bit_ops(b: u64, n: u64, k: u64)
    requires
        b != 0,
        n + b == 0x1_0000_0000_0000_0000,
        k == lowest_square(b),
    ensures
        b & n == 1u64 << k,
        b & ((b - 1) as u64) == b & !(1u64 << k),
{
    axiom_u64_trailing_zeros(b);
    let z = (64 - k) as u64;
    assert(b & n == 1u64 << k && b & ((b - 1) as u64) == b & !(1u64 << k)) by (bit_vector)
        requires
            b != 0,
            n + b == 0x1_0000_0000_0000_0000,
            k < 64,
            z == 64 - k,
            (b >> k) & 1 == 1,
            b << z == 0,
    ;
}

/// Testing a square by masking is the same as testing it by shifting.
pub proof fn lemma_mask_test(b: u64, s: int)
    requires
        0 <= s < 64,
    ensures
        (b & square_bit(s) > 0) == has_square(b, s),
{
    let i = s as u64;
    assert((b & (1u64 << i) > 0) == ((b >> i) & 1 == 1)) by (bit_vector)
        requires
            i < 64,
    ;
}

/// The number of set bits, as `u64::count_ones` of the standard library returns it:
/// the number of squares of the board.
pub assume_specification[ u64::count_ones ](b: u64) -> (r: u32)
    ensures
        r == square_count(b),
;

/// `String::push` of the standard library appends one character.
pub assume_specification[ String::push ](s: &mut String, c: char)
    ensures
        final(s)@ == old(s)@.push(c),
;

/// The board that holds only the lowest square of `b`; empty when `b` is empty.
pub fn last_bit(b: BBoard) -> (r: BBoard)
    ensures
        b == 0 ==> r == 0,
        b != 0 ==> r == square_bit(lowest_square(b)),
{
    let n = 0u64.wrapping_sub(b);
    proof {
        if b != 0 {
            lemma_lowest_square(b);
            lemma_low_bit_ops(b, n, lowest_square(b) as u64);
        } else {
            assert(b & n == 0) by (bit_vector)
                requires
                    b == 0,
            ;
        }
    }
    b & n
}

/// The board `b` without its lowest square.
pub fn remove_last_bit(b: BBoard) -> (r: BBoard)
    requires
        b != 0,
    ensures
        r == b & !square_bit(lowest_square(b)),
{
    proof {
        lemma_lowest_square(b);
        lemma_low_bit_ops(b, (0x1_0000_0000_0000_0000 - b) as u64, lowest_square(b) as u64);
    }
    b & (b - 1)
}

/// The index of the lowest square of a non-empty board.
pub fn square_index(b: BBoard) -> (r: usize)
    requires
        b != 0,
    ensures
        r == lowest_square(b),
        r < 64,
        has_square(b, r as int),
{
    proof {
        lemma_lowest_square(b);
    }
    b.trailing_zeros() as usize
}

/// The number of squares of a board.
pub fn pop_count(b: BBoard) -> (r: u32)
    ensures
        r == square_count(b),
{
    b.count_ones()
}

/// The board that holds only the square with file `x` and rank `y`.
pub fn bb_coord(x: u8, y: u8) -> (r: BBoard)
    requires
        x < 8,
        y < 8,
    ensures
        r == square_bit(square_at(x as int, y as int)),
{
    1u64 << ((y * 8 + x) as u64)
}

/// As `bb_coord`, but for any pair of integers: the empty board when the pair
/// names no square.
pub fn bb_coord_q(x: i32, y: i32) -> (r: BBoard)
    ensures
        on_board(x as int, y as int) ==> r == square_bit(square_at(x as int, y as int)),
        !on_board(x as int, y as int) ==> r == 0,
{
    if x > 7 || x < 0 {
        return 0;
    }
    if y > 7 || y < 0 {
        return 0;
    }
    1u64 << ((y * 8 + x) as u64)
}

/// Whether the pair names a square and that square belongs to the board.
pub fn bb_get_q(board: BBoard, x: i32, y: i32) -> (r: bool)
    ensures
        r == (on_board(x as int, y as int) && has_square(board, square_at(x as int, y as int))),
{
    if x > 7 || x < 0 {
        return false;
    }
    if y > 7 || y < 0 {
        return false;
    }
    proof {
        lemma_mask_test(board, square_at(x as int, y as int));
    }
    board & (1u64 << ((y * 8 + x) as u64)) > 0
}

/// Adds the square with file `x` and rank `y` to the board; a pair that names no
/// square leaves the board as it is.
pub fn add_bit(board: &mut BBoard, x: u32, y: u32)
    ensures
        on_board(x as int, y as int) ==> *final(board) == *old(board) | square_bit(
            square_at(x as int, y as int),
        ),
        !on_board(x as int, y as int) ==> *final(board) == *old(board),
{
    if x > 7 {
        return ;
    }
    if y > 7 {
        return ;
    }
    *board = *board | (1u64 << ((x + y * 8) as u64));
}

/// Whether the pair names a square and that square belongs to the board.
pub fn has_bit(board: &BBoard, x: u32, y: u32) -> (r: bool)
    ensures
        r == (on_board(x as int, y as int) && has_square(*board, square_at(x as int, y as int))),
{
    if x > 7 {
        return false;
    }
    if y > 7 {
        return false;
    }
    proof {
        lemma_mask_test(*board, square_at(x as int, y as int));
    }
    (*board & (1u64 << ((x + y * 8) as u64))) > 0
}


/// No square below `n` belongs to `b` exactly when the count below `n` is zero.
pub proof fn lemma_count_zero(b: u64, n: int)
    requires
        0 <= n <= 64,
    ensures
        count_below(b, n) == 0 <==> (forall|s: int| 0 <= s < n ==> !has_square(b, s)),
    decreases n,
{
    if n > 0 {
        lemma_count_zero(b, n - 1);
    }
}

/// Taking one square out of a board lowers the count by one from that square on.
pub proof fn lemma_count_remove(b: u64, k: int, n: int)
    requires
        0 <= k < 64,
        has_square(b, k),
        0 <= n <= 64,
    ensures
        count_below(b & !square_bit(k), n) == count_below(b, n) - if k < n {
            1int
        } else {
            0int
        },
    decreases n,
{
    broadcast use group_has_square;

    if n > 0 {
        lemma_count_remove(b, k, n - 1);
    }
}

/// A board counts one square exactly when it is the board of its lowest square.
pub proof fn lemma_count_single(b: u64)
    ensures
        square_count(b) == 1 <==> is_single(b, lowest_square(b)),
{
    broadcast use group_has_square;

    lemma_lowest_square(b);
    let l = lowest_square(b);
    if b == 0 {
        lemma_count_zero(b, 64);
    } else {
        let rest = b & !square_bit(l);
        lemma_count_remove(b, l, 64);
        lemma_count_zero(rest, 64);
        if square_count(b) == 1 {
            assert forall|s: int| 0 <= s < 64 implies has_square(b, s) == has_square(
                square_bit(l),
                s,
            ) by {
                assert(!has_square(rest, s));
            }
            lemma_board_ext(b, square_bit(l));
        }
    }
}

/// The letter of file `x`, from `a`.
pub open spec fn file_char(x: int) -> char {
    ((x + 97) as u8) as char
}

/// The digit of rank `y`, from `1`.
pub open spec fn rank_char(y: int) -> char {
    ((y + 49) as u8) as char
}

/// The algebraic name of square `s`: its file letter, then its rank digit.
pub open spec fn square_name(s: int) -> Seq<char> {
    seq![file_char(s % 8), rank_char(s / 8)]
}

/// The name of the one square of a board that holds one square; a dash for any
/// other board.
pub open spec fn board_name(b: u64) -> Seq<char> {
    if square_count(b) == 1 {
        square_name(lowest_square(b))
    } else {
        seq!['-']
    }
}

/// The algebraic name (`a1` to `h8`) of a board of one square, and `-` for any
/// other board.
pub fn bb_to_coord(board: BBoard) -> (r: String)
    ensures
        r@ == board_name(board),
{
    let mut result = String::new();
    if board.count_ones() == 1 {
        proof {
            lemma_count_single(board);
            lemma_lowest_square(board);
        }
        let idx: u32 = board.trailing_zeros();
        let y: u8 = (idx / 8) as u8;
        let x: u8 = (idx % 8) as u8;
        result.push((x + 97u8) as char);
        result.push((y + 49u8) as char);
        assert(result@ =~= square_name(lowest_square(board)));
    } else {
        result.push('-');
        assert(result@ =~= seq!['-']);
    }
    result
}

} // verus!
