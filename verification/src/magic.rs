//! The attacks of rooks and bishops for a given occupancy, by walking along the
//! rays and by lookup in tables that are filled from the walks.
use crate::bboard::{
    BBoard, bb_coord_q, bb_get_q, count_below, group_has_square, has_square, on_board,
    square_at, square_count,
};
use crate::bboard::lemma_board_empty;
use crate::piece_moves::{
    PieceMoveProvider, bishop_line, bishop_relevant, file_of, gap, holds_targets, rank_of,
    rook_line, rook_relevant, table_holds,
};
use vstd::prelude::*;
use vstd::wrapping::u64_specs::{wrapping_mul, wrapping_sub};

verus! {

/// `m` lies between `a` and `b`, and is neither.
pub open spec fn strictly_between(a: int, b: int, m: int) -> bool {
    (a < m && m < b) || (b < m && m < a)
}

/// Square `m` lies on the straight line from `s` to `t`, between the two. No square
/// does when `s` and `t` share no file, rank or diagonal.
pub open spec fn between(s: int, t: int, m: int) -> bool {
    let sx = file_of(s);
    let sy = rank_of(s);
    let tx = file_of(t);
    let ty = rank_of(t);
    let mx = file_of(m);
    let my = rank_of(m);
    if sy == ty {
        my == sy && strictly_between(sx, tx, mx)
    } else if sx == tx {
        mx == sx && strictly_between(sy, ty, my)
    } else if sx - sy == tx - ty {
        mx - my == sx - sy && strictly_between(sx, tx, mx)
    } else if sx + sy == tx + ty {
        mx + my == sx + sy && strictly_between(sx, tx, mx)
    } else {
        false
    }
}

/// No square between `s` and `t` is occupied.
pub open spec fn clear_between(occ: u64, s: int, t: int) -> bool {
    forall|m: int| 0 <= m < 64 && between(s, t, m) ==> !#[trigger] has_square(occ, m)
}

/// A rook on `s` attacks `t` when the occupied squares are `occ`: `t` is on its file
/// or rank and nothing stands between. The first blocker of a ray is attacked; what
/// lies behind it is not.
pub open spec fn rook_sees(occ: u64, s: int, t: int) -> bool {
    rook_line(s, t) && clear_between(occ, s, t)
}

/// A bishop on `s` attacks `t` when the occupied squares are `occ`: `t` is on one of
/// its diagonals and nothing stands between.
pub open spec fn bishop_sees(occ: u64, s: int, t: int) -> bool {
    bishop_line(s, t) && clear_between(occ, s, t)
}

/// Square `t` is fewer than `k` king steps away from `s`.
pub open spec fn nearer(s: int, t: int, k: int) -> bool {
    gap(file_of(s), file_of(t)) < k && gap(rank_of(s), rank_of(t)) < k
}

/// No square of the ray from `(x, y)` in direction `(dx, dy)` is occupied within
/// fewer than `k` steps.
pub open spec fn ray_open(occ: u64, x: int, y: int, dx: int, dy: int, k: int) -> bool {
    forall|m: int|
        0 <= m < 64 && on_ray(x, y, dx, dy, m) && nearer(square_at(x, y), m, k)
            ==> !#[trigger] has_square(occ, m)
}

/// Square `m` lies on the ray from `(x, y)` in direction `(dx, dy)`, where each of
/// `dx` and `dy` is -1, 0 or 1.
pub open spec fn on_ray(x: int, y: int, dx: int, dy: int, m: int) -> bool {
    let mx = file_of(m);
    let my = rank_of(m);
    &&& dx == 0 ==> mx == x
    &&& dx == 1 ==> mx > x
    &&& dx == -1 ==> mx < x
    &&& dy == 0 ==> my == y
    &&& dy == 1 ==> my > y
    &&& dy == -1 ==> my < y
    &&& dx != 0 && dy != 0 ==> gap(mx, x) == gap(my, y)
}

/// The squares that a rook on file `x` and rank `y` attacks when the occupied
/// squares are `field`, found by walking along its four rays.
pub fn compute_rook_attack_bits(x: i32, y: i32, field: BBoard) -> (r: BBoard)
    requires
        on_board(x as int, y as int),
    ensures
        holds_targets(r, square_at(x as int, y as int), |s: int, t: int| rook_sees(field, s, t)),
{
    broadcast use group_has_square;

    let mut dir1 = true;
    let mut dir2 = true;
    let mut dir3 = true;
    let mut dir4 = true;
    let mut attack: BBoard = 0u64;
    let ghost s = square_at(x as int, y as int);
    let mut k: i32 = 1;
    while k < 8
        invariant
            1 <= k <= 8,
            on_board(x as int, y as int),
            s == square_at(x as int, y as int),
            dir1 == ray_open(field, x as int, y as int, 1, 0, k as int),
            dir2 == ray_open(field, x as int, y as int, -1, 0, k as int),
            dir3 == ray_open(field, x as int, y as int, 0, 1, k as int),
            dir4 == ray_open(field, x as int, y as int, 0, -1, k as int),
            forall|t: int| #[trigger]
                has_square(attack, t) == (0 <= t < 64 && rook_sees(field, s, t) && nearer(
                    s,
                    t,
                    k as int,
                )),
        decreases 8 - k,
    {
        let ghost before = attack;
        let b1 = if dir1 {
            bb_coord_q(x + k, y)
        } else {
            0
        };
        let b2 = if dir2 {
            bb_coord_q(x - k, y)
        } else {
            0
        };
        let b3 = if dir3 {
            bb_coord_q(x, y + k)
        } else {
            0
        };
        let b4 = if dir4 {
            bb_coord_q(x, y - k)
        } else {
            0
        };
        attack = attack | b1 | b2 | b3 | b4;
        let g1 = bb_get_q(field, x + k, y);
        let g2 = bb_get_q(field, x - k, y);
        let g3 = bb_get_q(field, x, y + k);
        let g4 = bb_get_q(field, x, y - k);
        proof {
            broadcast use group_has_square;

            let xi = x as int;
            let yi = y as int;
            let ki = k as int;
            assert forall|t: int| #[trigger]
                has_square(attack, t)
                    == (0 <= t < 64 && rook_sees(field, s, t) && nearer(s, t, ki + 1)) by {
                if 0 <= t < 64 {
                    lemma_lines_are_rays(xi, yi, t);
                    lemma_walk_round(field, xi, yi, 1, 0, ki, t);
                    lemma_walk_round(field, xi, yi, -1, 0, ki, t);
                    lemma_walk_round(field, xi, yi, 0, 1, ki, t);
                    lemma_walk_round(field, xi, yi, 0, -1, ki, t);
                    assert(has_square(attack, t) == (has_square(before, t) || has_square(b1, t)
                        || has_square(b2, t) || has_square(b3, t) || has_square(b4, t)));
                    assert(has_square(b1, t) == (dir1 && on_board(xi + ki, yi) && t
                        == square_at(xi + ki, yi)));
                    assert(has_square(b2, t) == (dir2 && on_board(xi - ki, yi) && t
                        == square_at(xi - ki, yi)));
                    assert(has_square(b3, t) == (dir3 && on_board(xi, yi + ki) && t
                        == square_at(xi, yi + ki)));
                    assert(has_square(b4, t) == (dir4 && on_board(xi, yi - ki) && t
                        == square_at(xi, yi - ki)));
                }
            }
            lemma_ray_extend(field, xi, yi, 1, 0, ki);
            lemma_ray_extend(field, xi, yi, -1, 0, ki);
            lemma_ray_extend(field, xi, yi, 0, 1, ki);
            lemma_ray_extend(field, xi, yi, 0, -1, ki);
        }
        dir1 = dir1 && !g1;
        dir2 = dir2 && !g2;
        dir3 = dir3 && !g3;
        dir4 = dir4 && !g4;
        k += 1;
    }
    attack
}

/// The squares that a bishop on file `x` and rank `y` attacks when the occupied
/// squares are `field`, found by walking along its four rays.
pub fn compute_bishop_attack_bits(x: i32, y: i32, field: BBoard) -> (r: BBoard)
    requires
        on_board(x as int, y as int),
    ensures
        holds_targets(
            r,
            square_at(x as int, y as int),
            |s: int, t: int| bishop_sees(field, s, t),
        ),
{
    broadcast use group_has_square;

    let mut dir1 = true;
    let mut dir2 = true;
    let mut dir3 = true;
    let mut dir4 = true;
    let mut attack: BBoard = 0u64;
    let ghost s = square_at(x as int, y as int);
    let mut k: i32 = 1;
    while k < 8
        invariant
            1 <= k <= 8,
            on_board(x as int, y as int),
            s == square_at(x as int, y as int),
            dir1 == ray_open(field, x as int, y as int, 1, 1, k as int),
            dir2 == ray_open(field, x as int, y as int, -1, 1, k as int),
            dir3 == ray_open(field, x as int, y as int, 1, -1, k as int),
            dir4 == ray_open(field, x as int, y as int, -1, -1, k as int),
            forall|t: int| #[trigger]
                has_square(attack, t) == (0 <= t < 64 && bishop_sees(field, s, t) && nearer(
                    s,
                    t,
                    k as int,
                )),
        decreases 8 - k,
    {
        let ghost before = attack;
        let b1 = if dir1 {
            bb_coord_q(x + k, y + k)
        } else {
            0
        };
        let b2 = if dir2 {
            bb_coord_q(x - k, y + k)
        } else {
            0
        };
        let b3 = if dir3 {
            bb_coord_q(x + k, y - k)
        } else {
            0
        };
        let b4 = if dir4 {
            bb_coord_q(x - k, y - k)
        } else {
            0
        };
        attack = attack | b1 | b2 | b3 | b4;
        let g1 = bb_get_q(field, x + k, y + k);
        let g2 = bb_get_q(field, x - k, y + k);
        let g3 = bb_get_q(field, x + k, y - k);
        let g4 = bb_get_q(field, x - k, y - k);
        proof {
            broadcast use group_has_square;

            let xi = x as int;
            let yi = y as int;
            let ki = k as int;
            assert forall|t: int| #[trigger]
                has_square(attack, t)
                    == (0 <= t < 64 && bishop_sees(field, s, t) && nearer(s, t, ki + 1)) by {
                if 0 <= t < 64 {
                    lemma_lines_are_rays(xi, yi, t);
                    lemma_walk_round(field, xi, yi, 1, 1, ki, t);
                    lemma_walk_round(field, xi, yi, -1, 1, ki, t);
                    lemma_walk_round(field, xi, yi, 1, -1, ki, t);
                    lemma_walk_round(field, xi, yi, -1, -1, ki, t);
                    assert(has_square(attack, t) == (has_square(before, t) || has_square(b1, t)
                        || has_square(b2, t) || has_square(b3, t) || has_square(b4, t)));
                    assert(has_square(b1, t) == (dir1 && on_board(xi + ki, yi + ki) && t
                        == square_at(xi + ki, yi + ki)));
                    assert(has_square(b2, t) == (dir2 && on_board(xi - ki, yi + ki) && t
                        == square_at(xi - ki, yi + ki)));
                    assert(has_square(b3, t) == (dir3 && on_board(xi + ki, yi - ki) && t
                        == square_at(xi + ki, yi - ki)));
                    assert(has_square(b4, t) == (dir4 && on_board(xi - ki, yi - ki) && t
                        == square_at(xi - ki, yi - ki)));
                }
            }
            lemma_ray_extend(field, xi, yi, 1, 1, ki);
            lemma_ray_extend(field, xi, yi, -1, 1, ki);
            lemma_ray_extend(field, xi, yi, 1, -1, ki);
            lemma_ray_extend(field, xi, yi, -1, -1, ki);
        }
        dir1 = dir1 && !g1;
        dir2 = dir2 && !g2;
        dir3 = dir3 && !g3;
        dir4 = dir4 && !g4;
        k += 1;
    }
    attack
}

/// Whether `(dx, dy)` is one of the eight directions.
pub open spec fn is_direction(dx: int, dy: int) -> bool {
    -1 <= dx <= 1 && -1 <= dy <= 1 && !(dx == 0 && dy == 0)
}

/// The file (or rank) reached from `x` after `k` steps in direction `dx`.
pub open spec fn ray_file(x: int, dx: int, k: int) -> int {
    if dx == 1 {
        x + k
    } else if dx == -1 {
        x - k
    } else {
        x
    }
}

/// Among the squares of a ray, the one that is `k` steps along it is the only one
/// that is nearer than `k + 1` and not nearer than `k`.
proof fn lemma_ray_square(x: int, y: int, dx: int, dy: int, k: int, m: int)
    requires
        on_board(x, y),
        is_direction(dx, dy),
        1 <= k < 8,
        0 <= m < 64,
        on_ray(x, y, dx, dy, m),
    ensures
        (nearer(square_at(x, y), m, k + 1) && !nearer(square_at(x, y), m, k)) == (on_board(
            ray_file(x, dx, k),
            ray_file(y, dy, k),
        ) && m == square_at(ray_file(x, dx, k), ray_file(y, dy, k))),
{
    let mx = file_of(m);
    let my = rank_of(m);
    assert(m == 8 * my + mx);
    assert(file_of(square_at(x, y)) == x && rank_of(square_at(x, y)) == y);
}

/// The squares between the origin of a ray and a square of the ray are the squares
/// of the ray that are nearer to the origin.
proof fn lemma_ray_between(x: int, y: int, dx: int, dy: int, t: int, m: int)
    requires
        on_board(x, y),
        is_direction(dx, dy),
        0 <= t < 64,
        0 <= m < 64,
        on_ray(x, y, dx, dy, t),
    ensures
        between(square_at(x, y), t, m) == (on_ray(x, y, dx, dy, m) && exists|k: int|
            1 <= k < 8 && nearer(square_at(x, y), m, k) && !nearer(square_at(x, y), t, k)),
{
    let s = square_at(x, y);
    assert(file_of(s) == x && rank_of(s) == y);
    let gx = gap(file_of(t), x);
    let gy = gap(rank_of(t), y);
    let g = if dx != 0 {
        gx
    } else {
        gy
    };
    if between(s, t, m) {
        assert(nearer(s, m, g) && !nearer(s, t, g));
    }
}

/// What one round of the walk along a ray adds: the square that is `k` steps along
/// the ray is attacked exactly when the ray is open that far.
proof fn lemma_walk_step(occ: u64, x: int, y: int, dx: int, dy: int, k: int, t: int)
    requires
        on_board(x, y),
        is_direction(dx, dy),
        1 <= k < 8,
        0 <= t < 64,
        on_ray(x, y, dx, dy, t),
        nearer(square_at(x, y), t, k + 1),
        !nearer(square_at(x, y), t, k),
    ensures
        clear_between(occ, square_at(x, y), t) == ray_open(occ, x, y, dx, dy, k),
{
    let s = square_at(x, y);
    if clear_between(occ, s, t) {
        assert forall|m: int|
            0 <= m < 64 && on_ray(x, y, dx, dy, m) && nearer(s, m, k) implies !has_square(
            occ,
            m,
        ) by {
            lemma_ray_between(x, y, dx, dy, t, m);
        }
    }
    if ray_open(occ, x, y, dx, dy, k) {
        assert forall|m: int| 0 <= m < 64 && between(s, t, m) implies !has_square(occ, m) by {
            lemma_ray_between(x, y, dx, dy, t, m);
            let kk = choose|kk: int| 1 <= kk < 8 && nearer(s, m, kk) && !nearer(s, t, kk);
            assert(nearer(s, m, k));
        }
    }
}

/// What one round of the walk along a ray adds to the attacked squares: the square
/// that is `k` steps along the ray, when the ray is open that far.
proof fn lemma_walk_round(occ: u64, x: int, y: int, dx: int, dy: int, k: int, t: int)
    requires
        on_board(x, y),
        is_direction(dx, dy),
        1 <= k < 8,
        0 <= t < 64,
    ensures
        ({
            let s = square_at(x, y);
            let tx = ray_file(x, dx, k);
            let ty = ray_file(y, dy, k);
            (on_ray(x, y, dx, dy, t) && nearer(s, t, k + 1) && !nearer(s, t, k) && clear_between(
                occ,
                s,
                t,
            )) == (on_board(tx, ty) && t == square_at(tx, ty) && ray_open(occ, x, y, dx, dy, k))
        }),
{
    let s = square_at(x, y);
    let tx = ray_file(x, dx, k);
    let ty = ray_file(y, dy, k);
    if on_board(tx, ty) && t == square_at(tx, ty) {
        assert(file_of(t) == tx && rank_of(t) == ty);
        assert(file_of(s) == x && rank_of(s) == y);
        assert(on_ray(x, y, dx, dy, t));
    }
    if on_ray(x, y, dx, dy, t) {
        lemma_ray_square(x, y, dx, dy, k, t);
        if nearer(s, t, k + 1) && !nearer(s, t, k) {
            lemma_walk_step(occ, x, y, dx, dy, k, t);
        }
    }
}

/// The squares on the lines of a rook are those of its four rays, and the squares on
/// the lines of a bishop those of its four.
proof fn lemma_lines_are_rays(x: int, y: int, t: int)
    requires
        on_board(x, y),
        0 <= t < 64,
    ensures
        rook_line(square_at(x, y), t) == (on_ray(x, y, 1, 0, t) || on_ray(x, y, -1, 0, t) || on_ray(
            x,
            y,
            0,
            1,
            t,
        ) || on_ray(x, y, 0, -1, t)),
        bishop_line(square_at(x, y), t) == (on_ray(x, y, 1, 1, t) || on_ray(x, y, -1, 1, t)
            || on_ray(x, y, 1, -1, t) || on_ray(x, y, -1, -1, t)),
{
    let s = square_at(x, y);
    assert(file_of(s) == x && rank_of(s) == y);
    assert(t == 8 * rank_of(t) + file_of(t));
}

/// A ray is open within `k + 1` steps when it is open within `k` steps and its
/// `k`-th square, if there is one, is free.
proof fn lemma_ray_extend(occ: u64, x: int, y: int, dx: int, dy: int, k: int)
    requires
        on_board(x, y),
        is_direction(dx, dy),
        1 <= k < 8,
    ensures
        ({
            let tx = ray_file(x, dx, k);
            let ty = ray_file(y, dy, k);
            ray_open(occ, x, y, dx, dy, k + 1) == (ray_open(occ, x, y, dx, dy, k) && !(on_board(
                tx,
                ty,
            ) && has_square(occ, square_at(tx, ty))))
        }),
{
    let s = square_at(x, y);
    let tx = ray_file(x, dx, k);
    let ty = ray_file(y, dy, k);
    let t = square_at(tx, ty);
    if ray_open(occ, x, y, dx, dy, k) && !(on_board(tx, ty) && has_square(occ, t)) {
        assert forall|m: int|
            0 <= m < 64 && on_ray(x, y, dx, dy, m) && nearer(s, m, k + 1) implies !has_square(
            occ,
            m,
        ) by {
            lemma_ray_square(x, y, dx, dy, k, m);
        }
    }
    if ray_open(occ, x, y, dx, dy, k + 1) {
        assert(ray_open(occ, x, y, dx, dy, k));
        if on_board(tx, ty) {
            assert(file_of(t) == tx && rank_of(t) == ty);
            assert(file_of(s) == x && rank_of(s) == y);
            assert(on_ray(x, y, dx, dy, t));
            assert(nearer(s, t, k + 1));
        }
    }
}


/// Every square of `sub` is a square of `mask`.
pub open spec fn is_subset(sub: u64, mask: u64) -> bool {
    sub & !mask == 0
}

/// The subset of `mask` that follows `sub` when the subsets are taken in rising
/// order; the empty board follows the whole mask.
pub open spec fn next_subset(sub: u64, mask: u64) -> u64 {
    wrapping_sub(sub, mask) & mask
}

/// Stepping from one subset of a mask to `next_subset` of it passes over no subset.
proof fn lemma_next_subset(sub: u64, mask: u64, t: u64)
    requires
        is_subset(sub, mask),
    ensures
        is_subset(next_subset(sub, mask), mask),
        next_subset(sub, mask) != 0 ==> next_subset(sub, mask) > sub,
        is_subset(t, mask) && t > sub ==> next_subset(sub, mask) != 0 && next_subset(sub, mask)
            <= t,
        is_subset(t, mask) ==> is_subset(t & mask, mask) && t & mask == t,
{
    let d = wrapping_sub(sub, mask);
    let n = d & mask;
    assert({
        &&& n & !mask == 0
        &&& n != 0 ==> n > sub
        &&& t & !mask == 0 && t > sub ==> n != 0 && n <= t
        &&& t & !mask == 0 ==> (t & mask) & !mask == 0 && t & mask == t
    }) by (bit_vector)
        requires
            sub & !mask == 0,
            n == d & mask,
            d == if sub < mask {
                (sub + 0x1_0000_0000_0000_0000 - mask) as u64
            } else {
                (sub - mask) as u64
            },
    ;
}

/// The top `bits` bits of a word, moved to the bottom, make a number below two to
/// the power `bits`.
proof fn lemma_index_bound(p: u64, bits: u64)
    requires
        1 <= bits <= 16,
    ensures
        p >> ((64 - bits) as u64) < 1u64 << bits,
        1u64 << bits <= 0x10000,
{
    let sh = (64 - bits) as u64;
    assert(p >> sh < 1u64 << bits && 1u64 << bits <= 0x10000) by (bit_vector)
        requires
            1 <= bits <= 16,
            sh == 64 - bits,
    ;
}


/// For each square, the number of squares whose occupancy matters to a rook there:
/// the number of squares of the mask of that square.
fn rook_pop_bits() -> (r: [u64; 64])
    ensures
        r@ == rook_pop_table(),
        forall|s: int, mask: u64|
            0 <= s < 64 && #[trigger] is_rook_mask(mask, s) ==> r@[s] == square_count(mask),
{
    let r: [u64; 64] = [
        12, 11, 11, 11, 11, 11, 11, 12,
        11, 10, 10, 10, 10, 10, 10, 11,
        11, 10, 10, 10, 10, 10, 10, 11,
        11, 10, 10, 10, 10, 10, 10, 11,
        11, 10, 10, 10, 10, 10, 10, 11,
        11, 10, 10, 10, 10, 10, 10, 11,
        11, 10, 10, 10, 10, 10, 10, 11,
        12, 11, 11, 11, 11, 11, 11, 12,
    ];
    proof {
        assert(r@ =~= rook_pop_table());
        assert forall|s: int, mask: u64|
            0 <= s < 64 && #[trigger] is_rook_mask(mask, s) implies r@[s] == square_count(mask) by {
            lemma_rook_pop(mask, s);
        }
    }
    r
}

/// For each square, the number of squares whose occupancy matters to a bishop there:
/// the number of squares of the mask of that square.
fn bishop_pop_bits() -> (r: [u64; 64])
    ensures
        r@ == bishop_pop_table(),
        forall|s: int, mask: u64|
            0 <= s < 64 && #[trigger] is_bishop_mask(mask, s) ==> r@[s] == square_count(mask),
{
    let r: [u64; 64] = [
        6, 5, 5, 5, 5, 5, 5, 6,
        5, 5, 5, 5, 5, 5, 5, 5,
        5, 5, 7, 7, 7, 7, 5, 5,
        5, 5, 7, 9, 9, 7, 5, 5,
        5, 5, 7, 9, 9, 7, 5, 5,
        5, 5, 7, 7, 7, 7, 5, 5,
        5, 5, 5, 5, 5, 5, 5, 5,
        6, 5, 5, 5, 5, 5, 5, 6,
    ];
    proof {
        assert(r@ =~= bishop_pop_table());
        assert forall|s: int, mask: u64|
            0 <= s < 64 && #[trigger] is_bishop_mask(mask, s) implies r@[s] == square_count(mask) by {
            lemma_bishop_pop(mask, s);
        }
    }
    r
}

/// For each square, the multiplier that spreads the occupancies that matter to a
/// rook there over its table.
fn rook_magics() -> (r: [u64; 64])
    ensures
        r@ == rook_magic_table(),
{
    let r: [u64; 64] = [
        0xA8002C000108020u64, 0x4440200140003000u64, 0x8080200010011880u64, 0x380180080141000u64,
        0x1A00060008211044u64, 0x410001000A0C0008u64, 0x9500060004008100u64, 0x100024284A20700u64,
        0x802140008000u64, 0x80C01002A00840u64, 0x402004282011020u64, 0x9862000820420050u64,
        0x1001448011100u64, 0x6432800200800400u64, 0x40100010002000Cu64, 0x2800D0010C080u64,
        0x90C0008000803042u64, 0x4010004000200041u64, 0x3010010200040u64, 0xA40828028001000u64,
        0x123010008000430u64, 0x24008004020080u64, 0x60040001104802u64, 0x582200028400D1u64,
        0x4000802080044000u64, 0x408208200420308u64, 0x610038080102000u64, 0x3601000900100020u64,
        0x80080040180u64, 0xC2020080040080u64, 0x80084400100102u64, 0x4022408200014401u64,
        0x40052040800082u64, 0xB08200280804000u64, 0x8A80A008801000u64, 0x4000480080801000u64,
        0x911808800801401u64, 0x822A003002001894u64, 0x401068091400108Au64, 0x4A10A00004Cu64,
        0x2000800640008024u64, 0x1486408102020020u64, 0x100A000D50041u64, 0x810050020B0020u64,
        0x204000800808004u64, 0x20048100A000Cu64, 0x112000831020004u64, 0x9000040810002u64,
        0x440490200208200u64, 0x8910401000200040u64, 0x6404200050008480u64, 0x4B824A2010010100u64,
        0x4080801810C0080u64, 0x400802A0080u64, 0x8224080110026400u64, 0x40002C4104088200u64,
        0x1002100104A0282u64, 0x1208400811048021u64, 0x3201014A40D02001u64, 0x5100019200501u64,
        0x101000208001005u64, 0x2008450080702u64, 0x1002080301D00Cu64, 0x410201CE5C030092u64,
    ];
    assert(r@ =~= rook_magic_table());
    r
}

/// For each square, the multiplier that spreads the occupancies that matter to a
/// bishop there over its table.
fn bishop_magics() -> (r: [u64; 64])
    ensures
        r@ == bishop_magic_table(),
{
    let r: [u64; 64] = [
        0x40210414004040u64, 0x2290100115012200u64, 0xA240400A6004201u64, 0x80A0420800480u64,
        0x4022021000000061u64, 0x31012010200000u64, 0x4404421051080068u64, 0x1040882015000u64,
        0x8048C01206021210u64, 0x222091024088820u64, 0x4328110102020200u64, 0x901CC41052000D0u64,
        0xA828C20210000200u64, 0x308419004A004E0u64, 0x4000840404860881u64, 0x800008424020680u64,
        0x28100040100204A1u64, 0x82001002080510u64, 0x9008103000204010u64, 0x141820040C00B000u64,
        0x81010090402022u64, 0x14400480602000u64, 0x8A008048443C00u64, 0x280202060220u64,
        0x3520100860841100u64, 0x9810083C02080100u64, 0x41003000620C0140u64, 0x6100400104010A0u64,
        0x20840000802008u64, 0x40050A010900A080u64, 0x818404001041602u64, 0x8040604006010400u64,
        0x1028044001041800u64, 0x80B00828108200u64, 0xC000280C04080220u64, 0x3010020080880081u64,
        0x10004C0400004100u64, 0x3010020200002080u64, 0x202304019004020Au64, 0x4208A0000E110u64,
        0x108018410006000u64, 0x202210120440800u64, 0x100850C828001000u64, 0x1401024204800800u64,
        0x41028800402u64, 0x20642300480600u64, 0x20410200800202u64, 0xCA02480845000080u64,
        0x140C404A0080410u64, 0x2180A40108884441u64, 0x4410420104980302u64, 0x1108040046080000u64,
        0x8141029012020008u64, 0x894081818082800u64, 0x40020404628000u64, 0x804100C010C2122u64,
        0x8168210510101200u64, 0x1088148121080u64, 0x204010100C11010u64, 0x1814102013841400u64,
        0xC00010020602u64, 0x1045220C040820u64, 0x12400808070840u64, 0x2004012A040132u64,
    ];
    assert(r@ =~= bishop_magic_table());
    r
}

/// For each square, the number of squares whose occupancy matters to a rook there.
pub open spec fn rook_pop_table() -> Seq<u64> {
    seq![
        12u64, 11u64, 11u64, 11u64, 11u64, 11u64, 11u64, 12u64,
        11u64, 10u64, 10u64, 10u64, 10u64, 10u64, 10u64, 11u64,
        11u64, 10u64, 10u64, 10u64, 10u64, 10u64, 10u64, 11u64,
        11u64, 10u64, 10u64, 10u64, 10u64, 10u64, 10u64, 11u64,
        11u64, 10u64, 10u64, 10u64, 10u64, 10u64, 10u64, 11u64,
        11u64, 10u64, 10u64, 10u64, 10u64, 10u64, 10u64, 11u64,
        11u64, 10u64, 10u64, 10u64, 10u64, 10u64, 10u64, 11u64,
        12u64, 11u64, 11u64, 11u64, 11u64, 11u64, 11u64, 12u64,
    ]
}

/// For each square, the number of squares whose occupancy matters to a bishop there.
pub open spec fn bishop_pop_table() -> Seq<u64> {
    seq![
        6u64, 5u64, 5u64, 5u64, 5u64, 5u64, 5u64, 6u64,
        5u64, 5u64, 5u64, 5u64, 5u64, 5u64, 5u64, 5u64,
        5u64, 5u64, 7u64, 7u64, 7u64, 7u64, 5u64, 5u64,
        5u64, 5u64, 7u64, 9u64, 9u64, 7u64, 5u64, 5u64,
        5u64, 5u64, 7u64, 9u64, 9u64, 7u64, 5u64, 5u64,
        5u64, 5u64, 7u64, 7u64, 7u64, 7u64, 5u64, 5u64,
        5u64, 5u64, 5u64, 5u64, 5u64, 5u64, 5u64, 5u64,
        6u64, 5u64, 5u64, 5u64, 5u64, 5u64, 5u64, 6u64,
    ]
}

/// For each square, the multiplier that spreads the occupancies that matter to a rook there over its table.
pub open spec fn rook_magic_table() -> Seq<u64> {
    seq![
        0xA8002C000108020u64, 0x4440200140003000u64, 0x8080200010011880u64,
        0x380180080141000u64, 0x1A00060008211044u64, 0x410001000A0C0008u64,
        0x9500060004008100u64, 0x100024284A20700u64, 0x802140008000u64,
        0x80C01002A00840u64, 0x402004282011020u64, 0x9862000820420050u64,
        0x1001448011100u64, 0x6432800200800400u64, 0x40100010002000Cu64,
        0x2800D0010C080u64, 0x90C0008000803042u64, 0x4010004000200041u64,
        0x3010010200040u64, 0xA40828028001000u64, 0x123010008000430u64,
        0x24008004020080u64, 0x60040001104802u64, 0x582200028400D1u64,
        0x4000802080044000u64, 0x408208200420308u64, 0x610038080102000u64,
        0x3601000900100020u64, 0x80080040180u64, 0xC2020080040080u64,
        0x80084400100102u64, 0x4022408200014401u64, 0x40052040800082u64,
        0xB08200280804000u64, 0x8A80A008801000u64, 0x4000480080801000u64,
        0x911808800801401u64, 0x822A003002001894u64, 0x401068091400108Au64,
        0x4A10A00004Cu64, 0x2000800640008024u64, 0x1486408102020020u64,
        0x100A000D50041u64, 0x810050020B0020u64, 0x204000800808004u64,
        0x20048100A000Cu64, 0x112000831020004u64, 0x9000040810002u64,
        0x440490200208200u64, 0x8910401000200040u64, 0x6404200050008480u64,
        0x4B824A2010010100u64, 0x4080801810C0080u64, 0x400802A0080u64,
        0x8224080110026400u64, 0x40002C4104088200u64, 0x1002100104A0282u64,
        0x1208400811048021u64, 0x3201014A40D02001u64, 0x5100019200501u64,
        0x101000208001005u64, 0x2008450080702u64, 0x1002080301D00Cu64,
        0x410201CE5C030092u64,
    ]
}

/// For each square, the multiplier that spreads the occupancies that matter to a bishop there over its table.
pub open spec fn bishop_magic_table() -> Seq<u64> {
    seq![
        0x40210414004040u64, 0x2290100115012200u64, 0xA240400A6004201u64,
        0x80A0420800480u64, 0x4022021000000061u64, 0x31012010200000u64,
        0x4404421051080068u64, 0x1040882015000u64, 0x8048C01206021210u64,
        0x222091024088820u64, 0x4328110102020200u64, 0x901CC41052000D0u64,
        0xA828C20210000200u64, 0x308419004A004E0u64, 0x4000840404860881u64,
        0x800008424020680u64, 0x28100040100204A1u64, 0x82001002080510u64,
        0x9008103000204010u64, 0x141820040C00B000u64, 0x81010090402022u64,
        0x14400480602000u64, 0x8A008048443C00u64, 0x280202060220u64,
        0x3520100860841100u64, 0x9810083C02080100u64, 0x41003000620C0140u64,
        0x6100400104010A0u64, 0x20840000802008u64, 0x40050A010900A080u64,
        0x818404001041602u64, 0x8040604006010400u64, 0x1028044001041800u64,
        0x80B00828108200u64, 0xC000280C04080220u64, 0x3010020080880081u64,
        0x10004C0400004100u64, 0x3010020200002080u64, 0x202304019004020Au64,
        0x4208A0000E110u64, 0x108018410006000u64, 0x202210120440800u64,
        0x100850C828001000u64, 0x1401024204800800u64, 0x41028800402u64,
        0x20642300480600u64, 0x20410200800202u64, 0xCA02480845000080u64,
        0x140C404A0080410u64, 0x2180A40108884441u64, 0x4410420104980302u64,
        0x1108040046080000u64, 0x8141029012020008u64, 0x894081818082800u64,
        0x40020404628000u64, 0x804100C010C2122u64, 0x8168210510101200u64,
        0x1088148121080u64, 0x204010100C11010u64, 0x1814102013841400u64,
        0xC00010020602u64, 0x1045220C040820u64, 0x12400808070840u64,
        0x2004012A040132u64,
    ]
}

/// One if the square belongs to the board, and zero if not.
pub open spec fn one_if(b: u64, s: int) -> int {
    if has_square(b, s) {
        1
    } else {
        0
    }
}

/// How many squares of rank `y` belong to the board.
pub open spec fn rank_count(b: u64, y: int) -> int {
    one_if(b, 8 * y) + one_if(b, 8 * y + 1) + one_if(b, 8 * y + 2) + one_if(b, 8 * y + 3) + one_if(
        b,
        8 * y + 4,
    ) + one_if(b, 8 * y + 5) + one_if(b, 8 * y + 6) + one_if(b, 8 * y + 7)
}

/// The squares up to the end of a rank are those up to its start and those of the
/// rank.
proof fn lemma_count_rank(b: u64, y: int)
    requires
        0 <= y < 8,
    ensures
        count_below(b, 8 * (y + 1)) == count_below(b, 8 * y) + rank_count(b, y),
{
    reveal_with_fuel(count_below, 9);
}

/// The squares of a board are the squares of its eight ranks.
pub proof fn lemma_count_by_ranks(b: u64)
    ensures
        square_count(b) == rank_count(b, 0) + rank_count(b, 1) + rank_count(b, 2) + rank_count(
            b,
            3,
        ) + rank_count(b, 4) + rank_count(b, 5) + rank_count(b, 6) + rank_count(b, 7),
{
    lemma_count_rank(b, 0);
    lemma_count_rank(b, 1);
    lemma_count_rank(b, 2);
    lemma_count_rank(b, 3);
    lemma_count_rank(b, 4);
    lemma_count_rank(b, 5);
    lemma_count_rank(b, 6);
    lemma_count_rank(b, 7);
}

/// The board is the mask of the squares whose occupancy matters to a rook on `s`.
pub open spec fn is_rook_mask(mask: u64, s: int) -> bool {
    holds_targets(mask, s, |a: int, t: int| rook_relevant(a, t))
}

/// The board is the mask of the squares whose occupancy matters to a bishop on `s`.
pub open spec fn is_bishop_mask(mask: u64, s: int) -> bool {
    holds_targets(mask, s, |a: int, t: int| bishop_relevant(a, t))
}

/// How many squares of a line through a square at place `x` of the line matter:
/// the six squares off the edges, less the square itself where it is one of them.
pub open spec fn inner_count(x: int) -> int {
    if x == 0 || x == 7 {
        6
    } else {
        5
    }
}

/// How many squares of rank `y` matter to a rook on `s`.
proof fn lemma_rook_rank(mask: u64, s: int, y: int)
    requires
        0 <= s < 64,
        0 <= y < 8,
        is_rook_mask(mask, s),
    ensures
        rank_count(mask, y) == if y == rank_of(s) {
            inner_count(file_of(s))
        } else if (rank_of(s) > 0 ==> y > 0) && (rank_of(s) < 7 ==> y < 7) {
            1int
        } else {
            0int
        },
{
    let sx = file_of(s);
    let sy = rank_of(s);
    assert(s == 8 * sy + sx);
    lemma_mask_cell(mask, s, y, 0, false);
    lemma_mask_cell(mask, s, y, 1, false);
    lemma_mask_cell(mask, s, y, 2, false);
    lemma_mask_cell(mask, s, y, 3, false);
    lemma_mask_cell(mask, s, y, 4, false);
    lemma_mask_cell(mask, s, y, 5, false);
    lemma_mask_cell(mask, s, y, 6, false);
    lemma_mask_cell(mask, s, y, 7, false);
}

/// Whether the square of file `x` and rank `y` belongs to the mask of a slider on
/// `s`.
proof fn lemma_mask_cell(mask: u64, s: int, y: int, x: int, diagonal: bool)
    requires
        0 <= s < 64,
        0 <= y < 8,
        0 <= x < 8,
        if diagonal {
            is_bishop_mask(mask, s)
        } else {
            is_rook_mask(mask, s)
        },
    ensures
        file_of(8 * y + x) == x,
        rank_of(8 * y + x) == y,
        one_if(mask, 8 * y + x) == if (if diagonal {
            bishop_relevant(s, 8 * y + x)
        } else {
            rook_relevant(s, 8 * y + x)
        }) {
            1int
        } else {
            0int
        },
{
    let t = 8 * y + x;
    if diagonal {
        assert(has_square(mask, t) == (0 <= t < 64 && bishop_relevant(s, t)));
    } else {
        assert(has_square(mask, t) == (0 <= t < 64 && rook_relevant(s, t)));
    }
}

/// The number that the table gives for a rook is the number of squares of the
/// mask of the rook there.
pub proof fn lemma_rook_pop(mask: u64, s: int)
    requires
        0 <= s < 64,
        is_rook_mask(mask, s),
    ensures
        rook_pop_table()[s] == square_count(mask),
        square_count(mask) == inner_count(file_of(s)) + inner_count(rank_of(s)),
{
    lemma_count_by_ranks(mask);
    lemma_rook_rank(mask, s, 0);
    lemma_rook_rank(mask, s, 1);
    lemma_rook_rank(mask, s, 2);
    lemma_rook_rank(mask, s, 3);
    lemma_rook_rank(mask, s, 4);
    lemma_rook_rank(mask, s, 5);
    lemma_rook_rank(mask, s, 6);
    lemma_rook_rank(mask, s, 7);
    lemma_rook_pop_table(s);
}

/// The table of the rook by a formula.
proof fn lemma_rook_pop_table(s: int)
    requires
        0 <= s < 64,
    ensures
        rook_pop_table()[s] == inner_count(file_of(s)) + inner_count(rank_of(s)),
{
}

/// One if the square of file `x` and rank `y` is on the board and off the edges
/// that the square of file `sx` and rank `sy` is off, and zero if not.
pub open spec fn inner_cell(sx: int, sy: int, x: int, y: int) -> int {
    if 0 <= x < 8 && (sx > 0 ==> x > 0) && (sx < 7 ==> x < 7) && (sy > 0 ==> y > 0) && (sy < 7
        ==> y < 7) {
        1
    } else {
        0
    }
}

/// How many squares of rank `y` matter to a bishop on `s`: none on its own rank,
/// and else those of the two squares of the rank on its diagonals that are off the
/// far edges.
proof fn lemma_bishop_rank(mask: u64, s: int, y: int)
    requires
        0 <= s < 64,
        0 <= y < 8,
        is_bishop_mask(mask, s),
    ensures
        rank_count(mask, y) == bishop_rank_count(file_of(s), rank_of(s), y),
{
    let sx = file_of(s);
    let sy = rank_of(s);
    assert(s == 8 * sy + sx);
    lemma_mask_cell(mask, s, y, 0, true);
    lemma_mask_cell(mask, s, y, 1, true);
    lemma_mask_cell(mask, s, y, 2, true);
    lemma_mask_cell(mask, s, y, 3, true);
    lemma_mask_cell(mask, s, y, 4, true);
    lemma_mask_cell(mask, s, y, 5, true);
    lemma_mask_cell(mask, s, y, 6, true);
    lemma_mask_cell(mask, s, y, 7, true);
}

/// The number that the table gives for a bishop is the number of squares of the
/// mask of the bishop there.
pub proof fn lemma_bishop_pop(mask: u64, s: int)
    requires
        0 <= s < 64,
        is_bishop_mask(mask, s),
    ensures
        bishop_pop_table()[s] == square_count(mask),
{
    lemma_count_by_ranks(mask);
    lemma_bishop_rank(mask, s, 0);
    lemma_bishop_rank(mask, s, 1);
    lemma_bishop_rank(mask, s, 2);
    lemma_bishop_rank(mask, s, 3);
    lemma_bishop_rank(mask, s, 4);
    lemma_bishop_rank(mask, s, 5);
    lemma_bishop_rank(mask, s, 6);
    lemma_bishop_rank(mask, s, 7);
    lemma_bishop_pop_table(file_of(s), rank_of(s));
    assert(s == 8 * rank_of(s) + file_of(s));
    assert(square_count(mask) == bishop_inner_count(file_of(s), rank_of(s)));
}

/// How many squares matter to a bishop on file `sx` and rank `sy`, rank by rank.
pub open spec fn bishop_inner_count(sx: int, sy: int) -> int {
    bishop_rank_count(sx, sy, 0) + bishop_rank_count(sx, sy, 1) + bishop_rank_count(sx, sy, 2)
        + bishop_rank_count(sx, sy, 3) + bishop_rank_count(sx, sy, 4) + bishop_rank_count(
        sx,
        sy,
        5,
    ) + bishop_rank_count(sx, sy, 6) + bishop_rank_count(sx, sy, 7)
}

/// How many squares of rank `y` matter to a bishop on file `sx` and rank `sy`.
pub open spec fn bishop_rank_count(sx: int, sy: int, y: int) -> int {
    if y == sy {
        0
    } else {
        inner_cell(sx, sy, sx - (y - sy), y) + inner_cell(sx, sy, sx + (y - sy), y)
    }
}

/// The table of the bishop by the count rank by rank.
proof fn lemma_bishop_pop_table(sx: int, sy: int)
    requires
        0 <= sx < 8,
        0 <= sy < 8,
    ensures
        bishop_pop_table()[8 * sy + sx] == bishop_inner_count(sx, sy),
{
    if sy == 0 {
        lemma_bishop_pop_row(sx, 0);
    } else if sy == 1 {
        lemma_bishop_pop_row(sx, 1);
    } else if sy == 2 {
        lemma_bishop_pop_row(sx, 2);
    } else if sy == 3 {
        lemma_bishop_pop_row(sx, 3);
    } else if sy == 4 {
        lemma_bishop_pop_row(sx, 4);
    } else if sy == 5 {
        lemma_bishop_pop_row(sx, 5);
    } else if sy == 6 {
        lemma_bishop_pop_row(sx, 6);
    } else {
        lemma_bishop_pop_row(sx, 7);
    }
}

/// One rank of the table of the bishop.
proof fn lemma_bishop_pop_row(sx: int, sy: int)
    requires
        0 <= sx < 8,
        0 <= sy < 8,
    ensures
        bishop_pop_table()[8 * sy + sx] == bishop_inner_count(sx, sy),
{
}

/// Where the table of a square keeps the answer for the occupancy `sub`: the top
/// bits of the product with the square's multiplier.
pub open spec fn magic_index(sub: u64, magic: u64, shift: u64) -> int {
    (wrapping_mul(sub, magic) >> shift) as int
}

/// The table answers every occupancy of the mask: at the index of each subset
/// `sub` of `mask` stands the board of the squares that a slider on `s` attacks
/// when the occupied squares are `sub`.
pub open spec fn table_answers(
    tab: Seq<u64>,
    s: int,
    mask: u64,
    magic: u64,
    shift: u64,
    sees: spec_fn(u64, int, int) -> bool,
) -> bool {
    forall|sub: u64|
        #![trigger magic_index(sub, magic, shift)]
        is_subset(sub, mask) ==> 0 <= magic_index(sub, magic, shift) < tab.len() && holds_targets(
            tab[magic_index(sub, magic, shift)],
            s,
            |a: int, t: int| sees(sub, a, t),
        )
}

/// The table of a square is in order. It is filled exactly when the shift leaves
/// at most sixteen bits and the multiplier spreads the occupancies of the mask; a
/// table that cannot be filled has no entry, and its square is served by walking
/// the rays. A table that is filled has one entry for each number of `64 - shift`
/// bits: at the index of each occupancy stands the answer for it, and an entry that
/// is the index of no occupancy is empty.
pub open spec fn table_ok(
    tab: Seq<u64>,
    s: int,
    mask: u64,
    magic: u64,
    shift: u64,
    sees: spec_fn(u64, int, int) -> bool,
) -> bool {
    &&& shift < 64
    &&& tab.len() == 0 || table_answers(tab, s, mask, magic, shift, sees)
    &&& (tab.len() != 0) == (shift >= 48 && spreads(s, mask, magic, shift, sees))
    &&& tab.len() != 0 ==> tab.len() == 1u64 << ((64 - shift) as u64)
    &&& forall|i: int|
        0 <= i < tab.len() && !is_index(i, mask, magic, shift) ==> #[trigger] tab[i] == 0
}

/// The squares between a slider and a square that it could attack all matter to
/// it, so leaving the others out of the occupancy changes nothing.
pub proof fn lemma_relevant_blockers(occ: u64, mask: u64, s: int, t: int, diagonal: bool)
    requires
        0 <= s < 64,
        0 <= t < 64,
        if diagonal {
            holds_targets(mask, s, |a: int, b: int| bishop_relevant(a, b)) && bishop_line(s, t)
        } else {
            holds_targets(mask, s, |a: int, b: int| rook_relevant(a, b)) && rook_line(s, t)
        },
    ensures
        clear_between(occ & mask, s, t) == clear_between(occ, s, t),
{
    broadcast use group_has_square;

    assert forall|m: int| 0 <= m < 64 && between(s, t, m) implies has_square(mask, m) by {
        assert(m == 8 * rank_of(m) + file_of(m));
    }
    if clear_between(occ & mask, s, t) {
        assert forall|m: int| 0 <= m < 64 && between(s, t, m) implies !has_square(occ, m) by {
            assert(!has_square(occ & mask, m));
        }
    }
}

/// The per-square tables of attacked squares of rooks and bishops, each indexed by
/// a hash of the occupancy of the squares that matter.
pub struct Magic {
    pub inner_rook_attack_bits: [BBoard; 64],
    pub inner_bishop_attack_bits: [BBoard; 64],
    pub rook_pop_bits: [u64; 64],
    pub bishop_pop_bits: [u64; 64],
    pub rook_shift_bits: [u64; 64],
    pub bishop_shift_bits: [u64; 64],
    pub rook_magic: [u64; 64],
    pub bishop_magic: [u64; 64],
    pub rook_attack_bits: Vec<Vec<BBoard>>,
    pub bishop_attack_bits: Vec<Vec<BBoard>>,
}

/// One table for each square, each of them in order for its square.
pub open spec fn tables_ok(
    tabs: Seq<Vec<u64>>,
    n: int,
    masks: [u64; 64],
    magics: [u64; 64],
    shifts: [u64; 64],
    sees: spec_fn(u64, int, int) -> bool,
) -> bool {
    forall|s: int|
        0 <= s < n ==> table_ok((#[trigger] tabs[s])@, s, masks[s], magics[s], shifts[s], sees)
}

/// The shift of each square leaves as many bits as the mask of the square has
/// squares.
pub open spec fn shifts_fit(shifts: [u64; 64], masks: [u64; 64]) -> bool {
    forall|s: int| 0 <= s < 64 ==> #[trigger] shifts[s] == 64 - square_count(masks[s])
}

impl Magic {
    /// The masks are those of the squares that matter, the multipliers are the
    /// tabulated ones, the shift of each square leaves as many bits as its mask has
    /// squares, and every table is in order for its square.
    pub open spec fn wf(&self) -> bool {
        &&& table_holds(self.inner_rook_attack_bits, |s: int, t: int| rook_relevant(s, t))
        &&& table_holds(self.inner_bishop_attack_bits, |s: int, t: int| bishop_relevant(s, t))
        &&& self.rook_magic@ == rook_magic_table()
        &&& self.bishop_magic@ == bishop_magic_table()
        &&& shifts_fit(self.rook_shift_bits, self.inner_rook_attack_bits)
        &&& shifts_fit(self.bishop_shift_bits, self.inner_bishop_attack_bits)
        &&& self.rook_attack_bits@.len() == 64
        &&& self.bishop_attack_bits@.len() == 64
        &&& tables_ok(
            self.rook_attack_bits@,
            64,
            self.inner_rook_attack_bits,
            self.rook_magic,
            self.rook_shift_bits,
            |occ: u64, s: int, t: int| rook_sees(occ, s, t),
        )
        &&& tables_ok(
            self.bishop_attack_bits@,
            64,
            self.inner_bishop_attack_bits,
            self.bishop_magic,
            self.bishop_shift_bits,
            |occ: u64, s: int, t: int| bishop_sees(occ, s, t),
        )
    }

    /// Builds the tables for the masks of `move_provider`, with the tabulated
    /// multipliers: the table of a square is filled exactly when its multiplier
    /// spreads the occupancies of its mask.
    pub fn new(move_provider: &PieceMoveProvider) -> (r: Magic)
        requires
            move_provider.wf(),
        ensures
            r.wf(),
            r.inner_rook_attack_bits == move_provider.inner_rook_attack_bits,
            r.inner_bishop_attack_bits == move_provider.inner_bishop_attack_bits,
            forall|s: int|
                0 <= s < 64 ==> ((#[trigger] r.rook_attack_bits@[s])@.len() != 0) == spreads(
                    s,
                    r.inner_rook_attack_bits[s],
                    r.rook_magic[s],
                    r.rook_shift_bits[s],
                    |occ: u64, a: int, t: int| rook_sees(occ, a, t),
                ),
            forall|s: int|
                0 <= s < 64 ==> ((#[trigger] r.bishop_attack_bits@[s])@.len() != 0) == spreads(
                    s,
                    r.inner_bishop_attack_bits[s],
                    r.bishop_magic[s],
                    r.bishop_shift_bits[s],
                    |occ: u64, a: int, t: int| bishop_sees(occ, a, t),
                ),
    {
        let mut result = Magic {
            inner_rook_attack_bits: move_provider.inner_rook_attack_bits,
            inner_bishop_attack_bits: move_provider.inner_bishop_attack_bits,
            rook_pop_bits: rook_pop_bits(),
            bishop_pop_bits: bishop_pop_bits(),
            rook_shift_bits: [0;64],
            bishop_shift_bits: [0;64],
            rook_magic: rook_magics(),
            bishop_magic: bishop_magics(),
            rook_attack_bits: Vec::new(),
            bishop_attack_bits: Vec::new(),
        };
        let ghost start = result;
        let mut i: usize = 0;
        while i < 64
            invariant
                0 <= i <= 64,
                move_provider.wf(),
                result.inner_rook_attack_bits == move_provider.inner_rook_attack_bits,
                result.inner_bishop_attack_bits == move_provider.inner_bishop_attack_bits,
                result.rook_magic == start.rook_magic,
                result.bishop_magic == start.bishop_magic,
                result.rook_pop_bits == start.rook_pop_bits,
                result.bishop_pop_bits == start.bishop_pop_bits,
                start.rook_pop_bits@ == rook_pop_table(),
                start.bishop_pop_bits@ == bishop_pop_table(),
                forall|s: int, mask: u64|
                    0 <= s < 64 && #[trigger] is_rook_mask(mask, s) ==> start.rook_pop_bits@[s]
                        == square_count(mask),
                forall|s: int, mask: u64|
                    0 <= s < 64 && #[trigger] is_bishop_mask(mask, s) ==> start.bishop_pop_bits@[s]
                        == square_count(mask),
                forall|j: int|
                    0 <= j < i ==> 52 <= #[trigger] result.rook_shift_bits[j] < 64
                        && result.rook_shift_bits[j] == 64 - square_count(
                        result.inner_rook_attack_bits[j],
                    ),
                forall|j: int|
                    0 <= j < i ==> 52 <= #[trigger] result.bishop_shift_bits[j] < 64
                        && result.bishop_shift_bits[j] == 64 - square_count(
                        result.inner_bishop_attack_bits[j],
                    ),
            decreases 64 - i,
        {
            proof {
                lemma_pop_tables(i as int);
                assert(is_rook_mask(result.inner_rook_attack_bits[i as int], i as int));
                assert(is_bishop_mask(result.inner_bishop_attack_bits[i as int], i as int));
            }
            let rp = result.rook_pop_bits[i];
            result.rook_shift_bits[i] = if 1 <= rp && rp <= 16 {
                64 - rp
            } else {
                63
            };
            let bp = result.bishop_pop_bits[i];
            result.bishop_shift_bits[i] = if 1 <= bp && bp <= 16 {
                64 - bp
            } else {
                63
            };
            i += 1;
        }
        result.init_magic();
        result
    }

    /// The squares that a bishop on square `idx` attacks when the occupied squares
    /// are `board`.
    pub fn get_bishop_attack_bits(&self, idx: usize, board: BBoard) -> (r: BBoard)
        requires
            self.wf(),
            idx < 64,
        ensures
            holds_targets(r, idx as int, |s: int, t: int| bishop_sees(board, s, t)),
    {
        let mask = self.inner_bishop_attack_bits[idx];
        let attack_bits = board & mask;
        let magic = self.bishop_magic[idx];
        let shift = self.bishop_shift_bits[idx];
        let table = &self.bishop_attack_bits[idx];
        proof {
            assert(table_ok(
                table@,
                idx as int,
                mask,
                magic,
                shift,
                |occ: u64, s: int, t: int| bishop_sees(occ, s, t),
            ));
            assert(holds_targets(mask, idx as int, |s: int, t: int| bishop_relevant(s, t)));
            lemma_masked_is_subset(board, mask);
        }
        let index = attack_bits.wrapping_mul(magic) >> shift;
        if index < table.len() as u64 {
            let r = table[index as usize];
            proof {
                assert(index == magic_index(attack_bits, magic, shift));
                assert forall|t: int| #[trigger]
                    has_square(r, t) == (0 <= t < 64 && bishop_sees(board, idx as int, t)) by {
                    if 0 <= t < 64 && bishop_line(idx as int, t) {
                        lemma_relevant_blockers(board, mask, idx as int, t, true);
                    }
                }
            }
            r
        } else {
            compute_bishop_attack_bits((idx % 8) as i32, (idx / 8) as i32, board)
        }
    }

    /// The squares that a rook on square `idx` attacks when the occupied squares are
    /// `board`.
    pub fn get_rook_attack_bits(&self, idx: usize, board: BBoard) -> (r: BBoard)
        requires
            self.wf(),
            idx < 64,
        ensures
            holds_targets(r, idx as int, |s: int, t: int| rook_sees(board, s, t)),
    {
        let mask = self.inner_rook_attack_bits[idx];
        let attack_bits = board & mask;
        let magic = self.rook_magic[idx];
        let shift = self.rook_shift_bits[idx];
        let table = &self.rook_attack_bits[idx];
        proof {
            assert(table_ok(
                table@,
                idx as int,
                mask,
                magic,
                shift,
                |occ: u64, s: int, t: int| rook_sees(occ, s, t),
            ));
            assert(holds_targets(mask, idx as int, |s: int, t: int| rook_relevant(s, t)));
            lemma_masked_is_subset(board, mask);
        }
        let index = attack_bits.wrapping_mul(magic) >> shift;
        if index < table.len() as u64 {
            let r = table[index as usize];
            proof {
                assert(index == magic_index(attack_bits, magic, shift));
                assert forall|t: int| #[trigger]
                    has_square(r, t) == (0 <= t < 64 && rook_sees(board, idx as int, t)) by {
                    if 0 <= t < 64 && rook_line(idx as int, t) {
                        lemma_relevant_blockers(board, mask, idx as int, t, false);
                    }
                }
            }
            r
        } else {
            compute_rook_attack_bits((idx % 8) as i32, (idx / 8) as i32, board)
        }
    }

    /// Fills the tables of both sliders.
    fn init_magic(&mut self)
        requires
            table_holds(old(self).inner_rook_attack_bits, |s: int, t: int| rook_relevant(s, t)),
            table_holds(
                old(self).inner_bishop_attack_bits,
                |s: int, t: int| bishop_relevant(s, t),
            ),
            old(self).rook_magic@ == rook_magic_table(),
            old(self).bishop_magic@ == bishop_magic_table(),
            shifts_fit(old(self).rook_shift_bits, old(self).inner_rook_attack_bits),
            shifts_fit(old(self).bishop_shift_bits, old(self).inner_bishop_attack_bits),
            forall|j: int| 0 <= j < 64 ==> #[trigger] old(self).rook_shift_bits[j] < 64,
            forall|j: int| 0 <= j < 64 ==> #[trigger] old(self).bishop_shift_bits[j] < 64,
        ensures
            final(self).wf(),
            final(self).inner_rook_attack_bits == old(self).inner_rook_attack_bits,
            final(self).inner_bishop_attack_bits == old(self).inner_bishop_attack_bits,
            final(self).rook_magic == old(self).rook_magic,
            final(self).bishop_magic == old(self).bishop_magic,
            final(self).rook_shift_bits == old(self).rook_shift_bits,
            final(self).bishop_shift_bits == old(self).bishop_shift_bits,
    {
        self.rook_attack_bits =
        init_rq_magic(
            &self.rook_shift_bits,
            &self.inner_rook_attack_bits,
            &self.rook_magic,
            compute_rook_attack_bits,
            Ghost(|occ: u64, s: int, t: int| rook_sees(occ, s, t)),
        );
        self.bishop_attack_bits =
        init_rq_magic(
            &self.bishop_shift_bits,
            &self.inner_bishop_attack_bits,
            &self.bishop_magic,
            compute_bishop_attack_bits,
            Ghost(|occ: u64, s: int, t: int| bishop_sees(occ, s, t)),
        );
    }
}

/// Every number of the two tables of bit counts is between five and twelve.
proof fn lemma_pop_tables(s: int)
    requires
        0 <= s < 64,
    ensures
        5 <= rook_pop_table()[s] <= 12,
        5 <= bishop_pop_table()[s] <= 12,
{
}

/// What is left of a board under a mask is a subset of the mask.
proof fn lemma_masked_is_subset(b: u64, mask: u64)
    ensures
        is_subset(b & mask, mask),
{
    broadcast use group_has_square;

    lemma_board_empty((b & mask) & !mask);
}

/// The tables of one slider, one for each square: each is filled from the walks
/// along the rays for every occupancy of the square's mask, and is left empty if the
/// square's multiplier sends two occupancies with different answers to one index.
fn init_rq_magic(
    shift_bits: &[u64; 64],
    inner_attack_bits: &[BBoard; 64],
    magic: &[u64; 64],
    attack_function: impl Fn(i32, i32, BBoard) -> BBoard,
    Ghost(sees): Ghost<spec_fn(u64, int, int) -> bool>,
) -> (r: Vec<Vec<BBoard>>)
    requires
        forall|x: i32, y: i32, f: u64|
            on_board(x as int, y as int) ==> call_requires(attack_function, (x, y, f)),
        forall|x: i32, y: i32, f: u64, a: u64|
            call_ensures(attack_function, (x, y, f), a) ==> holds_targets(
                a,
                square_at(x as int, y as int),
                |s: int, t: int| sees(f, s, t),
            ),
        forall|j: int| 0 <= j < 64 ==> #[trigger] shift_bits[j] < 64,
    ensures
        r@.len() == 64,
        tables_ok(r@, 64, *inner_attack_bits, *magic, *shift_bits, sees),
{
    let mut result: Vec<Vec<BBoard>> = Vec::new();
    let mut idx: usize = 0;
    while idx < 64
        invariant
            0 <= idx <= 64,
            result@.len() == idx,
            tables_ok(result@, idx as int, *inner_attack_bits, *magic, *shift_bits, sees),
            forall|j: int| 0 <= j < 64 ==> #[trigger] shift_bits[j] < 64,
            forall|x: i32, y: i32, f: u64|
                on_board(x as int, y as int) ==> call_requires(attack_function, (x, y, f)),
            forall|x: i32, y: i32, f: u64, a: u64|
                call_ensures(attack_function, (x, y, f), a) ==> holds_targets(
                    a,
                    square_at(x as int, y as int),
                    |s: int, t: int| sees(f, s, t),
                ),
        decreases 64 - idx,
    {
        let table = fill_table(
            idx,
            inner_attack_bits[idx],
            magic[idx],
            shift_bits[idx],
            &attack_function,
            Ghost(sees),
        );
        let ghost before = result@;
        result.push(table);
        proof {
            assert forall|s: int| 0 <= s < idx + 1 implies table_ok(
                (#[trigger] result@[s])@,
                s,
                inner_attack_bits[s],
                magic[s],
                shift_bits[s],
                sees,
            ) by {
                if s < idx {
                    assert(result@[s] == before[s]);
                }
            }
        }
        idx += 1;
    }
    result
}

/// The table of one square. It has one entry for each number of `64 - shift` bits.
/// At the index of each occupancy of the mask stands the board of the squares that
/// the slider attacks under that occupancy, by the walk along the rays; an entry
/// that is the index of no occupancy is empty. The table is filled exactly when the
/// shift leaves at most sixteen bits and the multiplier spreads the occupancies; else
/// no table can be had, and the result has no entry.
fn fill_table(
    idx: usize,
    mask: BBoard,
    magic: u64,
    shift: u64,
    attack_function: &impl Fn(i32, i32, BBoard) -> BBoard,
    Ghost(sees): Ghost<spec_fn(u64, int, int) -> bool>,
) -> (r: Vec<BBoard>)
    requires
        idx < 64,
        forall|x: i32, y: i32, f: u64|
            on_board(x as int, y as int) ==> call_requires(*attack_function, (x, y, f)),
        forall|x: i32, y: i32, f: u64, a: u64|
            call_ensures(*attack_function, (x, y, f), a) ==> holds_targets(
                a,
                square_at(x as int, y as int),
                |s: int, t: int| sees(f, s, t),
            ),
        shift < 64,
    ensures
        table_ok(r@, idx as int, mask, magic, shift, sees),
        (r@.len() != 0) == (shift >= 48 && spreads(idx as int, mask, magic, shift, sees)),
        r@.len() != 0 ==> r@.len() == 1u64 << ((64 - shift) as u64),
        forall|i: int|
            0 <= i < r@.len() && !is_index(i, mask, magic, shift) ==> #[trigger] r@[i] == 0,
{
    if shift < 48 {
        return Vec::new();
    }
    let bits: u64 = 64 - shift;
    proof {
        lemma_index_bound(0, bits);
    }
    let size: usize = (1u64 << bits) as usize;
    let mut table: Vec<BBoard> = vec![0u64; size];
    let mut used: Vec<bool> = vec![false; size];
    let ghost mut owner: Seq<u64> = Seq::new(size as nat, |i: int| 0u64);
    let x: i32 = (idx % 8) as i32;
    let y: i32 = (idx / 8) as i32;
    let mut sub: u64 = 0;
    proof {
        lemma_masked_is_subset(0, mask);
        assert(0u64 & mask == 0) by (bit_vector);
        assert(size > 0) by {
            assert(1u64 << bits > 0) by (bit_vector)
                requires
                    1 <= bits <= 16,
            ;
        }
    }
    loop
        invariant
            idx < 64,
            x == idx % 8,
            y == idx / 8,
            48 <= shift < 64,
            bits == 64 - shift,
            size == 1u64 << bits,
            0 < size <= 0x10000,
            table@.len() == size,
            used@.len() == size,
            owner.len() == size,
            is_subset(sub, mask),
            forall|x: i32, y: i32, f: u64|
                on_board(x as int, y as int) ==> call_requires(*attack_function, (x, y, f)),
            forall|x: i32, y: i32, f: u64, a: u64|
                call_ensures(*attack_function, (x, y, f), a) ==> holds_targets(
                    a,
                    square_at(x as int, y as int),
                    |s: int, t: int| sees(f, s, t),
                ),
            forall|t: u64|
                #![trigger magic_index(t, magic, shift)]
                is_subset(t, mask) && t < sub ==> 0 <= magic_index(t, magic, shift) < size
                    && used@[magic_index(t, magic, shift)] && holds_targets(
                    table@[magic_index(t, magic, shift)],
                    idx as int,
                    |a: int, b: int| sees(t, a, b),
                ),
            forall|i: int| 0 <= i < size && !#[trigger] used@[i] ==> table@[i] == 0,
            forall|i: int|
                0 <= i < size && #[trigger] used@[i] ==> is_subset(owner[i], mask) && magic_index(
                    owner[i],
                    magic,
                    shift,
                ) == i && holds_targets(
                    table@[i],
                    idx as int,
                    |a: int, b: int| sees(owner[i], a, b),
                ),
        ensures
            table_answers(table@, idx as int, mask, magic, shift, sees),
        decreases u64::MAX - sub,
    {
        let attack = attack_function(x, y, sub);
        let p = sub.wrapping_mul(magic);
        let i = (p >> shift) as usize;
        proof {
            lemma_index_bound(p, bits);
            assert(i == magic_index(sub, magic, shift));
        }
        if used[i] {
            if table[i] != attack {
                proof {
                    lemma_collision(
                        idx as int,
                        mask,
                        magic,
                        shift,
                        sees,
                        owner[i as int],
                        sub,
                        table@[i as int],
                        attack,
                    );
                }
                return Vec::new();
            }
        } else {
            table[i] = attack;
            used[i] = true;
            proof {
                owner = owner.update(i as int, sub);
            }
        }
        let next = sub.wrapping_sub(mask) & mask;
        proof {
            assert forall|t: u64|
                #![trigger magic_index(t, magic, shift)]
                is_subset(t, mask) && (t <= sub || (next != 0 && t < next)) implies 0
                    <= magic_index(t, magic, shift) < size && used@[magic_index(t, magic, shift)]
                    && holds_targets(
                    table@[magic_index(t, magic, shift)],
                    idx as int,
                    |a: int, b: int| sees(t, a, b),
                ) by {
                lemma_next_subset(sub, mask, t);
            }
            lemma_next_subset(sub, mask, 0);
        }
        if next == 0 {
            proof {
                assert forall|t: u64|
                    #![trigger magic_index(t, magic, shift)]
                    is_subset(t, mask) implies 0 <= magic_index(t, magic, shift) < table@.len()
                        && holds_targets(
                        table@[magic_index(t, magic, shift)],
                        idx as int,
                        |a: int, b: int| sees(t, a, b),
                    ) by {
                    lemma_next_subset(sub, mask, t);
                }
            }
            break ;
        }
        sub = next;
    }
    proof {
        lemma_answers_spread(table@, idx as int, mask, magic, shift, sees);
        assert forall|i: int|
            0 <= i < table@.len() && !is_index(i, mask, magic, shift) implies #[trigger] table@[i]
            == 0 by {
            if used@[i] {
                assert(magic_index(owner[i], magic, shift) == i);
            }
        }
    }
    table
}

/// The multiplier spreads the occupancies of the mask: two occupancies that it
/// sends to one index have the same answer, so that one entry serves both.
pub open spec fn spreads(
    s: int,
    mask: u64,
    magic: u64,
    shift: u64,
    sees: spec_fn(u64, int, int) -> bool,
) -> bool {
    forall|a: u64, b: u64|
        #![trigger magic_index(a, magic, shift), magic_index(b, magic, shift)]
        is_subset(a, mask) && is_subset(b, mask) && magic_index(a, magic, shift) == magic_index(
            b,
            magic,
            shift,
        ) ==> same_answer(a, b, s, sees)
}

/// The slider on `s` attacks the same squares under the occupancies `a` and `b`.
pub open spec fn same_answer(a: u64, b: u64, s: int, sees: spec_fn(u64, int, int) -> bool) -> bool {
    forall|t: int| 0 <= t < 64 ==> #[trigger] answer(sees, a, s, t) == answer(sees, b, s, t)
}

/// Whether the slider on `s` attacks `t` under the occupancy `occ`.
pub open spec fn answer(sees: spec_fn(u64, int, int) -> bool, occ: u64, s: int, t: int) -> bool {
    sees(occ, s, t)
}

/// Whether `i` is the index of some occupancy of the mask.
pub open spec fn is_index(i: int, mask: u64, magic: u64, shift: u64) -> bool {
    exists|t: u64| is_subset(t, mask) && #[trigger] magic_index(t, magic, shift) == i
}

/// Two occupancies with one index and different answers show that the multiplier
/// does not spread the occupancies.
proof fn lemma_collision(
    s: int,
    mask: u64,
    magic: u64,
    shift: u64,
    sees: spec_fn(u64, int, int) -> bool,
    a: u64,
    b: u64,
    ta: u64,
    tb: u64,
)
    requires
        is_subset(a, mask),
        is_subset(b, mask),
        magic_index(a, magic, shift) == magic_index(b, magic, shift),
        holds_targets(ta, s, |x: int, t: int| sees(a, x, t)),
        holds_targets(tb, s, |x: int, t: int| sees(b, x, t)),
        ta != tb,
    ensures
        !spreads(s, mask, magic, shift, sees),
{
    if spreads(s, mask, magic, shift, sees) {
        assert(same_answer(a, b, s, sees));
        assert forall|t: int| 0 <= t < 64 implies has_square(ta, t) == has_square(tb, t) by {
            assert(answer(sees, a, s, t) == answer(sees, b, s, t));
        }
        crate::bboard::lemma_board_ext(ta, tb);
    }
}

/// A table that answers every occupancy shows that the multiplier spreads the
/// occupancies.
proof fn lemma_answers_spread(
    tab: Seq<u64>,
    s: int,
    mask: u64,
    magic: u64,
    shift: u64,
    sees: spec_fn(u64, int, int) -> bool,
)
    requires
        table_answers(tab, s, mask, magic, shift, sees),
    ensures
        spreads(s, mask, magic, shift, sees),
{
    assert forall|a: u64, b: u64|
        #![trigger magic_index(a, magic, shift), magic_index(b, magic, shift)]
        is_subset(a, mask) && is_subset(b, mask) && magic_index(a, magic, shift) == magic_index(
            b,
            magic,
            shift,
        ) implies same_answer(a, b, s, sees) by {
        let e = tab[magic_index(a, magic, shift)];
        assert(holds_targets(e, s, |x: int, t: int| sees(a, x, t)));
        assert(holds_targets(e, s, |x: int, t: int| sees(b, x, t)));
        assert forall|t: int| 0 <= t < 64 implies #[trigger] answer(sees, a, s, t) == answer(
            sees,
            b,
            s,
            t,
        ) by {
            assert(has_square(e, t) == (0 <= t < 64 && sees(a, s, t)));
            assert(has_square(e, t) == (0 <= t < 64 && sees(b, s, t)));
        }
    }
}

} // verus!
