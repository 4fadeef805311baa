//! Writing what was read gives the text back, for every text in the canonical form
//! of Forsyth-Edwards notation.
use crate::bboard::{
    group_has_square, has_square, lemma_count_single, lemma_count_zero, lemma_lowest_square,
    lemma_mask_test, lowest_square, square_bit, square_count,
};
use crate::fen::{
    ParseError, board_scan, board_text, castle_text, decimal, digits_value, en_passant_of_field,
    en_passant_text, fen_bytes, fen_fields, field, grants, is_digit, joined, letter_byte,
    number_of_field, parse_fen, parse_number, placed, rank_text, reading_square, run_text,
    side_of_field, trimmed, with_en_passant,
};
use crate::fen_laws::{
    lemma_joined_fields, lemma_parse_assembled, lemma_trimmed_whole, no_blank,
};
use crate::position_laws::{lemma_and_commutes, lemma_only_square};
use crate::fen::chars_of;
use crate::messaging::lemma_ascii_chars;
use crate::state::{BBPiece, Position, Side, lemma_at_index, rights_board};
use vstd::string::StringSliceAdditionalSpecFns;
use vstd::prelude::*;

verus! {

/// The form of the text of a board from byte `i` on, where `done` ranks are
/// complete and `x` squares of the next rank are told: a letter tells one square, a
/// digit from 1 to 8 as many empty squares as it says and is followed by no other
/// digit, a rank has eight squares, a slash stands between two ranks, and the text
/// ends with the eighth rank.
pub open spec fn board_form(t: Seq<u8>, i: int, done: int, x: int, after_digit: bool) -> bool
    decreases t.len() - i,
{
    if i < 0 || done < 0 || done > 7 || x < 0 || x > 8 {
        false
    } else if x == 8 {
        if done == 7 {
            i == t.len()
        } else {
            i < t.len() && t[i] == 47 && board_form(t, i + 1, done + 1, 0, false)
        }
    } else if i >= t.len() {
        false
    } else if 49 <= t[i] && t[i] <= 56 {
        !after_digit && x + (t[i] - 48) <= 8 && board_form(t, i + 1, done, x + (t[i] - 48), true)
    } else if BBPiece::of_letter(t[i]) is Some {
        board_form(t, i + 1, done, x + 1, false)
    } else {
        false
    }
}

/// Whether the place is that of a board of a kind of piece or of all the pieces of
/// a side.
pub open spec fn piece_place(j: int) -> bool {
    0 <= j < 18 && j != 7 && j != 8 && j != 16 && j != 17
}

/// No board holds a square that comes at or after number `idx` in reading order.
pub open spec fn clean_from(b: Seq<u64>, idx: int) -> bool {
    forall|j: int, s: int|
        0 <= j < 18 && 0 <= s < 64 && reading_square(s) >= idx ==> !#[trigger] has_square(b[j], s)
}

/// The boards of the pieces of the two lists are the same.
pub open spec fn same_pieces(a: Seq<u64>, b: Seq<u64>) -> bool {
    forall|j: int| piece_place(j) ==> #[trigger] a[j] == b[j]
}

/// What follows the text of a rank: a slash and the ranks below, or nothing after
/// the last rank.
pub open spec fn tail_text(p: Position, done: int) -> Seq<u8> {
    if done < 7 {
        seq![47u8] + board_text(p, done + 1)
    } else {
        Seq::empty()
    }
}

/// The letter of the piece that a letter stands for is that letter.
pub proof fn lemma_letter_back(c: u8)
    requires
        BBPiece::of_letter(c) is Some,
    ensures
        letter_byte(BBPiece::of_letter(c).unwrap()) == c,
        BBPiece::of_letter(c).unwrap().index() % 9 < 6,
{
}

/// What the boards hold after a piece has been put on a square.
pub proof fn lemma_placed_has(b: Seq<u64>, pc: BBPiece, sq: int, j: int, s: int)
    requires
        b.len() == 18,
        0 <= sq < 64,
        0 <= j < 18,
    ensures
        placed(b, pc, sq).len() == 18,
        has_square(placed(b, pc, sq)[j], s) == (has_square(b[j], s) || (s == sq && (j
            == pc.index() || j == pc.side().base() + 6))),
{
    broadcast use group_has_square;

    lemma_at_index(pc);
}

/// Reading the rest of a text changes nothing on the squares that come before the
/// next square in reading order, and nothing on the boards of the rights and of the
/// marks.
pub proof fn lemma_scan_keeps(t: Seq<u8>, i: int, idx: int, b: Seq<u64>, j: int, s: int)
    requires
        b.len() == 18,
        0 <= i,
        0 <= idx,
        0 <= j < 18,
        0 <= s < 64,
        board_scan(t, i, idx, b) is Some,
    ensures
        board_scan(t, i, idx, b).unwrap().len() == 18,
        reading_square(s) < idx ==> has_square(board_scan(t, i, idx, b).unwrap()[j], s)
            == has_square(b[j], s),
        !piece_place(j) ==> board_scan(t, i, idx, b).unwrap()[j] == b[j],
    decreases t.len() - i,
{
    if i < t.len() {
        if t[i] == 47 {
            lemma_scan_keeps(t, i + 1, idx, b, j, s);
        } else if 49 <= t[i] && t[i] <= 56 {
            lemma_scan_keeps(t, i + 1, idx + (t[i] - 48), b, j, s);
        } else {
            let pc = BBPiece::of_letter(t[i]).unwrap();
            let sq = reading_square(idx);
            let b1 = placed(b, pc, sq);
            lemma_letter_back(t[i]);
            lemma_at_index(pc);
            lemma_placed_has(b, pc, sq, j, s);
            lemma_scan_keeps(t, i + 1, idx + 1, b1, j, s);
            assert(reading_square(sq) == idx);
        }
    }
}

/// What `piece_on` finds on a square that one piece holds, or none.
pub proof fn lemma_piece_on_cell(p: Position, s: int, holder: Option<BBPiece>)
    requires
        p.boards.len() == 18,
        0 <= s < 64,
        match holder {
            Some(pc) => pc.index() % 9 < 6 && forall|j: int|
                piece_place(j) ==> #[trigger] has_square(p.boards[j], s) == (j == pc.index() || j
                    == pc.side().base() + 6),
            None => forall|j: int| piece_place(j) ==> !#[trigger] has_square(p.boards[j], s),
        },
    ensures
        p.piece_on(square_bit(s)) == holder,
{
    reveal(Position::piece_on);
    let b = square_bit(s);
    assert forall|j: int| piece_place(j) implies (#[trigger] p.boards[j] & b > 0) == has_square(
        p.boards[j],
        s,
    ) && (b & p.boards[j] > 0) == has_square(p.boards[j], s) by {
        lemma_mask_test(p.boards[j], s);
        lemma_and_commutes(p.boards[j], b);
    }
    assert(piece_place(0) && piece_place(1) && piece_place(2) && piece_place(3) && piece_place(4)
        && piece_place(5) && piece_place(6) && piece_place(9) && piece_place(10) && piece_place(11)
        && piece_place(12) && piece_place(13) && piece_place(14) && piece_place(15));
    assert(has_square(p.boards[0], s) == (p.boards[0] & b > 0));
    assert(has_square(p.boards[1], s) == (p.boards[1] & b > 0));
    assert(has_square(p.boards[2], s) == (p.boards[2] & b > 0));
    assert(has_square(p.boards[3], s) == (p.boards[3] & b > 0));
    assert(has_square(p.boards[4], s) == (p.boards[4] & b > 0));
    assert(has_square(p.boards[5], s) == (p.boards[5] & b > 0));
    assert(has_square(p.boards[6], s) == (b & p.boards[6] > 0));
    assert(has_square(p.boards[9], s) == (p.boards[9] & b > 0));
    assert(has_square(p.boards[10], s) == (p.boards[10] & b > 0));
    assert(has_square(p.boards[11], s) == (p.boards[11] & b > 0));
    assert(has_square(p.boards[12], s) == (p.boards[12] & b > 0));
    assert(has_square(p.boards[13], s) == (p.boards[13] & b > 0));
    assert(has_square(p.boards[14], s) == (p.boards[14] & b > 0));
    assert(has_square(p.boards[15], s) == (b & p.boards[15] > 0));
    match holder {
        Some(pc) => {
            lemma_at_index(pc);
        },
        None => {},
    }
}

/// Empty squares only make the run of empty squares longer.
pub proof fn lemma_rank_text_empties(p: Position, y: int, x: int, d: int, count: int)
    requires
        0 <= x,
        0 <= d,
        x + d <= 8,
        forall|k: int| x <= k < x + d ==> p.piece_on(#[trigger] square_bit(y * 8 + k)) is None,
    ensures
        rank_text(p, y, x, count) == rank_text(p, y, x + d, count + d),
    decreases d,
{
    if d > 0 {
        assert(p.piece_on(square_bit(y * 8 + x)) is None);
        lemma_rank_text_empties(p, y, x + 1, d - 1, count + 1);
    }
}


/// A text in the form of a board is read without error.
pub proof fn lemma_form_is_read(
    t: Seq<u8>,
    i: int,
    done: int,
    x: int,
    after_digit: bool,
    b: Seq<u64>,
)
    requires
        board_form(t, i, done, x, after_digit),
    ensures
        board_scan(t, i, done * 8 + x, b) is Some,
    decreases t.len() - i,
{
    if x == 8 {
        if done < 7 {
            lemma_form_is_read(t, i + 1, done + 1, 0, false, b);
        }
    } else if 49 <= t[i] && t[i] <= 56 {
        lemma_form_is_read(t, i + 1, done, x + (t[i] - 48), true, b);
    } else {
        let pc = BBPiece::of_letter(t[i]).unwrap();
        let b1 = placed(b, pc, reading_square(done * 8 + x));
        lemma_form_is_read(t, i + 1, done, x + 1, false, b1);
    }
}

/// What `piece_on` finds, in a position that has the boards which the rest of a
/// text is read into, on a square that comes before the next square in reading
/// order: what the boards held there before the rest was read.
pub proof fn lemma_cell_after(
    t: Seq<u8>,
    i: int,
    idx: int,
    b: Seq<u64>,
    p: Position,
    s: int,
    holder: Option<BBPiece>,
)
    requires
        b.len() == 18,
        p.boards.len() == 18,
        0 <= i,
        0 <= idx,
        0 <= s < 64,
        reading_square(s) < idx,
        board_scan(t, i, idx, b) is Some,
        same_pieces(p.boards, board_scan(t, i, idx, b).unwrap()),
        match holder {
            Some(pc) => pc.index() % 9 < 6 && forall|j: int|
                piece_place(j) ==> #[trigger] has_square(b[j], s) == (j == pc.index() || j
                    == pc.side().base() + 6),
            None => forall|j: int| piece_place(j) ==> !#[trigger] has_square(b[j], s),
        },
    ensures
        p.piece_on(square_bit(s)) == holder,
{
    let f = board_scan(t, i, idx, b).unwrap();
    assert forall|j: int| piece_place(j) implies #[trigger] has_square(p.boards[j], s)
        == has_square(b[j], s) by {
        lemma_scan_keeps(t, i, idx, b, j, s);
        assert(p.boards[j] == f[j]);
    }
    lemma_piece_on_cell(p, s, holder);
}

/// The text of a board that is in form is what is written for the position that it
/// is read as: from each place in the text on, the text is that of the rest of the
/// rank and of the ranks below.
pub proof fn lemma_board_written_back(
    t: Seq<u8>,
    i: int,
    done: int,
    x: int,
    after_digit: bool,
    b: Seq<u64>,
    p: Position,
)
    requires
        board_form(t, i, done, x, after_digit),
        !after_digit || x == 8,
        b.len() == 18,
        p.boards.len() == 18,
        clean_from(b, done * 8 + x),
        board_scan(t, i, done * 8 + x, b) is Some,
        same_pieces(p.boards, board_scan(t, i, done * 8 + x, b).unwrap()),
    ensures
        t.subrange(i, t.len() as int) == rank_text(p, 7 - done, x, 0) + tail_text(p, done),
    decreases t.len() - i, 1int,
{
    if x == 8 {
        lemma_written_rank_end(t, i, done, x, after_digit, b, p);
    } else if 49 <= t[i] && t[i] <= 56 {
        if x + (t[i] - 48) == 8 {
            lemma_written_last_run(t, i, done, x, after_digit, b, p);
        } else {
            lemma_written_run(t, i, done, x, after_digit, b, p);
        }
    } else {
        lemma_written_letter(t, i, done, x, after_digit, b, p);
    }
}

/// The text from the end of a rank on.
proof fn lemma_written_rank_end(
    t: Seq<u8>,
    i: int,
    done: int,
    x: int,
    after_digit: bool,
    b: Seq<u64>,
    p: Position,
)
    requires
        board_form(t, i, done, x, after_digit),
        !after_digit || x == 8,
        b.len() == 18,
        p.boards.len() == 18,
        clean_from(b, done * 8 + x),
        board_scan(t, i, done * 8 + x, b) is Some,
        same_pieces(p.boards, board_scan(t, i, done * 8 + x, b).unwrap()),
        x == 8,
    ensures
        t.subrange(i, t.len() as int) == rank_text(p, 7 - done, x, 0) + tail_text(p, done),
    decreases t.len() - i, 0int,
{
    let y = 7 - done;
    let rest = t.subrange(i, t.len() as int);
    assert(rank_text(p, y, 8, 0) =~= Seq::<u8>::empty());
    if done == 7 {
        assert(rest =~= rank_text(p, y, x, 0) + tail_text(p, done));
    } else {
        lemma_board_written_back(t, i + 1, done + 1, 0, false, b, p);
        let below = t.subrange(i + 1, t.len() as int);
        lemma_board_text_unfold(p, done + 1);
        assert(below == board_text(p, done + 1));
        assert(rest =~= seq![47u8] + below);
        assert(rest =~= rank_text(p, y, x, 0) + tail_text(p, done));
    }
}

/// The text from a digit on that tells the last squares of a rank.
proof fn lemma_written_last_run(
    t: Seq<u8>,
    i: int,
    done: int,
    x: int,
    after_digit: bool,
    b: Seq<u64>,
    p: Position,
)
    requires
        board_form(t, i, done, x, after_digit),
        !after_digit || x == 8,
        b.len() == 18,
        p.boards.len() == 18,
        clean_from(b, done * 8 + x),
        board_scan(t, i, done * 8 + x, b) is Some,
        same_pieces(p.boards, board_scan(t, i, done * 8 + x, b).unwrap()),
        x < 8,
        49 <= t[i] && t[i] <= 56,
        x + (t[i] - 48) == 8,
    ensures
        t.subrange(i, t.len() as int) == rank_text(p, 7 - done, x, 0) + tail_text(p, done),
    decreases t.len() - i, 0int,
{
    let y = 7 - done;
    let rest = t.subrange(i, t.len() as int);
    let d = t[i] - 48;
    lemma_board_written_back(t, i + 1, done, 8, true, b, p);
    assert forall|k: int| x <= k < x + d implies p.piece_on(#[trigger] square_bit(y * 8 + k))
        is None by {
        assert(reading_square(y * 8 + k) == done * 8 + k);
        lemma_cell_after(t, i + 1, done * 8 + 8, b, p, y * 8 + k, None);
    }
    lemma_rank_text_empties(p, y, x, d, 0);
    assert(rank_text(p, y, 8, d) =~= seq![t[i]]);
    assert(rank_text(p, y, 8, 0) =~= Seq::<u8>::empty());
    assert(rest =~= seq![t[i]] + t.subrange(i + 1, t.len() as int));
    assert(rest =~= rank_text(p, y, x, 0) + tail_text(p, done));
}

/// The boards with a piece put on the next square are clean behind that square, and
/// hold the piece there.
proof fn lemma_placed_clean(b: Seq<u64>, pc: BBPiece, idx: int, before: int)
    requires
        b.len() == 18,
        0 <= before <= idx < 64,
        clean_from(b, before),
    ensures
        clean_from(placed(b, pc, reading_square(idx)), idx + 1),
        forall|j: int|
            piece_place(j) ==> #[trigger] has_square(
                placed(b, pc, reading_square(idx))[j],
                reading_square(idx),
            ) == (j == pc.index() || j == pc.side().base() + 6),
        forall|j: int, s: int|
            piece_place(j) && 0 <= s < 64 && before <= reading_square(s) < idx
                ==> !#[trigger] has_square(placed(b, pc, reading_square(idx))[j], s),
{
    let sq = reading_square(idx);
    let b1 = placed(b, pc, sq);
    assert(reading_square(sq) == idx);
    assert forall|j: int, s: int|
        0 <= j < 18 && 0 <= s < 64 && reading_square(s) >= idx + 1 implies !#[trigger] has_square(
        b1[j],
        s,
    ) by {
        lemma_placed_has(b, pc, sq, j, s);
    }
    assert forall|j: int| piece_place(j) implies #[trigger] has_square(b1[j], sq) == (j
        == pc.index() || j == pc.side().base() + 6) by {
        lemma_placed_has(b, pc, sq, j, sq);
    }
    assert forall|j: int, s: int|
        piece_place(j) && 0 <= s < 64 && before <= reading_square(s) < idx implies !(
        #[trigger] has_square(b1[j], s)) by {
        lemma_placed_has(b, pc, sq, j, s);
    }
}

/// A digit that does not end its rank is followed by a letter, and the two are read
/// as a run of empty squares and a piece behind them.
proof fn lemma_run_then_letter(t: Seq<u8>, i: int, done: int, x: int, b: Seq<u64>)
    requires
        board_form(t, i, done, x, false),
        0 <= x < 8,
        49 <= t[i] && t[i] <= 56,
        x + (t[i] - 48) < 8,
    ensures
        i + 1 < t.len(),
        BBPiece::of_letter(t[i + 1]) is Some,
        board_form(t, i + 2, done, x + (t[i] - 48) + 1, false),
        board_scan(t, i, done * 8 + x, b) == board_scan(
            t,
            i + 2,
            done * 8 + x + (t[i] - 48) + 1,
            placed(
                b,
                BBPiece::of_letter(t[i + 1]).unwrap(),
                reading_square(done * 8 + x + (t[i] - 48)),
            ),
        ),
{
    reveal_with_fuel(board_form, 3);
    reveal_with_fuel(board_scan, 3);
    let d = t[i] - 48;
    assert(board_form(t, i + 1, done, x + d, true));
    assert(board_scan(t, i, done * 8 + x, b) == board_scan(t, i + 1, done * 8 + x + d, b));
}

/// The text from a digit on that is followed by a letter.
#[verifier::rlimit(80)]
proof fn lemma_written_run(
    t: Seq<u8>,
    i: int,
    done: int,
    x: int,
    after_digit: bool,
    b: Seq<u64>,
    p: Position,
)
    requires
        board_form(t, i, done, x, after_digit),
        !after_digit || x == 8,
        b.len() == 18,
        p.boards.len() == 18,
        clean_from(b, done * 8 + x),
        board_scan(t, i, done * 8 + x, b) is Some,
        same_pieces(p.boards, board_scan(t, i, done * 8 + x, b).unwrap()),
        x < 8,
        49 <= t[i] && t[i] <= 56,
        x + (t[i] - 48) < 8,
    ensures
        t.subrange(i, t.len() as int) == rank_text(p, 7 - done, x, 0) + tail_text(p, done),
    decreases t.len() - i, 0int,
{
    let y = 7 - done;
    let idx = done * 8 + x;
    let rest = t.subrange(i, t.len() as int);
    let d = t[i] - 48;
    lemma_run_then_letter(t, i, done, x, b);
    let pc = BBPiece::of_letter(t[i + 1]).unwrap();
    let sq = y * 8 + (x + d);
    assert(reading_square(idx + d) == sq);
    let b1 = placed(b, pc, sq);
    lemma_letter_back(t[i + 1]);
    lemma_placed_clean(b, pc, idx + d, idx);
    lemma_board_written_back(t, i + 2, done, x + d + 1, false, b1, p);
    assert forall|k: int| x <= k < x + d implies p.piece_on(#[trigger] square_bit(y * 8 + k))
        is None by {
        assert(reading_square(y * 8 + k) == done * 8 + k);
        lemma_cell_after(t, i + 2, idx + d + 1, b1, p, y * 8 + k, None);
    }
    assert(reading_square(sq) == idx + d);
    lemma_cell_after(t, i + 2, idx + d + 1, b1, p, sq, Some(pc));
    lemma_rank_text_empties(p, y, x, d, 0);
    let after = t.subrange(i + 2, t.len() as int);
    let next = rank_text(p, y, x + d + 1, 0);
    assert(after == next + tail_text(p, done));
    assert(run_text(d) =~= seq![t[i]]);
    assert(letter_byte(pc) == t[i + 1]);
    assert(rank_text(p, y, x + d, d) == run_text(d) + seq![letter_byte(pc)] + next);
    assert(rank_text(p, y, x, 0) == seq![t[i]] + seq![t[i + 1]] + next);
    assert(rest =~= seq![t[i]] + seq![t[i + 1]] + after);
    assert(seq![t[i]] + seq![t[i + 1]] + (next + tail_text(p, done)) =~= seq![t[i]] + seq![
        t[i + 1],
    ] + next + tail_text(p, done));
}

/// The text from a letter on.
proof fn lemma_written_letter(
    t: Seq<u8>,
    i: int,
    done: int,
    x: int,
    after_digit: bool,
    b: Seq<u64>,
    p: Position,
)
    requires
        board_form(t, i, done, x, after_digit),
        !after_digit || x == 8,
        b.len() == 18,
        p.boards.len() == 18,
        clean_from(b, done * 8 + x),
        board_scan(t, i, done * 8 + x, b) is Some,
        same_pieces(p.boards, board_scan(t, i, done * 8 + x, b).unwrap()),
        x < 8,
        !(49 <= t[i] && t[i] <= 56),
    ensures
        t.subrange(i, t.len() as int) == rank_text(p, 7 - done, x, 0) + tail_text(p, done),
    decreases t.len() - i, 0int,
{
    let y = 7 - done;
    let idx = done * 8 + x;
    let rest = t.subrange(i, t.len() as int);
    let pc = BBPiece::of_letter(t[i]).unwrap();
    let sq = y * 8 + x;
    assert(reading_square(idx) == sq);
    assert(reading_square(sq) == idx);
    let b1 = placed(b, pc, sq);
    lemma_letter_back(t[i]);
    lemma_placed_clean(b, pc, idx, idx);
    lemma_board_written_back(t, i + 1, done, x + 1, false, b1, p);
    lemma_cell_after(t, i + 1, idx + 1, b1, p, sq, Some(pc));
    assert(rank_text(p, y, x, 0) == run_text(0) + seq![letter_byte(pc)] + rank_text(
        p,
        y,
        x + 1,
        0,
    ));
    assert(rest =~= seq![t[i]] + t.subrange(i + 1, t.len() as int));
    assert(rest =~= rank_text(p, y, x, 0) + tail_text(p, done));
}

/// The text of the board from a rank on is the text of the rank and what follows
/// it.
pub proof fn lemma_board_text_unfold(p: Position, done: int)
    requires
        0 <= done <= 7,
    ensures
        board_text(p, done) == rank_text(p, 7 - done, 0, 0) + tail_text(p, done),
{
    if done == 7 {
        assert(board_text(p, done) =~= rank_text(p, 0, 0, 0) + Seq::<u8>::empty());
    } else {
        assert(board_text(p, done) =~= rank_text(p, 7 - done, 0, 0) + (seq![47u8] + board_text(
            p,
            done + 1,
        )));
    }
}


/// Every byte of a text in the form of a board is a letter, a digit or a slash,
/// and the text is not empty.
pub proof fn lemma_form_bytes(t: Seq<u8>, i: int, done: int, x: int, after_digit: bool, k: int)
    requires
        board_form(t, i, done, x, after_digit),
        i <= k < t.len(),
    ensures
        t[k] > 32,
    decreases t.len() - i,
{
    if x == 8 {
        if done < 7 && k > i {
            lemma_form_bytes(t, i + 1, done + 1, 0, false, k);
        }
    } else if 49 <= t[i] && t[i] <= 56 {
        if k > i {
            lemma_form_bytes(t, i + 1, done, x + (t[i] - 48), true, k);
        }
    } else {
        if k > i {
            lemma_form_bytes(t, i + 1, done, x + 1, false, k);
        }
    }
}

/// The form of a move counter: decimal digits that make a number of at most
/// thirty-two bits, without a zero in front of another digit.
pub open spec fn number_form(h: Seq<u8>) -> bool {
    &&& h.len() >= 1
    &&& forall|i: int| 0 <= i < h.len() ==> is_digit(#[trigger] h[i])
    &&& h.len() > 1 ==> h[0] != 48
    &&& digits_value(h) <= u32::MAX
}

/// Digits that do not start with a zero make a number that is not zero.
proof fn lemma_value_positive(h: Seq<u8>)
    requires
        h.len() >= 1,
        forall|i: int| 0 <= i < h.len() ==> is_digit(#[trigger] h[i]),
        h[0] != 48,
    ensures
        digits_value(h) >= 1,
    decreases h.len(),
{
    if h.len() > 1 {
        let d = h.drop_last();
        assert(d[0] == h[0]);
        assert forall|i: int| 0 <= i < d.len() implies is_digit(#[trigger] d[i]) by {
            assert(d[i] == h[i]);
        }
        lemma_value_positive(d);
    } else {
        assert(h.drop_last().len() == 0);
        assert(h.last() == h[0]);
        assert(is_digit(h[0]));
    }
}

/// The digits of a number without a zero in front are the decimal notation of the
/// number.
pub proof fn lemma_number_written_back(h: Seq<u8>)
    requires
        h.len() >= 1,
        forall|i: int| 0 <= i < h.len() ==> is_digit(#[trigger] h[i]),
        h.len() > 1 ==> h[0] != 48,
    ensures
        decimal(digits_value(h)) == h,
    decreases h.len(),
{
    let d = h.drop_last();
    let last = h.last();
    assert(is_digit(h[h.len() - 1]));
    if h.len() == 1 {
        assert(d.len() == 0);
        assert(digits_value(d) == 0);
        assert(digits_value(h) == last - 48);
        assert(decimal(digits_value(h)) =~= h);
    } else {
        assert(d[0] == h[0]);
        assert forall|i: int| 0 <= i < d.len() implies is_digit(#[trigger] d[i]) by {
            assert(d[i] == h[i]);
        }
        lemma_value_positive(d);
        lemma_number_written_back(d);
        let v = digits_value(h);
        assert(v == digits_value(d) * 10 + (last - 48));
        assert(v / 10 == digits_value(d));
        assert(v % 10 == last - 48);
        assert(decimal(v) == decimal(digits_value(d)).push((48 + v % 10) as u8));
        assert(decimal(v) =~= h);
    }
}

/// The letters of the castling rights that are there, in the order `KQkq`, and a
/// dash for none.
pub open spec fn rights_text(wk: bool, wq: bool, bk: bool, bq: bool) -> Seq<u8> {
    let t = (if wk {
        seq![75u8]
    } else {
        Seq::empty()
    }) + (if wq {
        seq![81u8]
    } else {
        Seq::empty()
    }) + (if bk {
        seq![107u8]
    } else {
        Seq::empty()
    }) + (if bq {
        seq![113u8]
    } else {
        Seq::empty()
    });
    if t.len() == 0 {
        seq![45u8]
    } else {
        t
    }
}

/// The form of the castling rights: the letters of `KQkq` that the field holds, each
/// once and in this order, or a dash where it holds none.
pub open spec fn castle_form(c: Seq<u8>) -> bool {
    c == rights_text(c.contains(75), c.contains(81), c.contains(107), c.contains(113))
}

/// The form of the square to capture in passing: a dash, or a file letter from `a`
/// to `h` and a rank digit from `1` to `8`.
pub open spec fn en_passant_form(e: Seq<u8>) -> bool {
    e == seq![45u8] || (e.len() == 2 && 97 <= e[0] && e[0] <= 104 && 49 <= e[1] && e[1] <= 56)
}

/// The form of the side to move: `w` or `b`.
pub open spec fn side_form(s: Seq<u8>) -> bool {
    s == seq![119u8] || s == seq![98u8]
}

/// No text of castling rights holds a blank.
proof fn lemma_rights_text_bytes(wk: bool, wq: bool, bk: bool, bq: bool)
    ensures
        no_blank(rights_text(wk, wq, bk, bq)),
{
    let t1: Seq<u8> = if wk {
        seq![75u8]
    } else {
        Seq::empty()
    };
    let t2: Seq<u8> = if wq {
        seq![81u8]
    } else {
        Seq::empty()
    };
    let t3: Seq<u8> = if bk {
        seq![107u8]
    } else {
        Seq::empty()
    };
    let t4: Seq<u8> = if bq {
        seq![113u8]
    } else {
        Seq::empty()
    };
    let t = t1 + t2 + t3 + t4;
    assert forall|k: int| 0 <= k < t.len() implies #[trigger] t[k] != 32 by {}
}

/// What is written for the square to capture in passing that was read from a field
/// in form is the field.
proof fn lemma_en_passant_written_back(e: Seq<u8>, p: Position, ep: u64)
    requires
        en_passant_form(e),
        en_passant_of_field(Some(e)) == Some(ep),
        p.boards.len() == 18,
        p.boards[8] | p.boards[17] == ep,
    ensures
        en_passant_text(p) == e,
{
    broadcast use group_has_square;

    if e.len() == 2 {
        let s = (e[1] - 49) * 8 + (e[0] - 97);
        assert(ep == square_bit(s));
        assert forall|t: int| 0 <= t < 64 implies has_square(ep, t) == (t == s) by {}
        lemma_only_square(ep, s);
        lemma_lowest_square(ep);
        assert(has_square(ep, s));
        assert(ep != 0);
        assert(has_square(ep, lowest_square(ep)));
        assert(lowest_square(ep) == s);
        assert(en_passant_text(p) =~= e);
    } else {
        lemma_count_zero(0, 64);
        assert(en_passant_text(p) =~= e);
    }
}

/// The position that six fields in form are read as: the pieces of the board text
/// on their squares, the side, the rights whose letters the third field holds, the
/// mark of the square that the fourth field names, and the two numbers.
pub open spec fn read_position(    b: Seq<u8>,
    s: Seq<u8>,
    c: Seq<u8>,
    e: Seq<u8>,
    h: Seq<u8>,
    f: Seq<u8>,
) -> Position {
    let b0 = board_scan(b, 0, 0, Seq::new(18, |i: int| 0u64)).unwrap();
    let b1 = b0.update(7, rights_board(c.contains(75), c.contains(81))).update(
        16,
        rights_board(c.contains(107), c.contains(113)),
    );
    let ep = en_passant_of_field(Some(e)).unwrap();
    Position {
        side: if s == seq![119u8] {
            Side::White
        } else {
            Side::Black
        },
        boards: if ep != 0 {
            with_en_passant(b1, ep)
        } else {
            b1
        },
        half_moves: digits_value(h) as int,
        full_moves: digits_value(f) as int,
    }
}

/// Six fields in form with one blank between two of them are read without error,
/// as `read_position` of them.
pub proof fn lemma_fen_is_read(
    b: Seq<u8>,
    s: Seq<u8>,
    c: Seq<u8>,
    e: Seq<u8>,
    h: Seq<u8>,
    f: Seq<u8>,
)
    requires
        board_form(b, 0, 0, 0, false),
        side_form(s),
        castle_form(c),
        en_passant_form(e),
        number_form(h),
        number_form(f),
    ensures
        parse_fen(joined(seq![b, s, c, e, h, f], 0)) == Ok::<Position, ParseError>(
            read_position(b, s, c, e, h, f),
        ),
{
    let fs = seq![b, s, c, e, h, f];
    let t = joined(fs, 0);
    let zero = Seq::new(18, |i: int| 0u64);
    lemma_rights_text_bytes(c.contains(75), c.contains(81), c.contains(107), c.contains(113));
    assert(no_blank(b)) by {
        assert forall|k: int| 0 <= k < b.len() implies #[trigger] b[k] != 32 by {
            lemma_form_bytes(b, 0, 0, 0, false, k);
        }
    }
    assert(no_blank(h)) by {
        assert forall|k: int| 0 <= k < h.len() implies #[trigger] h[k] != 32 by {
            assert(is_digit(h[k]));
        }
    }
    assert(no_blank(f)) by {
        assert forall|k: int| 0 <= k < f.len() implies #[trigger] f[k] != 32 by {
            assert(is_digit(f[k]));
        }
    }
    assert(no_blank(s));
    assert(no_blank(e));
    assert(no_blank(c));
    assert forall|k: int| 0 <= k < fs.len() implies no_blank(#[trigger] fs[k]) by {}
    lemma_joined_fields(fs, 0, 0);
    lemma_joined_fields(fs, 0, 1);
    lemma_joined_fields(fs, 0, 2);
    lemma_joined_fields(fs, 0, 3);
    lemma_joined_fields(fs, 0, 4);
    lemma_joined_fields(fs, 0, 5);
    lemma_text_ends(fs);
    lemma_form_bytes(b, 0, 0, 0, false, 0);
    assert(is_digit(f[f.len() - 1]));
    lemma_trimmed_whole(t);
    lemma_form_is_read(b, 0, 0, 0, false, zero);
    let b0 = board_scan(b, 0, 0, zero).unwrap();
    let side = if s == seq![119u8] {
        Side::White
    } else {
        Side::Black
    };
    assert(side_of_field(Some(s)) == Some(side)) by {
        assert(s[0] == if side == Side::White {
            119u8
        } else {
            98u8
        });
    }
    let ep = en_passant_of_field(Some(e)).unwrap();
    let half = digits_value(h) as u32;
    let full = digits_value(f) as u32;
    assert(number_of_field(Some(h)) == Some(half));
    assert(number_of_field(Some(f)) == Some(full));
    lemma_parse_assembled(t, b0, side, ep, half, full);
    assert(field(t, 2) == Some(c));
}

/// What is written for the board of the position that six fields in form are read
/// as is the first field.
proof fn lemma_board_field_back(
    b: Seq<u8>,
    s: Seq<u8>,
    c: Seq<u8>,
    e: Seq<u8>,
    h: Seq<u8>,
    f: Seq<u8>,
)
    requires
        board_form(b, 0, 0, 0, false),
        side_form(s),
        castle_form(c),
        en_passant_form(e),
        number_form(h),
        number_form(f),
    ensures
        board_text(read_position(b, s, c, e, h, f), 0) == b,
        read_position(b, s, c, e, h, f).boards.len() == 18,
        read_position(b, s, c, e, h, f).boards[7] == rights_board(c.contains(75), c.contains(81)),
        read_position(b, s, c, e, h, f).boards[16] == rights_board(
            c.contains(107),
            c.contains(113),
        ),
        read_position(b, s, c, e, h, f).boards[8] | read_position(b, s, c, e, h, f).boards[17]
            == en_passant_of_field(Some(e)).unwrap(),
{
    let zero = Seq::new(18, |i: int| 0u64);
    let p = read_position(b, s, c, e, h, f);
    lemma_form_is_read(b, 0, 0, 0, false, zero);
    let b0 = board_scan(b, 0, 0, zero).unwrap();
    let ep = en_passant_of_field(Some(e)).unwrap();
    lemma_scan_keeps(b, 0, 0, zero, 7, 0);
    lemma_scan_keeps(b, 0, 0, zero, 8, 0);
    lemma_scan_keeps(b, 0, 0, zero, 16, 0);
    lemma_scan_keeps(b, 0, 0, zero, 17, 0);
    assert(b0.len() == 18 && b0[8] == 0 && b0[17] == 0);
    let b1 = b0.update(7, rights_board(c.contains(75), c.contains(81))).update(
        16,
        rights_board(c.contains(107), c.contains(113)),
    );
    assert(b1[8] == 0 && b1[17] == 0);
    assert(ep | 0 == ep && 0 | ep == ep && 0u64 | 0u64 == 0u64) by (bit_vector);
    assert(p.boards.len() == 18);
    assert(same_pieces(p.boards, b0));
    assert(clean_from(zero, 0)) by {
        broadcast use group_has_square;

    }
    lemma_board_written_back(b, 0, 0, 0, false, zero, p);
    lemma_board_text_unfold(p, 0);
    assert(b.subrange(0, b.len() as int) =~= b);
}

/// What is written for the castling rights that were read from a field in form is
/// the field.
proof fn lemma_castle_field_back(c: Seq<u8>, p: Position)
    requires
        castle_form(c),
        p.boards.len() == 18,
        p.boards[7] == rights_board(c.contains(75), c.contains(81)),
        p.boards[16] == rights_board(c.contains(107), c.contains(113)),
    ensures
        castle_text(p) == c,
{
    assert((3u64 & 1 > 0) && (3u64 & 2 > 0) && (1u64 & 1 > 0) && !(1u64 & 2 > 0) && !(2u64 & 1
        > 0) && (2u64 & 2 > 0) && !(0u64 & 1 > 0) && !(0u64 & 2 > 0)) by (bit_vector);
    assert(castle_text(p) =~= rights_text(
        c.contains(75),
        c.contains(81),
        c.contains(107),
        c.contains(113),
    ));
}

/// A text that is six fields in form with one blank between two of them is read
/// without error, and what is written for the position that it is read as is the
/// text again.
pub proof fn lemma_fen_written_back(
    b: Seq<u8>,
    s: Seq<u8>,
    c: Seq<u8>,
    e: Seq<u8>,
    h: Seq<u8>,
    f: Seq<u8>,
)
    requires
        board_form(b, 0, 0, 0, false),
        side_form(s),
        castle_form(c),
        en_passant_form(e),
        number_form(h),
        number_form(f),
    ensures
        parse_fen(joined(seq![b, s, c, e, h, f], 0)) is Ok,
        fen_bytes(parse_fen(joined(seq![b, s, c, e, h, f], 0))->Ok_0) == joined(
            seq![b, s, c, e, h, f],
            0,
        ),
{
    let fs = seq![b, s, c, e, h, f];
    let p = read_position(b, s, c, e, h, f);
    lemma_fen_is_read(b, s, c, e, h, f);
    lemma_board_field_back(b, s, c, e, h, f);
    lemma_castle_field_back(c, p);
    lemma_en_passant_written_back(e, p, en_passant_of_field(Some(e)).unwrap());
    lemma_number_written_back(h);
    lemma_number_written_back(f);
    assert(fen_fields(p)[1] =~= s);
    assert(fen_fields(p) =~= fs);
}

/// Writing what was read gives the text back: a text in ASCII that is six fields
/// in form with one blank between two of them is read by `from_fen` without error,
/// and what `to_fen` writes for the position is the text again.
pub proof fn lemma_fen_text_written_back(
    text: &str,
    b: Seq<u8>,
    s: Seq<u8>,
    c: Seq<u8>,
    e: Seq<u8>,
    h: Seq<u8>,
    f: Seq<u8>,
)
    requires
        text.is_ascii(),
        text.spec_bytes() == joined(seq![b, s, c, e, h, f], 0),
        board_form(b, 0, 0, 0, false),
        side_form(s),
        castle_form(c),
        en_passant_form(e),
        number_form(h),
        number_form(f),
    ensures
        parse_fen(text.spec_bytes()) is Ok,
        chars_of(fen_bytes(parse_fen(text.spec_bytes())->Ok_0)) == text@,
{
    lemma_fen_written_back(b, s, c, e, h, f);
    lemma_ascii_chars(text, 0, text@.len() as int);
    assert(text@.subrange(0, text@.len() as int) =~= text@);
    let t = text.spec_bytes();
    assert(t.subrange(0, t.len() as int) =~= t);
}

/// The first byte of a text of fields is the first byte of its first field, and
/// its last byte the last byte of its last field.
proof fn lemma_text_ends(fs: Seq<Seq<u8>>)
    requires
        fs.len() == 6,
        fs[0].len() > 0,
        fs[5].len() > 0,
    ensures
        joined(fs, 0).len() > 0,
        joined(fs, 0)[0] == fs[0][0],
        joined(fs, 0)[joined(fs, 0).len() - 1] == fs[5][fs[5].len() - 1],
{
    reveal_with_fuel(joined, 7);
    assert(joined(fs, 5) == fs[5]);
    assert(joined(fs, 4) == fs[4] + seq![32u8] + fs[5]);
    assert(joined(fs, 3) == fs[3] + seq![32u8] + joined(fs, 4));
    assert(joined(fs, 2) == fs[2] + seq![32u8] + joined(fs, 3));
    assert(joined(fs, 1) == fs[1] + seq![32u8] + joined(fs, 2));
    assert(joined(fs, 0) == fs[0] + seq![32u8] + joined(fs, 1));
}

} // verus!
