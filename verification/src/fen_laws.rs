//! Reading the text of a position gives the position back.
use crate::bboard::{
    group_has_square, has_square, lemma_board_ext, lemma_count_single, lemma_count_zero,
    lemma_lowest_square, lowest_square, square_bit, square_count,
};
use crate::fen::{
    ParseError, board_scan, board_text, castle_text, chars_of, decimal, en_passant_of_field,
    en_passant_text, fen_bytes, fen_fields, field, field_end, field_start, grants, joined,
    lemma_decimal_round_trip, letter_byte, number_of_field, parse_fen, placed, rank_text,
    reading_square, run_text, side_of_field, trim_end, trim_start, trimmed, with_en_passant,
};
use crate::state::{BBPiece, Position, Side, rights_board};
use vstd::prelude::*;
use vstd::string::StringSliceAdditionalSpecFns;
use vstd::utf8::{encode_utf8, is_ascii_chars, is_ascii_chars_encode_utf8};

verus! {

/// The boards after the pieces of the position on the first `n` squares in reading
/// order have been put on empty boards.
pub open spec fn placed_upto(p: Position, n: int) -> Seq<u64>
    decreases n,
{
    if n <= 0 {
        Seq::new(18, |i: int| 0u64)
    } else {
        match p.piece_on(square_bit(reading_square(n - 1))) {
            Some(pc) => placed(placed_upto(p, n - 1), pc, reading_square(n - 1)),
            None => placed_upto(p, n - 1),
        }
    }
}

/// What is read from a text depends on the bytes from the place of reading on
/// only.
pub proof fn lemma_scan_suffix(s: Seq<u8>, i: int, t: Seq<u8>, j: int, idx: int, b: Seq<u64>)
    requires
        0 <= i <= s.len(),
        0 <= j <= t.len(),
        s.subrange(i, s.len() as int) =~= t.subrange(j, t.len() as int),
    ensures
        board_scan(s, i, idx, b) == board_scan(t, j, idx, b),
    decreases s.len() - i,
{
    let ss = s.subrange(i, s.len() as int);
    let tt = t.subrange(j, t.len() as int);
    assert(ss.len() == tt.len());
    if i < s.len() {
        assert(s[i] == ss[0]);
        assert(t[j] == tt[0]);
        assert(s.subrange(i + 1, s.len() as int) =~= ss.subrange(1, ss.len() as int));
        assert(t.subrange(j + 1, t.len() as int) =~= tt.subrange(1, tt.len() as int));
        if idx <= 63 {
            if s[i] == 47 {
                lemma_scan_suffix(s, i + 1, t, j + 1, idx, b);
            } else if 49 <= s[i] && s[i] <= 56 {
                lemma_scan_suffix(s, i + 1, t, j + 1, idx + (s[i] - 48), b);
            } else if BBPiece::of_letter(s[i]) is Some {
                lemma_scan_suffix(
                    s,
                    i + 1,
                    t,
                    j + 1,
                    idx + 1,
                    placed(b, BBPiece::of_letter(s[i]).unwrap(), reading_square(idx)),
                );
            }
        }
    }
}

/// Every piece that stands on a square is read back from its letter.
pub proof fn lemma_piece_letters(p: Position, b: u64)
    ensures
        p.piece_on(b) matches Some(pc) ==> BBPiece::of_letter(letter_byte(pc)) == Some(pc)
            && letter_byte(pc) != 47 && !(49 <= letter_byte(pc) <= 56) && 32 < letter_byte(pc) < 128
            && pc.index() != 7 && pc.index() != 8 && pc.index() != 16 && pc.index() != 17
            && pc.index() != 6 && pc.index() != 15,
{
    reveal(Position::piece_on);
}

/// Reading the text of a rank from file `x` on, after `count` empty squares, puts
/// the pieces of the rest of the rank on the boards and goes on behind the text.
#[verifier::rlimit(50)]
pub proof fn lemma_scan_rank(p: Position, y: int, x: int, count: int, rest: Seq<u8>)
    requires
        0 <= y < 8,
        0 <= count <= x <= 8,
        forall|k: int|
            (7 - y) * 8 + x - count <= k < (7 - y) * 8 + x ==> p.piece_on(
                square_bit(#[trigger] reading_square(k)),
            ) is None,
    ensures
        board_scan(
            rank_text(p, y, x, count) + rest,
            0,
            (7 - y) * 8 + x - count,
            placed_upto(p, (7 - y) * 8 + x - count),
        ) == board_scan(rest, 0, (7 - y) * 8 + 8, placed_upto(p, (7 - y) * 8 + 8)),
    decreases 8 - x,
{
    let base = (7 - y) * 8;
    let text = rank_text(p, y, x, count);
    let s = text + rest;
    let b = placed_upto(p, base + x - count);
    lemma_skip_empty(p, base + x - count, base + x);
    if x >= 8 {
        if count == 0 {
            assert(s =~= rest);
        } else {
            assert(s[0] == (48 + count) as u8);
            assert(s.subrange(1, s.len() as int) =~= rest);
            lemma_scan_suffix(s, 1, rest, 0, base + 8, b);
        }
    } else {
        assert(reading_square(base + x) == y * 8 + x);
        match p.piece_on(square_bit(y * 8 + x)) {
            None => {
                lemma_scan_rank(p, y, x + 1, count + 1, rest);
            },
            Some(pc) => {
                lemma_piece_letters(p, square_bit(y * 8 + x));
                let tail = rank_text(p, y, x + 1, 0) + rest;
                let b1 = placed_upto(p, base + x + 1);
                assert(b1 == placed(placed_upto(p, base + x), pc, reading_square(base + x)));
                lemma_scan_rank(p, y, x + 1, 0, rest);
                if count == 0 {
                    assert(s[0] == letter_byte(pc));
                    assert(s.subrange(1, s.len() as int) =~= tail);
                    lemma_scan_suffix(s, 1, tail, 0, base + x + 1, b1);
                } else {
                    assert(s[0] == (48 + count) as u8);
                    assert(s[1] == letter_byte(pc));
                    assert(s.subrange(2, s.len() as int) =~= tail);
                    lemma_scan_suffix(s, 2, tail, 0, base + x + 1, b1);
                    assert(board_scan(s, 0, base + x - count, b) == board_scan(s, 1, base + x, b));
                    assert(board_scan(s, 1, base + x, b) == board_scan(s, 2, base + x + 1, b1));
                }
            },
        }
    }
}

/// Empty squares put nothing on the boards.
pub proof fn lemma_skip_empty(p: Position, lo: int, hi: int)
    requires
        lo <= hi,
        forall|k: int| lo <= k < hi
            ==> p.piece_on(square_bit(#[trigger] reading_square(k))) is None,
    ensures
        placed_upto(p, hi) == placed_upto(p, lo),
    decreases hi - lo,
{
    if lo < hi {
        lemma_skip_empty(p, lo, hi - 1);
        assert(p.piece_on(square_bit(reading_square(hi - 1))) is None);
        if hi <= 0 {
            assert(placed_upto(p, hi) =~= placed_upto(p, hi - 1));
        }
    }
}

/// Reading the text of the board from a rank on puts all the pieces of the rest of
/// the board on the boards.
pub proof fn lemma_scan_board(p: Position, done: int)
    requires
        0 <= done <= 8,
    ensures
        board_scan(board_text(p, done), 0, done * 8, placed_upto(p, done * 8)) == Some(
            placed_upto(p, 64),
        ),
    decreases 8 - done,
{
    let text = board_text(p, done);
    if done >= 8 {
        assert(text.len() == 0);
    } else if done == 7 {
        lemma_scan_rank(p, 0, 0, 0, Seq::empty());
        assert(text + Seq::<u8>::empty() =~= text);
    } else {
        let y = 7 - done;
        let rest = seq![47u8] + board_text(p, done + 1);
        assert(text =~= rank_text(p, y, 0, 0) + rest);
        lemma_scan_rank(p, y, 0, 0, rest);
        lemma_scan_board(p, done + 1);
        assert(rest[0] == 47);
        assert(rest.subrange(1, rest.len() as int) =~= board_text(p, done + 1));
        lemma_scan_suffix(
            rest,
            1,
            board_text(p, done + 1),
            0,
            (done + 1) * 8,
            placed_upto(p, (done + 1) * 8),
        );
    }
}


/// Whether the board at place `j` is the one on which the piece that `piece_on`
/// finds on square `s` is recorded: the board of its kind, or the board of all the
/// pieces of its side.
pub open spec fn records(p: Position, j: int, s: int) -> bool {
    match p.piece_on(square_bit(s)) {
        Some(pc) => j == pc.index() || j == pc.side().base() + 6,
        None => false,
    }
}

/// The boards of the pieces say what `piece_on` finds: a position of which this
/// holds is told by the letters and digits of its board text. It holds of every
/// position whose boards of kinds share no square and whose boards of all the pieces
/// of a side are the unions of that side's boards of kinds.
pub open spec fn pieces_agree(p: Position) -> bool {
    forall|j: int, s: int|
        0 <= j < 18 && j != 7 && j != 8 && j != 16 && j != 17 && 0 <= s < 64
            ==> #[trigger] has_square(
            p.boards[j],
            s,
        ) == records(p, j, s)
}

/// What the boards hold after the pieces on the first `n` squares in reading order
/// have been put on them.
pub proof fn lemma_placed_upto(p: Position, n: int, j: int, s: int)
    requires
        0 <= n <= 64,
        0 <= j < 18,
        0 <= s < 64,
    ensures
        placed_upto(p, n).len() == 18,
        has_square(placed_upto(p, n)[j], s) == (reading_square(s) < n && records(p, j, s)),
    decreases n,
{
    broadcast use group_has_square;

    if n > 0 {
        lemma_placed_upto(p, n - 1, j, s);
        let sq = reading_square(n - 1);
        assert(0 <= sq < 64);
        assert(reading_square(sq) == n - 1);
        assert((reading_square(s) == n - 1) == (s == sq));
        match p.piece_on(square_bit(sq)) {
            Some(pc) => {
                crate::state::lemma_at_index(pc);
                let b0 = placed_upto(p, n - 1);
                let b1 = b0.update(pc.index(), b0[pc.index()] | square_bit(sq));
                assert(placed_upto(p, n) == b1.update(
                    pc.side().base() + 6,
                    b1[pc.side().base() + 6] | square_bit(sq),
                ));
            },
            None => {},
        }
    }
}

/// Reading the text of the board of a position whose boards agree with
/// `piece_on` gives the boards of its pieces back, and leaves the other boards
/// empty.
pub proof fn lemma_board_round_trip(p: Position)
    requires
        p.boards.len() == 18,
        pieces_agree(p),
    ensures
        board_scan(board_text(p, 0), 0, 0, Seq::new(18, |i: int| 0u64)) == Some(
            placed_upto(p, 64),
        ),
        placed_upto(p, 64).len() == 18,
        forall|j: int|
            0 <= j < 18 ==> #[trigger] placed_upto(p, 64)[j] == if j == 7 || j == 8 || j == 16 || j
                == 17 {
                0
            } else {
                p.boards[j]
            },
{
    broadcast use group_has_square;

    lemma_scan_board(p, 0);
    lemma_placed_upto(p, 64, 0, 0);
    assert forall|j: int| 0 <= j < 18 implies #[trigger] placed_upto(p, 64)[j] == if j == 7 || j
        == 8 || j == 16 || j == 17 {
        0
    } else {
        p.boards[j]
    } by {
        let b = placed_upto(p, 64)[j];
        assert forall|s: int| 0 <= s < 64 implies has_square(b, s) == if j == 7 || j == 8 || j
            == 16 || j == 17 {
            false
        } else {
            has_square(p.boards[j], s)
        } by {
            lemma_placed_upto(p, 64, j, s);
            if j == 7 || j == 8 || j == 16 || j == 17 {
                match p.piece_on(square_bit(s)) {
                    Some(pc) => {
                        lemma_piece_letters(p, square_bit(s));
                    },
                    None => {},
                }
            }
        }
        if j == 7 || j == 8 || j == 16 || j == 17 {
            lemma_board_ext(b, 0);
        } else {
            lemma_board_ext(b, p.boards[j]);
        }
    }
}


/// No byte of the text is a blank.
pub open spec fn no_blank(a: Seq<u8>) -> bool {
    forall|k: int| 0 <= k < a.len() ==> #[trigger] a[k] != 32
}

/// A field without a blank ends where it ends: at the blank behind it, or at the end
/// of the text.
proof fn lemma_first_field_end(a: Seq<u8>, tail: Seq<u8>, k: int)
    requires
        no_blank(a),
        0 <= k <= a.len(),
        tail.len() == 0 || tail[0] == 32,
    ensures
        field_end(a + tail, k) == a.len(),
    decreases a.len() - k,
{
    let s = a + tail;
    if k < a.len() {
        assert(s[k] == a[k]);
        lemma_first_field_end(a, tail, k + 1);
    } else if tail.len() > 0 {
        assert(s[k] == tail[0]);
    }
}

/// Behind a first field and its blank, the fields end where they end in the rest
/// of the text.
proof fn lemma_field_end_shift(a: Seq<u8>, r: Seq<u8>, k: int)
    requires
        0 <= k <= r.len(),
    ensures
        field_end(a + seq![32u8] + r, a.len() + 1 + k) == a.len() + 1 + field_end(r, k),
    decreases r.len() - k,
{
    let s = a + seq![32u8] + r;
    if k < r.len() {
        assert(s[a.len() + 1 + k] == r[k]);
        if r[k] != 32 {
            lemma_field_end_shift(a, r, k + 1);
        }
    }
}

/// A field ends between its start and the end of the text.
proof fn lemma_field_end_in_text(s: Seq<u8>, from: int)
    requires
        0 <= from <= s.len(),
    ensures
        from <= field_end(s, from) <= s.len(),
    decreases s.len() - from,
{
    if from < s.len() && s[from] != 32 {
        lemma_field_end_in_text(s, from + 1);
    }
}

/// Behind a first field without a blank, the fields are those of the rest of the
/// text.
proof fn lemma_field_shift(a: Seq<u8>, r: Seq<u8>, n: nat)
    requires
        no_blank(a),
        field(r, n) is Some,
    ensures
        field_start(a + seq![32u8] + r, n + 1) == a.len() + 1 + field_start(r, n),
        field(a + seq![32u8] + r, n + 1) == field(r, n),
    decreases n,
{
    reveal_with_fuel(field_start, 3);
    let s = a + seq![32u8] + r;
    if n == 0 {
        assert(s =~= a + (seq![32u8] + r));
        lemma_first_field_end(a, seq![32u8] + r, 0);
        assert(field_start(s, 0) == 0);
        assert(field_start(s, 1) == field_end(s, 0) + 1);
    } else {
        let prev = field_start(r, (n - 1) as nat);
        lemma_field_start_rises(r, (n - 1) as nat);
        assert(field_start(r, n) == field_end(r, prev) + 1);
        if prev > r.len() {
            lemma_field_end_out(r, prev);
            assert(false);
        }
        lemma_field_end_in_text(r, prev);
        assert(field(r, (n - 1) as nat) is Some);
        lemma_field_shift(a, r, (n - 1) as nat);
        lemma_field_end_shift(a, r, prev);
        assert(field_start(s, n + 1) == field_end(s, field_start(s, n)) + 1);
    }
    let x = field_start(r, n);
    lemma_field_end_shift(a, r, x);
    lemma_field_end_in_text(r, x);
    assert(s.subrange(a.len() + 1 + x, a.len() + 1 + field_end(r, x)) =~= r.subrange(
        x,
        field_end(r, x),
    ));
}

/// The fields start at rising places.
proof fn lemma_field_start_rises(s: Seq<u8>, n: nat)
    ensures
        field_start(s, n) >= n,
    decreases n,
{
    if n > 0 {
        lemma_field_start_rises(s, (n - 1) as nat);
        let prev = field_start(s, (n - 1) as nat);
        if prev > s.len() {
            lemma_field_end_out(s, prev);
        } else {
            lemma_field_end_in_text(s, prev);
        }
    }
}

/// A field that starts outside the text ends where it starts.
proof fn lemma_field_end_out(s: Seq<u8>, from: int)
    requires
        from < 0 || from >= s.len(),
    ensures
        field_end(s, from) == from,
{
}

/// The fields of a text that is made of fields without blanks, with one blank
/// between two of them, are those fields.
pub proof fn lemma_joined_fields(fs: Seq<Seq<u8>>, i: int, n: nat)
    requires
        0 <= i,
        i + n < fs.len(),
        forall|k: int| 0 <= k < fs.len() ==> no_blank(#[trigger] fs[k]),
    ensures
        field(joined(fs, i), n) == Some(fs[i + n]),
    decreases n,
{
    let s = joined(fs, i);
    if n == 0 {
        if i == fs.len() - 1 {
            lemma_first_field_end(fs[i], Seq::empty(), 0);
            assert(fs[i] + Seq::<u8>::empty() =~= fs[i]);
            assert(s.subrange(0, fs[i].len() as int) =~= fs[i]);
        } else {
            let tail = seq![32u8] + joined(fs, i + 1);
            assert(s =~= fs[i] + tail);
            lemma_first_field_end(fs[i], tail, 0);
            assert(s.subrange(0, fs[i].len() as int) =~= fs[i]);
        }
    } else {
        lemma_joined_fields(fs, i + 1, (n - 1) as nat);
        lemma_field_shift(fs[i], joined(fs, i + 1), (n - 1) as nat);
    }
}

/// The first and the last byte of the text are no white space, so nothing of it is
/// left out in front or behind.
pub proof fn lemma_trimmed_whole(s: Seq<u8>)
    requires
        s.len() > 0,
        s[0] > 32,
        s[s.len() - 1] > 32,
    ensures
        trimmed(s) == s,
{
    assert(trim_start(s, 0) == 0);
    assert(trim_end(s, 0, s.len() as int) == s.len());
    assert(s.subrange(0, s.len() as int) =~= s);
}

/// Every byte of the text of a rank is a digit, a letter or a star: none is a blank,
/// and the text of a rank with a square is not empty.
pub proof fn lemma_rank_text_bytes(p: Position, y: int, x: int, count: int)
    requires
        0 <= count <= x <= 8,
    ensures
        forall|k: int|
            0 <= k < rank_text(p, y, x, count).len() ==> 32 < #[trigger] rank_text(
                p,
                y,
                x,
                count,
            )[k] < 128,
        x < 8 || count > 0 ==> rank_text(p, y, x, count).len() > 0,
    decreases 8 - x,
{
    if x < 8 {
        lemma_rank_text_bytes(p, y, x + 1, 0);
        if count < x + 1 {
            lemma_rank_text_bytes(p, y, x + 1, count + 1);
        }
        lemma_piece_letters(p, square_bit(y * 8 + x));
        let t = rank_text(p, y, x, count);
        match p.piece_on(square_bit(y * 8 + x)) {
            Some(pc) => {
                let head = run_text(count) + seq![letter_byte(pc)];
                assert(t == head + rank_text(p, y, x + 1, 0));
                assert forall|k: int| 0 <= k < t.len() implies 32 < #[trigger] t[k] < 128 by {
                    if k >= head.len() {
                        assert(t[k] == rank_text(p, y, x + 1, 0)[k - head.len()]);
                    }
                }
            },
            None => {},
        }
    }
}

/// Every byte of the text of a board is a digit, a letter, a star or a slash, and
/// the text is not empty.
pub proof fn lemma_board_text_bytes(p: Position, done: int)
    requires
        0 <= done <= 8,
    ensures
        forall|k: int|
            0 <= k < board_text(p, done).len() ==> 32 < #[trigger] board_text(p, done)[k] < 128,
        done < 8 ==> board_text(p, done).len() > 0,
    decreases 8 - done,
{
    if done < 8 {
        lemma_rank_text_bytes(p, 7 - done, 0, 0);
        lemma_board_text_bytes(p, done + 1);
    }
}

/// What can be told of a position in Forsyth-Edwards notation, and so is read back
/// from it: the boards of the pieces agree with what `piece_on` finds, the boards of
/// the castling rights hold nothing but the two rights, at most one square is
/// marked for capturing in passing and it is marked on the board where
/// `set_en_passant` marks it, and the counters fit in thirty-two bits.
pub open spec fn fen_faithful(p: Position) -> bool {
    let ep = p.boards[8] | p.boards[17];
    &&& p.boards.len() == 18
    &&& pieces_agree(p)
    &&& p.boards[7] == rights_board(p.castle_rights(Side::White).0, p.castle_rights(Side::White).1)
    &&& p.boards[16] == rights_board(
        p.castle_rights(Side::Black).0,
        p.castle_rights(Side::Black).1,
    )
    &&& ep == 0 || square_count(ep) == 1
    &&& p.boards[8] == if ep < 0x1_0000_0000 {
        ep
    } else {
        0
    }
    &&& p.boards[17] == if ep < 0x1_0000_0000 {
        0
    } else {
        ep
    }
    &&& 0 <= p.half_moves <= u32::MAX
    &&& 0 <= p.full_moves <= u32::MAX
}

/// No field of the text of a position holds a blank.
proof fn lemma_fields_no_blank(p: Position)
    requires
        p.boards.len() == 18,
        0 <= p.half_moves,
        0 <= p.full_moves,
        p.boards[8] | p.boards[17] == 0 || square_count(p.boards[8] | p.boards[17]) == 1,
    ensures
        no_blank(board_text(p, 0)),
        no_blank(castle_text(p)),
        no_blank(en_passant_text(p)),
        no_blank(decimal(p.half_moves as nat)),
        no_blank(decimal(p.full_moves as nat)),
{
    lemma_board_text_bytes(p, 0);
    lemma_decimal_round_trip(p.half_moves as nat);
    lemma_decimal_round_trip(p.full_moves as nat);
    lemma_castle_text(p);
    lemma_en_passant_text(p.boards[8] | p.boards[17], en_passant_text(p));
}

/// The text of a position is its six fields with one blank between two of them,
/// no field holds a blank, and the text neither starts nor ends with white space.
pub proof fn lemma_fen_fields(p: Position)
    requires
        p.boards.len() == 18,
        0 <= p.half_moves,
        0 <= p.full_moves,
        p.boards[8] | p.boards[17] == 0 || square_count(p.boards[8] | p.boards[17]) == 1,
    ensures
        fen_bytes(p) == joined(fen_fields(p), 0),
        forall|k: int| 0 <= k < 6 ==> no_blank(#[trigger] fen_fields(p)[k]),
        fen_bytes(p).len() > 0,
        fen_bytes(p)[0] > 32,
        fen_bytes(p)[fen_bytes(p).len() - 1] > 32,
{
    let fs = fen_fields(p);
    lemma_fields_no_blank(p);
    assert(no_blank(fs[0]));
    assert(no_blank(fs[1]));
    assert(no_blank(fs[2]));
    assert(no_blank(fs[3]));
    assert(no_blank(fs[4]));
    assert(no_blank(fs[5]));
    lemma_board_text_bytes(p, 0);
    lemma_decimal_round_trip(p.half_moves as nat);
    lemma_decimal_round_trip(p.full_moves as nat);
    let t = fen_bytes(p);
    let b = board_text(p, 0);
    let f = decimal(p.full_moves as nat);
    reveal_with_fuel(joined, 7);
    assert(fs.len() == 6);
    assert(joined(fs, 5) == fs[5]);
    assert(joined(fs, 4) == fs[4] + seq![32u8] + fs[5]);
    assert(joined(fs, 3) == fs[3] + seq![32u8] + joined(fs, 4));
    assert(joined(fs, 2) == fs[2] + seq![32u8] + joined(fs, 3));
    assert(joined(fs, 1) == fs[1] + seq![32u8] + joined(fs, 2));
    assert(joined(fs, 0) == fs[0] + seq![32u8] + joined(fs, 1));
    assert(t[0] == b[0]);
    assert(t[t.len() - 1] == f[f.len() - 1]);
}

/// The text of the castling rights holds the letter of a right exactly when the
/// right is there, and no blank.
pub proof fn lemma_castle_text(p: Position)
    ensures
        no_blank(castle_text(p)),
        castle_text(p).contains(75) == p.castle_rights(Side::White).0,
        castle_text(p).contains(81) == p.castle_rights(Side::White).1,
        castle_text(p).contains(107) == p.castle_rights(Side::Black).0,
        castle_text(p).contains(113) == p.castle_rights(Side::Black).1,
{
    let w = p.castle_rights(Side::White);
    let b = p.castle_rights(Side::Black);
    let t1: Seq<u8> = if w.0 {
        seq![75u8]
    } else {
        Seq::empty()
    };
    let t2: Seq<u8> = if w.1 {
        seq![81u8]
    } else {
        Seq::empty()
    };
    let t3: Seq<u8> = if b.0 {
        seq![107u8]
    } else {
        Seq::empty()
    };
    let t4: Seq<u8> = if b.1 {
        seq![113u8]
    } else {
        Seq::empty()
    };
    let t = t1 + t2 + t3 + t4;
    let c = castle_text(p);
    assert forall|k: int| 0 <= k < t.len() implies (#[trigger] t[k] == 75 ==> w.0) && (t[k] == 81
        ==> w.1) && (t[k] == 107 ==> b.0) && (t[k] == 113 ==> b.1) && t[k] != 32 && t[k]
        != 45 by {}
    if w.0 {
        assert(t[0] == 75);
    }
    if w.1 {
        assert(t[t1.len() as int] == 81);
    }
    if b.0 {
        assert(t[(t1.len() + t2.len()) as int] == 107);
    }
    if b.1 {
        assert(t[(t1.len() + t2.len() + t3.len()) as int] == 113);
    }
    if t.len() == 0 {
        assert(c[0] == 45);
    }
}

/// The text of the square to capture in passing is read back as the one square
/// that is marked, or as no square.
pub proof fn lemma_en_passant_text(ep: u64, text: Seq<u8>)
    requires
        ep == 0 || square_count(ep) == 1,
        text == if square_count(ep) == 1 {
            seq![(97 + lowest_square(ep) % 8) as u8, (49 + lowest_square(ep) / 8) as u8]
        } else {
            seq![45u8]
        },
    ensures
        en_passant_of_field(Some(text)) == Some(ep),
        no_blank(text),
{
    if square_count(ep) == 1 {
        lemma_count_single(ep);
        lemma_lowest_square(ep);
        let l = lowest_square(ep);
        assert(text[0] == (97 + l % 8) as u8);
        assert(text[1] == (49 + l / 8) as u8);
        assert((text[1] - 49) * 8 + (text[0] - 97) == l);
    } else {
        lemma_count_zero(0, 64);
        assert(text =~= seq![45u8]);
    }
}

/// What a text is read as, from what its fields are read as.
pub proof fn lemma_parse_assembled(
    t: Seq<u8>,
    b0: Seq<u64>,
    side: Side,
    ep: u64,
    half: u32,
    full: u32,
)
    requires
        board_scan(field(trimmed(t), 0).unwrap(), 0, 0, Seq::new(18, |i: int| 0u64)) == Some(b0),
        side_of_field(field(trimmed(t), 1)) == Some(side),
        en_passant_of_field(field(trimmed(t), 3)) == Some(ep),
        number_of_field(field(trimmed(t), 4)) == Some(half),
        number_of_field(field(trimmed(t), 5)) == Some(full),
    ensures
        parse_fen(t) == Ok::<Position, ParseError>(
            Position {
                side,
                boards: {
                    let f2 = field(trimmed(t), 2);
                    let b1 = b0.update(7, rights_board(grants(f2, 75), grants(f2, 81))).update(
                        16,
                        rights_board(grants(f2, 107), grants(f2, 113)),
                    );
                    if ep != 0 {
                        with_en_passant(b1, ep)
                    } else {
                        b1
                    }
                },
                half_moves: half as int,
                full_moves: full as int,
            },
        ),
{
}

/// Reading the text of a position gives the position back: for every position
/// that the notation can tell, `from_fen` of the text that `to_fen` gives is the
/// position, so that writing it again gives the same text.
pub proof fn lemma_fen_round_trip(p: Position)
    requires
        fen_faithful(p),
    ensures
        parse_fen(fen_bytes(p)) == Ok::<Position, ParseError>(p),
{
    let t = fen_bytes(p);
    let fs = fen_fields(p);
    lemma_fen_fields(p);
    lemma_trimmed_whole(t);
    lemma_joined_fields(fs, 0, 0);
    lemma_joined_fields(fs, 0, 1);
    lemma_joined_fields(fs, 0, 2);
    lemma_joined_fields(fs, 0, 3);
    lemma_joined_fields(fs, 0, 4);
    lemma_joined_fields(fs, 0, 5);
    lemma_board_round_trip(p);
    let b0 = placed_upto(p, 64);
    assert(side_of_field(Some(fs[1])) == Some(p.side)) by {
        assert(fs[1][0] == if p.side == Side::White {
            119u8
        } else {
            98u8
        });
    }
    lemma_castle_text(p);
    let w = p.castle_rights(Side::White);
    let bl = p.castle_rights(Side::Black);
    let ep = p.boards[8] | p.boards[17];
    lemma_en_passant_text(ep, fs[3]);
    lemma_decimal_round_trip(p.half_moves as nat);
    lemma_decimal_round_trip(p.full_moves as nat);
    lemma_parse_assembled(t, b0, p.side, ep, p.half_moves as u32, p.full_moves as u32);
    let b1 = b0.update(7, rights_board(w.0, w.1)).update(16, rights_board(bl.0, bl.1));
    let b2 = if ep != 0 {
        with_en_passant(b1, ep)
    } else {
        b1
    };
    assert(b2 =~= p.boards) by {
        assert forall|j: int| 0 <= j < 18 implies b2[j] == p.boards[j] by {
            assert(b0[j] == if j == 7 || j == 8 || j == 16 || j == 17 {
                0
            } else {
                p.boards[j]
            });
        }
    }
}


/// Every byte of the text is in ASCII.
pub open spec fn ascii_bytes(a: Seq<u8>) -> bool {
    forall|k: int| 0 <= k < a.len() ==> #[trigger] a[k] < 128
}

/// Fields in ASCII make a text in ASCII.
proof fn lemma_joined_ascii(fs: Seq<Seq<u8>>, i: int)
    requires
        0 <= i < fs.len(),
        forall|k: int| 0 <= k < fs.len() ==> ascii_bytes(#[trigger] fs[k]),
    ensures
        ascii_bytes(joined(fs, i)),
    decreases fs.len() - i,
{
    if i < fs.len() - 1 {
        lemma_joined_ascii(fs, i + 1);
        let t = joined(fs, i);
        let head = fs[i] + seq![32u8];
        assert(t == head + joined(fs, i + 1));
        assert forall|k: int| 0 <= k < t.len() implies #[trigger] t[k] < 128 by {
            if k < fs[i].len() {
                assert(t[k] == fs[i][k]);
            } else if k >= head.len() {
                assert(t[k] == joined(fs, i + 1)[k - head.len()]);
            }
        }
    }
}

/// The text of a position is in ASCII, so its bytes are those that its characters
/// stand for.
pub proof fn lemma_fen_text_is_ascii(p: Position)
    requires
        p.boards.len() == 18,
        0 <= p.half_moves,
        0 <= p.full_moves,
    ensures
        ascii_bytes(fen_bytes(p)),
        is_ascii_chars(chars_of(fen_bytes(p))),
        encode_utf8(chars_of(fen_bytes(p))) == fen_bytes(p),
{
    let fs = fen_fields(p);
    lemma_board_text_bytes(p, 0);
    lemma_decimal_round_trip(p.half_moves as nat);
    lemma_decimal_round_trip(p.full_moves as nat);
    lemma_castle_text_ascii(p);
    assert(ascii_bytes(fs[0]));
    assert(ascii_bytes(fs[1]));
    assert(ascii_bytes(fs[2]));
    assert(ascii_bytes(fs[3]));
    assert(ascii_bytes(fs[4]));
    assert(ascii_bytes(fs[5]));
    lemma_joined_ascii(fs, 0);
    let b = fen_bytes(p);
    let c = chars_of(b);
    assert forall|i: int| 0 <= i < c.len() implies '\0' <= #[trigger] c[i] <= '\u{7f}' by {
        assert(b[i] < 128);
    }
    is_ascii_chars_encode_utf8(c);
    assert(encode_utf8(c) =~= b) by {
        assert forall|i: int| 0 <= i < b.len() implies encode_utf8(c)[i] == b[i] by {
            assert(c[i] as u8 == encode_utf8(c)[i]);
            assert(b[i] < 128);
        }
    }
}

/// The text of the castling rights is in ASCII.
proof fn lemma_castle_text_ascii(p: Position)
    ensures
        ascii_bytes(castle_text(p)),
{
    let w = p.castle_rights(Side::White);
    let b = p.castle_rights(Side::Black);
    let t1: Seq<u8> = if w.0 {
        seq![75u8]
    } else {
        Seq::empty()
    };
    let t2: Seq<u8> = if w.1 {
        seq![81u8]
    } else {
        Seq::empty()
    };
    let t3: Seq<u8> = if b.0 {
        seq![107u8]
    } else {
        Seq::empty()
    };
    let t4: Seq<u8> = if b.1 {
        seq![113u8]
    } else {
        Seq::empty()
    };
    let t = t1 + t2 + t3 + t4;
    assert forall|k: int| 0 <= k < t.len() implies #[trigger] t[k] < 128 by {}
}

/// Reading the text that is written for a position gives the position back: for
/// every position that the notation can tell, what `from_fen` reads from the text
/// that `to_fen` writes is the position itself.
pub proof fn lemma_fen_text_round_trip(p: Position, text: &str)
    requires
        fen_faithful(p),
        text@ == chars_of(fen_bytes(p)),
    ensures
        parse_fen(text.spec_bytes()) == Ok::<Position, ParseError>(p),
{
    lemma_fen_text_is_ascii(p);
    lemma_fen_round_trip(p);
}

} // verus!
