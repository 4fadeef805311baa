//! Positions in Forsyth-Edwards notation: what a text is read as, and what is
//! written for a position.
use crate::bboard::{
    bb_to_coord, board_name, lemma_count_single, lemma_lowest_square, lowest_square, square_bit,
    square_count,
};
use crate::state::{BBPiece, ChessState, Position, Side, rights_board};
use vstd::prelude::*;
use vstd::string::StringSliceAdditionalSpecFns;

verus! {

/// Why a text is not read as a position or as a move.
#[derive(Clone, Copy, PartialEq, Eq, Structural, Debug)]
pub enum ParseError {
    /// The board holds a character that is no piece, digit or slash, or more than
    /// sixty-four squares.
    BadBoard,
    /// The side to move is neither `w` nor `b`.
    BadSide,
    /// The square to capture in passing is two characters that name no square.
    BadEnPassant,
    /// A move counter is empty, holds a character that is no digit, or is too large.
    BadNumber,
    /// A move is not two squares, or its promotion is no piece.
    BadMove,
    /// The square that a move starts from holds no piece of the side to move, or
    /// the square that it goes to holds one.
    NoPiece,
}

/// The decimal digits of `n`.
pub open spec fn decimal(n: nat) -> Seq<u8>
    decreases n,
{
    if n < 10 {
        seq![(48 + n) as u8]
    } else {
        decimal(n / 10).push((48 + n % 10) as u8)
    }
}

/// Whether the byte is a decimal digit.
pub open spec fn is_digit(c: u8) -> bool {
    48 <= c <= 57
}

/// The number that the digits of `s` make.
pub open spec fn digits_value(s: Seq<u8>) -> nat
    decreases s.len(),
{
    if s.len() == 0 {
        0
    } else {
        (digits_value(s.drop_last()) * 10 + (s.last() - 48)) as nat
    }
}

/// The number that `s` is the decimal notation of: `s` is not empty, holds digits
/// only and makes a number that fits in thirty-two bits.
pub open spec fn parse_number(s: Seq<u8>) -> Option<u32> {
    if s.len() > 0 && (forall|i: int| 0 <= i < s.len() ==> is_digit(#[trigger] s[i]))
        && digits_value(s) <= u32::MAX {
        Some(digits_value(s) as u32)
    } else {
        None
    }
}

/// A number's decimal notation is read as that number.
pub proof fn lemma_decimal_round_trip(n: nat)
    ensures
        decimal(n).len() > 0,
        forall|i: int| 0 <= i < decimal(n).len() ==> is_digit(#[trigger] decimal(n)[i]),
        digits_value(decimal(n)) == n,
        forall|i: int| 0 <= i < decimal(n).len() ==> #[trigger] decimal(n)[i] != 32,
    decreases n,
{
    if n < 10 {
        let s = decimal(n);
        assert(s.drop_last() =~= Seq::<u8>::empty());
        assert(digits_value(s.drop_last()) == 0);
    } else {
        lemma_decimal_round_trip(n / 10);
        let s = decimal(n);
        assert(s.drop_last() =~= decimal(n / 10));
    }
}

/// The digits of a longer text make a number that is no smaller.
pub proof fn lemma_digits_grow(s: Seq<u8>, k: int)
    requires
        0 <= k <= s.len(),
        forall|i: int| 0 <= i < s.len() ==> is_digit(#[trigger] s[i]),
    ensures
        digits_value(s.subrange(0, k)) <= digits_value(s),
    decreases s.len() - k,
{
    if k == s.len() {
        assert(s.subrange(0, k) =~= s);
    } else {
        lemma_digits_grow(s.drop_last(), k);
        assert(s.drop_last().subrange(0, k) =~= s.subrange(0, k));
    }
}

/// Reads the bytes from `start` to `end` as a decimal number.
pub fn read_number(bytes: &[u8], start: usize, end: usize) -> (r: Option<u32>)
    requires
        start <= end <= bytes@.len(),
    ensures
        r == parse_number(bytes@.subrange(start as int, end as int)),
{
    let ghost s = bytes@.subrange(start as int, end as int);
    if start == end {
        return None;
    }
    let mut value: u32 = 0;
    let mut i: usize = start;
    while i < end
        invariant
            start <= i <= end <= bytes@.len(),
            s == bytes@.subrange(start as int, end as int),
            forall|j: int| 0 <= j < i - start ==> is_digit(#[trigger] s[j]),
            value == digits_value(s.subrange(0, i - start)),
        decreases end - i,
    {
        let c = bytes[i];
        if c < 48 || c > 57 {
            assert(!is_digit(s[i - start]));
            return None;
        }
        let d = (c - 48) as u32;
        proof {
            let t = s.subrange(0, i - start + 1);
            assert(t.drop_last() =~= s.subrange(0, i - start));
            assert(t.last() == c);
            if value > 429496729 || (value == 429496729 && d > 5) {
                if forall|j: int| 0 <= j < s.len() ==> is_digit(#[trigger] s[j]) {
                    lemma_digits_grow(s, i - start + 1);
                }
            }
        }
        if value > 429496729 || (value == 429496729 && d > 5) {
            return None;
        }
        value = value * 10 + d;
        i += 1;
    }
    assert(s.subrange(0, end - start) =~= s);
    Some(value)
}

/// Appends the decimal notation of `n` to `text`.
pub fn push_number(text: &mut Vec<u8>, n: u32)
    ensures
        final(text)@ == old(text)@ + decimal(n as nat),
    decreases n,
{
    if n >= 10 {
        push_number(text, n / 10);
    }
    text.push(48 + (n % 10) as u8);
    assert(text@ =~= old(text)@ + decimal(n as nat));
}


/// Whether the byte is white space: a blank, a tab, a line feed, a vertical tab, a
/// form feed or a carriage return.
pub open spec fn is_space(c: u8) -> bool {
    c == 32 || (9 <= c && c <= 13)
}

/// Where the text starts once the white space in front is left out.
pub open spec fn trim_start(s: Seq<u8>, from: int) -> int
    decreases s.len() - from,
{
    if from < 0 || from >= s.len() || !is_space(s[from]) {
        from
    } else {
        trim_start(s, from + 1)
    }
}

/// Where the text ends once the white space behind is left out, for a text that
/// starts at `lo`.
pub open spec fn trim_end(s: Seq<u8>, lo: int, to: int) -> int
    decreases to - lo,
{
    if to <= lo || to <= 0 || to > s.len() || !is_space(s[to - 1]) {
        to
    } else {
        trim_end(s, lo, to - 1)
    }
}

/// The text without the white space in front and behind.
pub open spec fn trimmed(s: Seq<u8>) -> Seq<u8> {
    let lo = trim_start(s, 0);
    if lo >= s.len() {
        Seq::empty()
    } else {
        s.subrange(lo, trim_end(s, lo, s.len() as int))
    }
}

/// The place of the first blank from `from` on, or the length of the text if there
/// is none.
pub open spec fn field_end(s: Seq<u8>, from: int) -> int
    decreases s.len() - from,
{
    if from < 0 || from >= s.len() || s[from] == 32 {
        from
    } else {
        field_end(s, from + 1)
    }
}

/// Where the field number `n` starts, counting from 0, the fields being what single
/// blanks separate; a number above the length of the text if there are not so many
/// fields.
pub open spec fn field_start(s: Seq<u8>, n: nat) -> int
    decreases n,
{
    if n == 0 {
        0
    } else {
        field_end(s, field_start(s, (n - 1) as nat)) + 1
    }
}

/// The field number `n` of the text, if there is one.
pub open spec fn field(s: Seq<u8>, n: nat) -> Option<Seq<u8>> {
    let a = field_start(s, n);
    if 0 <= a <= s.len() {
        Some(s.subrange(a, field_end(s, a)))
    } else {
        None
    }
}

/// The boards with the piece `pc` put on square `sq`.
pub open spec fn placed(boards: Seq<u64>, pc: BBPiece, sq: int) -> Seq<u64> {
    let b = boards.update(pc.index(), boards[pc.index()] | square_bit(sq));
    b.update(pc.side().base() + 6, b[pc.side().base() + 6] | square_bit(sq))
}

/// The square that is reached after `idx` squares in reading order: from the top
/// rank down, each rank from file `a`.
pub open spec fn reading_square(idx: int) -> int {
    (7 - idx / 8) * 8 + idx % 8
}

/// The boards after the rest of a board text from byte `i` on has been read, the
/// next square in reading order being number `idx`: a slash is passed over, a digit
/// from 1 to 8 skips so many squares, and a letter puts its piece on the next
/// square. Any other byte, and any byte after the sixty-fourth square, is an error.
pub open spec fn board_scan(s: Seq<u8>, i: int, idx: int, boards: Seq<u64>) -> Option<Seq<u64>>
    decreases s.len() - i,
{
    if i < 0 || i >= s.len() {
        Some(boards)
    } else if idx > 63 {
        None
    } else if s[i] == 47 {
        board_scan(s, i + 1, idx, boards)
    } else if 49 <= s[i] && s[i] <= 56 {
        board_scan(s, i + 1, idx + (s[i] - 48), boards)
    } else if BBPiece::of_letter(s[i]) is Some {
        board_scan(
            s,
            i + 1,
            idx + 1,
            placed(boards, BBPiece::of_letter(s[i]).unwrap(), reading_square(idx)),
        )
    } else {
        None
    }
}

/// The side that the field names: White where there is no such field.
pub open spec fn side_of_field(f: Option<Seq<u8>>) -> Option<Side> {
    match f {
        None => Some(Side::White),
        Some(t) => if t.len() > 0 && t[0] == 119 {
            Some(Side::White)
        } else if t.len() > 0 && t[0] == 98 {
            Some(Side::Black)
        } else {
            None
        },
    }
}

/// The square to capture in passing that the field names: none unless the field
/// is two characters long.
pub open spec fn en_passant_of_field(f: Option<Seq<u8>>) -> Option<u64> {
    match f {
        Some(t) => if t.len() == 2 {
            if 97 <= t[0] && t[0] <= 104 && 49 <= t[1] && t[1] <= 56 {
                Some(square_bit((t[1] - 49) * 8 + (t[0] - 97)))
            } else {
                None
            }
        } else {
            Some(0)
        },
        None => Some(0),
    }
}

/// The number that the field holds: zero where there is no such field.
pub open spec fn number_of_field(f: Option<Seq<u8>>) -> Option<u32> {
    match f {
        Some(t) => parse_number(t),
        None => Some(0),
    }
}

/// Whether the castling field grants the right that the letter `c` stands for.
pub open spec fn grants(f: Option<Seq<u8>>, c: u8) -> bool {
    match f {
        Some(t) => t.contains(c),
        None => false,
    }
}

/// The boards with the marks of the squares to capture in passing set as
/// `ChessState::set_en_passant` sets them.
pub open spec fn with_en_passant(boards: Seq<u64>, ep: u64) -> Seq<u64> {
    if ep < 0x1_0000_0000 {
        boards.update(8, ep).update(17, 0)
    } else {
        boards.update(8, 0).update(17, ep)
    }
}

/// The position that a text in Forsyth-Edwards notation describes, or why it
/// describes none.
///
/// White space in front and behind is left out, and single blanks separate the
/// fields: the board, the side to move, the castling rights, the square to capture
/// in passing, the half-move clock and the full-move number. Fields that are
/// missing at the end leave White to move, no rights, no such square and counters
/// at zero; fields beyond the sixth are not read.
pub open spec fn parse_fen(s: Seq<u8>) -> Result<Position, ParseError> {
    let t = trimmed(s);
    let zero = Seq::new(18, |i: int| 0u64);
    match board_scan(field(t, 0).unwrap(), 0, 0, zero) {
        None => Err(ParseError::BadBoard),
        Some(b0) => match side_of_field(field(t, 1)) {
            None => Err(ParseError::BadSide),
            Some(side) => {
                let f2 = field(t, 2);
                let b1 = b0.update(7, rights_board(grants(f2, 75), grants(f2, 81))).update(
                    16,
                    rights_board(grants(f2, 107), grants(f2, 113)),
                );
                match en_passant_of_field(field(t, 3)) {
                    None => Err(ParseError::BadEnPassant),
                    Some(ep) => {
                        let b2 = if ep != 0 {
                            with_en_passant(b1, ep)
                        } else {
                            b1
                        };
                        match number_of_field(field(t, 4)) {
                            None => Err(ParseError::BadNumber),
                            Some(half) => match number_of_field(field(t, 5)) {
                                None => Err(ParseError::BadNumber),
                                Some(full) => Ok(
                                    Position {
                                        side,
                                        boards: b2,
                                        half_moves: half as int,
                                        full_moves: full as int,
                                    },
                                ),
                            },
                        }
                    },
                }
            },
        },
    }
}

/// Whether the byte is white space.
fn is_space_byte(c: u8) -> (r: bool)
    ensures
        r == is_space(c),
{
    c == 32 || (9 <= c && c <= 13)
}

/// The bounds of the text without the white space in front and behind.
pub fn trim_bounds(bytes: &[u8]) -> (r: (usize, usize))
    ensures
        r.0 <= r.1 <= bytes@.len(),
        bytes@.subrange(r.0 as int, r.1 as int) == trimmed(bytes@),
{
    let n = bytes.len();
    let mut lo: usize = 0;
    while lo < n && is_space_byte(bytes[lo])
        invariant
            0 <= lo <= n == bytes@.len(),
            trim_start(bytes@, lo as int) == trim_start(bytes@, 0),
        decreases n - lo,
    {
        lo += 1;
    }
    if lo >= n {
        assert(bytes@.subrange(lo as int, lo as int) =~= Seq::<u8>::empty());
        return (lo, lo);
    }
    let mut hi: usize = n;
    while hi > lo && is_space_byte(bytes[hi - 1])
        invariant
            lo <= hi <= n == bytes@.len(),
            trim_end(bytes@, lo as int, hi as int) == trim_end(bytes@, lo as int, n as int),
        decreases hi - lo,
    {
        hi -= 1;
    }
    (lo, hi)
}

/// The place of the first blank from `from` on, or `end` if there is none before.
pub fn find_field_end(bytes: &[u8], lo: usize, hi: usize, from: usize) -> (r: usize)
    requires
        lo <= from <= hi <= bytes@.len(),
    ensures
        from <= r <= hi,
        r - lo == field_end(bytes@.subrange(lo as int, hi as int), from - lo),
{
    let ghost s = bytes@.subrange(lo as int, hi as int);
    let mut i = from;
    while i < hi && bytes[i] != 32
        invariant
            lo <= from <= i <= hi <= bytes@.len(),
            s == bytes@.subrange(lo as int, hi as int),
            field_end(s, i - lo) == field_end(s, from - lo),
        decreases hi - i,
    {
        assert(s[i - lo] == bytes@[i as int]);
        i += 1;
    }
    proof {
        if i < hi {
            assert(s[i - lo] == bytes@[i as int]);
        }
    }
    i
}

/// The bounds of the field number `n` of the text between `lo` and `hi`, if there
/// is such a field.
fn find_field(bytes: &[u8], lo: usize, hi: usize, n: usize) -> (r: Option<(usize, usize)>)
    requires
        lo <= hi <= bytes@.len(),
        n < 16,
    ensures
        match r {
            Some((a, b)) => lo <= a <= b <= hi && field(
                bytes@.subrange(lo as int, hi as int),
                n as nat,
            ) == Some(bytes@.subrange(a as int, b as int)),
            None => field(bytes@.subrange(lo as int, hi as int), n as nat) is None,
        },
{
    let ghost s = bytes@.subrange(lo as int, hi as int);
    let mut start = lo;
    let mut k: usize = 0;
    while k < n
        invariant
            lo <= start <= hi <= bytes@.len(),
            0 <= k <= n < 16,
            s == bytes@.subrange(lo as int, hi as int),
            start - lo == field_start(s, k as nat),
        decreases n - k,
    {
        let e = find_field_end(bytes, lo, hi, start);
        if e >= hi {
            proof {
                lemma_no_more_fields(s, k as nat, n as nat);
            }
            return None;
        }
        start = e + 1;
        k += 1;
    }
    let e = find_field_end(bytes, lo, hi, start);
    assert(s.subrange(start - lo, e - lo) =~= bytes@.subrange(start as int, e as int));
    Some((start, e))
}

/// Where a field ends at the end of the text, there is no later field.
proof fn lemma_no_more_fields(s: Seq<u8>, k: nat, n: nat)
    requires
        k < n,
        0 <= field_start(s, k) <= s.len(),
        field_end(s, field_start(s, k)) >= s.len(),
    ensures
        field_start(s, n) > s.len(),
    decreases n - k,
{
    lemma_field_end_bounds(s, field_start(s, k));
    if k + 1 < n {
        lemma_later_fields(s, k + 1, n);
    }
}

/// A field that starts behind the text is followed by none.
proof fn lemma_later_fields(s: Seq<u8>, k: nat, n: nat)
    requires
        k <= n,
        field_start(s, k) > s.len(),
    ensures
        field_start(s, n) > s.len(),
    decreases n - k,
{
    if k < n {
        lemma_later_fields(s, k, (n - 1) as nat);
    }
}

/// A field ends between its start and the end of the text.
proof fn lemma_field_end_bounds(s: Seq<u8>, from: int)
    requires
        0 <= from <= s.len(),
    ensures
        from <= field_end(s, from) <= s.len(),
    decreases s.len() - from,
{
    if from < s.len() && s[from] != 32 {
        lemma_field_end_bounds(s, from + 1);
    }
}


/// The byte of the letter of a piece in a position's text.
pub open spec fn letter_byte(pc: BBPiece) -> u8 {
    match pc {
        BBPiece::WKing => 75,
        BBPiece::WPawn => 80,
        BBPiece::WRook => 82,
        BBPiece::WKnight => 78,
        BBPiece::WBishop => 66,
        BBPiece::WQueen => 81,
        BBPiece::BKing => 107,
        BBPiece::BPawn => 112,
        BBPiece::BRook => 114,
        BBPiece::BKnight => 110,
        BBPiece::BBishop => 98,
        BBPiece::BQueen => 113,
        _ => 42,
    }
}

/// The digit that stands for a run of `count` empty squares; nothing for no square.
pub open spec fn run_text(count: int) -> Seq<u8> {
    if count > 0 {
        seq![(48 + count) as u8]
    } else {
        Seq::empty()
    }
}

/// The text of rank `y` from file `x` on, after `count` empty squares: a letter
/// for each piece and a digit for each run of empty squares.
pub open spec fn rank_text(p: Position, y: int, x: int, count: int) -> Seq<u8>
    decreases 8 - x,
{
    if x >= 8 {
        run_text(count)
    } else {
        match p.piece_on(square_bit(y * 8 + x)) {
            Some(pc) => run_text(count) + seq![letter_byte(pc)] + rank_text(p, y, x + 1, 0),
            None => rank_text(p, y, x + 1, count + 1),
        }
    }
}

/// The text of the board from the rank that is `done` ranks below the top: the
/// ranks from the top down, with a slash between two ranks.
pub open spec fn board_text(p: Position, done: int) -> Seq<u8>
    decreases 8 - done,
{
    if done >= 8 {
        Seq::empty()
    } else if done == 7 {
        rank_text(p, 0, 0, 0)
    } else {
        rank_text(p, 7 - done, 0, 0) + seq![47u8] + board_text(p, done + 1)
    }
}

/// The text of the castling rights: the letters of `KQkq` for the rights that
/// are there, and a dash for none.
pub open spec fn castle_text(p: Position) -> Seq<u8> {
    let w = p.castle_rights(Side::White);
    let b = p.castle_rights(Side::Black);
    let t = (if w.0 {
        seq![75u8]
    } else {
        Seq::empty()
    }) + (if w.1 {
        seq![81u8]
    } else {
        Seq::empty()
    }) + (if b.0 {
        seq![107u8]
    } else {
        Seq::empty()
    }) + (if b.1 {
        seq![113u8]
    } else {
        Seq::empty()
    });
    if t.len() == 0 {
        seq![45u8]
    } else {
        t
    }
}

/// The text of the square to capture in passing: its name, and a dash where the
/// marks of both sides together are not one square.
pub open spec fn en_passant_text(p: Position) -> Seq<u8> {
    let b = p.boards[8] | p.boards[17];
    if square_count(b) == 1 {
        seq![(97 + lowest_square(b) % 8) as u8, (49 + lowest_square(b) / 8) as u8]
    } else {
        seq![45u8]
    }
}

/// The fields `fs` from the `i`-th on, with one blank between two of them.
pub open spec fn joined(fs: Seq<Seq<u8>>, i: int) -> Seq<u8>
    decreases fs.len() - i,
{
    if i < 0 || i >= fs.len() {
        Seq::empty()
    } else if i == fs.len() - 1 {
        fs[i]
    } else {
        fs[i] + seq![32u8] + joined(fs, i + 1)
    }
}

/// The fields of the text of a position.
pub open spec fn fen_fields(p: Position) -> Seq<Seq<u8>> {
    seq![
        board_text(p, 0),
        seq![
            if p.side == Side::White {
                119u8
            } else {
                98u8
            },
        ],
        castle_text(p),
        en_passant_text(p),
        decimal(p.half_moves as nat),
        decimal(p.full_moves as nat),
    ]
}

/// The position in Forsyth-Edwards notation: the board, the side to move, the
/// castling rights, the square to capture in passing, the half-move clock and the
/// full-move number, with one blank between two of them.
pub open spec fn fen_bytes(p: Position) -> Seq<u8> {
    joined(fen_fields(p), 0)
}

/// The characters that the bytes of a text in ASCII stand for.
pub open spec fn chars_of(s: Seq<u8>) -> Seq<char> {
    Seq::new(s.len(), |i: int| s[i] as char)
}

/// The text of the bytes, which are all ASCII.
pub fn string_of(bytes: &Vec<u8>) -> (r: String)
    ensures
        r@ == chars_of(bytes@),
{
    let mut result = String::new();
    let mut i: usize = 0;
    while i < bytes.len()
        invariant
            0 <= i <= bytes@.len(),
            result@ == chars_of(bytes@.subrange(0, i as int)),
        decreases bytes@.len() - i,
    {
        result.push(bytes[i] as char);
        assert(result@ =~= chars_of(bytes@.subrange(0, i + 1)));
        i += 1;
    }
    assert(bytes@.subrange(0, bytes@.len() as int) =~= bytes@);
    result
}

/// The byte of the letter of a piece in a position's text.
fn piece_byte(pc: BBPiece) -> (r: u8)
    ensures
        r == letter_byte(pc),
{
    match pc {
        BBPiece::WKing => 75,
        BBPiece::WPawn => 80,
        BBPiece::WRook => 82,
        BBPiece::WKnight => 78,
        BBPiece::WBishop => 66,
        BBPiece::WQueen => 81,
        BBPiece::BKing => 107,
        BBPiece::BPawn => 112,
        BBPiece::BRook => 114,
        BBPiece::BKnight => 110,
        BBPiece::BBishop => 98,
        BBPiece::BQueen => 113,
        _ => 42,
    }
}

/// Whether the bytes from `a` to `b` hold the byte `c`.
fn holds_byte(bytes: &[u8], a: usize, b: usize, c: u8) -> (r: bool)
    requires
        a <= b <= bytes@.len(),
    ensures
        r == bytes@.subrange(a as int, b as int).contains(c),
{
    let ghost s = bytes@.subrange(a as int, b as int);
    let mut i = a;
    while i < b
        invariant
            a <= i <= b <= bytes@.len(),
            s == bytes@.subrange(a as int, b as int),
            forall|j: int| 0 <= j < i - a ==> s[j] != c,
        decreases b - i,
    {
        if bytes[i] == c {
            assert(s[i - a] == c);
            return true;
        }
        i += 1;
    }
    false
}

impl ChessState {
    /// Appends the text of the castling rights.
    fn push_castles(&self, text: &mut Vec<u8>)
        ensures
            final(text)@ == old(text)@ + castle_text(self@),
    {
        let wc = self.castle_state(Side::White);
        let bc = self.castle_state(Side::Black);
        let ghost start = text@;
        let n = text.len();
        if wc.0 {
            text.push(75);
        }
        if wc.1 {
            text.push(81);
        }
        if bc.0 {
            text.push(107);
        }
        if bc.1 {
            text.push(113);
        }
        if text.len() == n {
            text.push(45);
        }
        assert(text@ =~= start + castle_text(self@));
    }

    /// Appends the text of the square to capture in passing.
    fn push_en_passant(&self, text: &mut Vec<u8>)
        ensures
            final(text)@ == old(text)@ + en_passant_text(self@),
    {
        let b = self.bboards[8] | self.bboards[17];
        let ghost start = text@;
        if b.count_ones() == 1 {
            proof {
                lemma_count_single(b);
                lemma_lowest_square(b);
            }
            let idx = b.trailing_zeros();
            text.push(97 + (idx % 8) as u8);
            text.push(49 + (idx / 8) as u8);
        } else {
            text.push(45);
        }
        assert(text@ =~= start + en_passant_text(self@));
    }

    /// Appends the text of the board.
    fn push_board(&self, text: &mut Vec<u8>)
        ensures
            final(text)@ == old(text)@ + board_text(self@, 0),
    {
        let ghost start = text@;
        let ghost p = self@;
        let mut done: usize = 0;
        while done < 8
            invariant
                0 <= done <= 8,
                p == self@,
                text@ + board_text(p, done as int) == start + board_text(p, 0),
            decreases 8 - done,
        {
            let y: usize = 7 - done;
            let ghost before = text@;
            let mut count: u8 = 0;
            let mut x: usize = 0;
            while x < 8
                invariant
                    0 <= x <= 8,
                    0 <= count <= x,
                    y < 8,
                    p == self@,
                    text@ + rank_text(p, y as int, x as int, count as int) == before + rank_text(
                        p,
                        y as int,
                        0,
                        0,
                    ),
                decreases 8 - x,
            {
                let ghost t0 = text@;
                match self.find_piece(1u64 << ((y * 8 + x) as u64)) {
                    Some(pc) => {
                        if count > 0 {
                            text.push(48 + count);
                        }
                        text.push(piece_byte(pc));
                        proof {
                            assert(text@ =~= t0 + run_text(count as int) + seq![letter_byte(pc)]);
                            assert(t0 + (run_text(count as int) + seq![letter_byte(pc)] + rank_text(
                                p,
                                y as int,
                                x + 1,
                                0,
                            )) =~= t0 + run_text(count as int) + seq![letter_byte(pc)] + rank_text(
                                p,
                                y as int,
                                x + 1,
                                0,
                            ));
                        }
                        count = 0;
                    },
                    None => {
                        count += 1;
                    },
                }
                x += 1;
            }
            let ghost t1 = text@;
            if count > 0 {
                text.push(48 + count);
            }
            if done < 7 {
                text.push(47);
            }
            proof {
                let r = rank_text(p, y as int, 0, 0);
                assert(text@ =~= before + r + if done < 7 {
                    seq![47u8]
                } else {
                    Seq::<u8>::empty()
                });
                if done < 7 {
                    assert(before + (r + seq![47u8] + board_text(p, done + 1)) =~= before + r
                        + seq![47u8] + board_text(p, done + 1));
                } else {
                    assert(board_text(p, 8) =~= Seq::<u8>::empty());
                    assert(before + r =~= before + r + board_text(p, 8));
                }
            }
            done += 1;
        }
        assert(text@ + board_text(p, 8) =~= text@);
    }

    /// The bytes of the position in Forsyth-Edwards notation.
    pub fn to_fen_bytes(&self) -> (r: Vec<u8>)
        ensures
            r@ == fen_bytes(self@),
    {
        let mut text: Vec<u8> = Vec::new();
        self.push_board(&mut text);
        text.push(32);
        text.push(
            match self.next_to_move {
                Side::White => 119,
                Side::Black => 98,
            },
        );
        text.push(32);
        self.push_castles(&mut text);
        text.push(32);
        self.push_en_passant(&mut text);
        text.push(32);
        push_number(&mut text, self.half_move_count);
        text.push(32);
        push_number(&mut text, self.full_move_count);
        proof {
            reveal_with_fuel(joined, 7);
            let fs = fen_fields(self@);
            assert(fs.len() == 6);
            assert(joined(fs, 5) == fs[5]);
            assert(joined(fs, 4) == fs[4] + seq![32u8] + fs[5]);
            assert(joined(fs, 3) == fs[3] + seq![32u8] + joined(fs, 4));
            assert(joined(fs, 2) == fs[2] + seq![32u8] + joined(fs, 3));
            assert(joined(fs, 1) == fs[1] + seq![32u8] + joined(fs, 2));
            assert(joined(fs, 0) == fs[0] + seq![32u8] + joined(fs, 1));
            assert(text@ =~= fs[0] + seq![32u8] + (fs[1] + seq![32u8] + (fs[2] + seq![32u8] + (
            fs[3] + seq![32u8] + (fs[4] + seq![32u8] + fs[5])))));
        }
        text
    }

    /// The position in Forsyth-Edwards notation.
    pub fn to_fen(&self) -> (r: String)
        ensures
            r@ == chars_of(fen_bytes(self@)),
    {
        let bytes = self.to_fen_bytes();
        string_of(&bytes)
    }

    /// The castling rights as they stand in Forsyth-Edwards notation: the letters
    /// of `KQkq` for the rights that are there, and a dash for none.
    pub fn castle_string(&self) -> (r: String)
        ensures
            r@ == chars_of(castle_text(self@)),
    {
        let mut text: Vec<u8> = Vec::new();
        self.push_castles(&mut text);
        assert(text@ =~= castle_text(self@));
        string_of(&text)
    }

    /// The name of the square to capture in passing, and a dash if there is none.
    pub fn en_passant_string(&self) -> (r: String)
        ensures
            r@ == board_name(self@.boards[8] | self@.boards[17]),
    {
        bb_to_coord(self.bboards[8] | self.bboards[17])
    }

    /// Reads the board of a text in Forsyth-Edwards notation, the bytes from `a` to
    /// `b`, into the boards of the pieces.
    fn read_board(&mut self, bytes: &[u8], a: usize, b: usize) -> (ok: bool)
        requires
            a <= b <= bytes@.len(),
        ensures
            ok ==> board_scan(bytes@.subrange(a as int, b as int), 0, 0, old(self)@.boards)
                == Some(final(self)@.boards),
            !ok ==> board_scan(bytes@.subrange(a as int, b as int), 0, 0, old(self)@.boards)
                is None,
            final(self).next_to_move == old(self).next_to_move,
            final(self).half_move_count == old(self).half_move_count,
            final(self).full_move_count == old(self).full_move_count,
    {
        let ghost s = bytes@.subrange(a as int, b as int);
        let ghost start = self@.boards;
        let mut idx: u32 = 0;
        let mut i: usize = a;
        while i < b
            invariant
                a <= i <= b <= bytes@.len(),
                s == bytes@.subrange(a as int, b as int),
                idx <= 64 + 8,
                start == old(self)@.boards,
                self.next_to_move == old(self).next_to_move,
                self.half_move_count == old(self).half_move_count,
                self.full_move_count == old(self).full_move_count,
                board_scan(s, i - a, idx as int, self@.boards) == board_scan(s, 0, 0, start),
            decreases b - i,
        {
            let c = bytes[i];
            assert(s[i - a] == c);
            if idx > 63 {
                return false;
            }
            if c == 47 {
            } else if c >= 49 && c <= 56 {
                idx += (c - 48) as u32;
            } else {
                if !is_piece_letter(c) {
                    return false;
                }
                let pc = BBPiece::from_byte(&c);
                let x = idx % 8;
                let y = 7 - idx / 8;
                let bit = 1u64 << ((y * 8 + x) as u64);
                let ghost before = self@.boards;
                let pi = pc.idx();
                let ai = pc.get_side().offset() + 6;
                let v = self.bboards[pi];
                self.bboards[pi] = v | bit;
                let w = self.bboards[ai];
                self.bboards[ai] = w | bit;
                assert(self@.boards =~= placed(before, pc, reading_square(idx as int)));
                idx += 1;
            }
            i += 1;
        }
        true
    }

    /// The position that a text in Forsyth-Edwards notation describes, or why it
    /// describes none.
    pub fn from_fen(fen: &str) -> (r: Result<ChessState, ParseError>)
        ensures
            match r {
                Ok(st) => parse_fen(fen.spec_bytes()) == Ok::<Position, ParseError>(st@),
                Err(e) => parse_fen(fen.spec_bytes()) == Err::<Position, ParseError>(e),
            },
    {
        let bytes = fen.as_bytes();
        let (lo, hi) = trim_bounds(bytes);
        let ghost t = trimmed(bytes@);
        let mut state = ChessState::new_empty();
        proof {
            assert(field_start(t, 0) == 0);
        }
        match find_field(bytes, lo, hi, 0) {
            Some((a, b)) => {
                if !state.read_board(bytes, a, b) {
                    return Err(ParseError::BadBoard);
                }
            },
            None => {},
        }
        match find_field(bytes, lo, hi, 1) {
            Some((a, b)) => {
                if a < b && bytes[a] == 119 {
                    state.next_to_move = Side::White;
                } else if a < b && bytes[a] == 98 {
                    state.next_to_move = Side::Black;
                } else {
                    return Err(ParseError::BadSide);
                }
            },
            None => {},
        }
        match find_field(bytes, lo, hi, 2) {
            Some((a, b)) => {
                let wk = holds_byte(bytes, a, b, 75);
                let wq = holds_byte(bytes, a, b, 81);
                let bk = holds_byte(bytes, a, b, 107);
                let bq = holds_byte(bytes, a, b, 113);
                state.set_castle_state(Side::White, (wk, wq));
                state.set_castle_state(Side::Black, (bk, bq));
            },
            None => {
                state.set_castle_state(Side::White, (false, false));
                state.set_castle_state(Side::Black, (false, false));
            },
        }
        match find_field(bytes, lo, hi, 3) {
            Some((a, b)) => {
                if b - a == 2 {
                    let x = bytes[a];
                    let y = bytes[a + 1];
                    if x < 97 || x > 104 || y < 49 || y > 56 {
                        return Err(ParseError::BadEnPassant);
                    }
                    let idx = (y - 49) as u64 * 8 + (x - 97) as u64;
                    let bit = 1u64 << idx;
                    assert(bit != 0) by (bit_vector)
                        requires
                            bit == 1u64 << idx,
                            idx < 64,
                    ;
                    state.set_en_passant(bit);
                }
            },
            None => {},
        }
        match find_field(bytes, lo, hi, 4) {
            Some((a, b)) => {
                match read_number(bytes, a, b) {
                    Some(n) => {
                        state.half_move_count = n;
                    },
                    None => {
                        return Err(ParseError::BadNumber);
                    },
                }
            },
            None => {},
        }
        match find_field(bytes, lo, hi, 5) {
            Some((a, b)) => {
                match read_number(bytes, a, b) {
                    Some(n) => {
                        state.full_move_count = n;
                    },
                    None => {
                        return Err(ParseError::BadNumber);
                    },
                }
            },
            None => {},
        }
        Ok(state)
    }

    /// The position at the start of a game.
    pub fn new_game() -> (r: ChessState)
        ensures
            r@ == initial_position(),
    {
        let r = ChessState {
            next_to_move: Side::White,
            bboards: [
                0x10u64,
                0xff00u64,
                0x81u64,
                0x42u64,
                0x24u64,
                0x08u64,
                0xffffu64,
                3u64,
                0u64,
                0x1000000000000000u64,
                0x00ff000000000000u64,
                0x8100000000000000u64,
                0x4200000000000000u64,
                0x2400000000000000u64,
                0x0800000000000000u64,
                0xffff000000000000u64,
                3u64,
                0u64,
            ],
            half_move_count: 0,
            full_move_count: 1,
        };
        assert(r@.boards =~= initial_position().boards);
        r
    }
}

/// The position at the start of a game: White to move, every piece on its home
/// square, all the castling rights, and the first move to be made.
pub open spec fn initial_position() -> Position {
    Position {
        side: Side::White,
        boards: seq![
            0x10u64,
            0xff00u64,
            0x81u64,
            0x42u64,
            0x24u64,
            0x08u64,
            0xffffu64,
            3u64,
            0u64,
            0x1000000000000000u64,
            0x00ff000000000000u64,
            0x8100000000000000u64,
            0x4200000000000000u64,
            0x2400000000000000u64,
            0x0800000000000000u64,
            0xffff000000000000u64,
            3u64,
            0u64,
        ],
        half_moves: 0,
        full_moves: 1,
    }
}

/// Whether the byte is the letter of a piece.
fn is_piece_letter(c: u8) -> (r: bool)
    ensures
        r == (BBPiece::of_letter(c) is Some),
{
    c == 80 || c == 82 || c == 78 || c == 66 || c == 81 || c == 75 || c == 112 || c == 114 || c
        == 110 || c == 98 || c == 113 || c == 107
}

} // verus!
