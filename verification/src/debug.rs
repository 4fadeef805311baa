//! Pictures of boards.
use crate::bboard::{BBoard, has_square, lemma_mask_test};
use vstd::prelude::*;

verus! {

/// The picture of rank `y` of the board from file `x` on: `1` for a square of the
/// board and `0` for any other, and a line feed at the end.
pub open spec fn rank_picture(b: u64, y: int, x: int) -> Seq<char>
    decreases 8 - x,
{
    if x >= 8 {
        seq!['\n']
    } else {
        seq![
            if has_square(b, y * 8 + x) {
                '1'
            } else {
                '0'
            },
        ] + rank_picture(b, y, x + 1)
    }
}

/// The picture of the board from the rank that is `done` ranks below the top: one
/// line for each rank, the top rank first.
pub open spec fn board_picture(b: u64, done: int) -> Seq<char>
    decreases 8 - done,
{
    if done >= 8 {
        Seq::empty()
    } else {
        rank_picture(b, 7 - done, 0) + board_picture(b, done + 1)
    }
}

/// What can be shown as a text.
pub trait AsString {
    /// The text that shows the value.
    spec fn as_text(&self) -> Seq<char>;

    /// The text that shows the value.
    fn as_string(&self) -> (r: String)
        ensures
            r@ == self.as_text(),
    ;
}

impl AsString for BBoard {
    open spec fn as_text(&self) -> Seq<char> {
        board_picture(*self, 0)
    }

    /// The picture of the board: eight lines of eight digits, the top rank first
    /// and each rank from file `a`, `1` for a square of the board.
    fn as_string(&self) -> (r: String) {
        let b = *self;
        let mut result = String::new();
        let mut done: usize = 0;
        while done < 8
            invariant
                0 <= done <= 8,
                result@ + board_picture(b, done as int) == board_picture(b, 0),
            decreases 8 - done,
        {
            let y = 7 - done;
            let ghost before = result@;
            let mut x: usize = 0;
            while x < 8
                invariant
                    0 <= x <= 8,
                    y < 8,
                    result@ + rank_picture(b, y as int, x as int) == before + rank_picture(
                        b,
                        y as int,
                        0,
                    ),
                decreases 8 - x,
            {
                let ghost t0 = result@;
                proof {
                    lemma_mask_test(b, y * 8 + x);
                }
                let c = if b & (1u64 << ((y * 8 + x) as u64)) > 0 {
                    '1'
                } else {
                    '0'
                };
                result.push(c);
                assert(t0 + (seq![c] + rank_picture(b, y as int, x + 1)) =~= t0.push(c)
                    + rank_picture(b, y as int, x + 1));
                x += 1;
            }
            let ghost t1 = result@;
            result.push('\n');
            proof {
                let r = rank_picture(b, y as int, 0);
                assert(t1.push('\n') =~= before + r);
                assert(before + (r + board_picture(b, done + 1)) =~= before + r + board_picture(
                    b,
                    done + 1,
                ));
            }
            done += 1;
        }
        assert(result@ + board_picture(b, 8) =~= result@);
        result
    }
}

} // verus!
