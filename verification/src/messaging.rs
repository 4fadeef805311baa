//! Lines of the protocol, split into command and argument.
use crate::fen::{chars_of, field_end, find_field_end, trim_bounds, trimmed};
use vstd::prelude::*;
use vstd::string::{
    StrSliceExecFns, StringExecFns, StringSliceAdditionalSpecFns, is_ascii_spec_bytes,
};
use vstd::utf8::is_ascii_chars_nat_bound;

verus! {

/// The command of a line: what stands before its first blank, once the white space
/// around the line is left out.
pub open spec fn command_part(line: Seq<u8>) -> Seq<u8> {
    let t = trimmed(line);
    t.subrange(0, field_end(t, 0))
}

/// The argument of a line: what stands behind its first blank, once the white
/// space around the line is left out; nothing for a line without a blank.
pub open spec fn argument_part(line: Seq<u8>) -> Seq<u8> {
    let t = trimmed(line);
    if field_end(t, 0) < t.len() {
        t.subrange(field_end(t, 0) + 1, t.len() as int)
    } else {
        Seq::empty()
    }
}

/// The characters of a text in ASCII are those that its bytes stand for.
pub proof fn lemma_ascii_chars(s: &str, a: int, b: int)
    requires
        s.is_ascii(),
        0 <= a <= b <= s@.len(),
    ensures
        s.spec_bytes().len() == s@.len(),
        s@.subrange(a, b) == chars_of(s.spec_bytes().subrange(a, b)),
{
    is_ascii_spec_bytes(s);
    is_ascii_chars_nat_bound(s@);
    assert(s@.subrange(a, b) =~= chars_of(s.spec_bytes().subrange(a, b)));
}

/// Splits a line into its command and its argument. A line that is not in ASCII
/// has neither.
pub fn split_message(input: &str) -> (r: (String, String))
    ensures
        input.is_ascii() ==> r.0@ == chars_of(command_part(input.spec_bytes())) && r.1@
            == chars_of(argument_part(input.spec_bytes())),
        !input.is_ascii() ==> r.0@ == Seq::<char>::empty() && r.1@ == Seq::<char>::empty(),
{
    if !input.is_ascii() {
        return (String::new(), String::new());
    }
    let bytes = input.as_bytes();
    let (lo, hi) = trim_bounds(bytes);
    let e = find_field_end(bytes, lo, hi, lo);
    proof {
        lemma_ascii_chars(input, lo as int, e as int);
        let t = trimmed(bytes@);
        assert(t.subrange(0, e - lo) =~= bytes@.subrange(lo as int, e as int));
        if e < hi {
            lemma_ascii_chars(input, e + 1, hi as int);
            assert(t.subrange(e - lo + 1, t.len() as int) =~= bytes@.subrange(e + 1, hi as int));
        } else {
            assert(chars_of(Seq::<u8>::empty()) =~= Seq::<char>::empty());
        }
    }
    let command = String::from_str(input.substring_ascii(lo, e));
    let argument = if e < hi {
        String::from_str(input.substring_ascii(e + 1, hi))
    } else {
        String::new()
    };
    (command, argument)
}

} // verus!
