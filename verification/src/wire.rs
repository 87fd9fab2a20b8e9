//! Lines of bytes, and the text they carry.

use vstd::prelude::*;
use vstd::slice::slice_subrange;
use vstd::utf8::{
    decode_utf8, is_char_boundary_iff_not_is_continuation_byte, valid_utf8, valid_utf8_concat,
    valid_utf8_split,
};

verus! {

/// Carriage return.
pub const CR: u8 = 13;

/// Line feed.
pub const LF: u8 = 10;

/// The two bytes that end a line on the wire.
pub open spec fn crlf() -> Seq<u8> {
    seq![CR, LF]
}

/// How many bytes the first line of `input` has, its line feed included. The
/// last line may have none.
pub open spec fn line_len(input: Seq<u8>) -> int
    decreases input.len(),
{
    if input.len() == 0 {
        0
    } else if input[0] == LF {
        1
    } else {
        1 + line_len(input.skip(1))
    }
}

/// The first line of `input`, with its line ending.
pub open spec fn first_line(input: Seq<u8>) -> Seq<u8> {
    input.take(line_len(input))
}

/// What follows the first line of `input`.
pub open spec fn after_line(input: Seq<u8>) -> Seq<u8> {
    input.skip(line_len(input))
}

/// `bytes` without a last byte equal to `byte`.
pub open spec fn without_last(bytes: Seq<u8>, byte: u8) -> Seq<u8> {
    if bytes.len() > 0 && bytes.last() == byte {
        bytes.drop_last()
    } else {
        bytes
    }
}

/// A raw line without its line ending: a line feed, a carriage return, or the
/// one after the other.
pub open spec fn without_eol(raw: Seq<u8>) -> Seq<u8> {
    without_last(without_last(raw, LF), CR)
}

/// The first line reaches to the first line feed, or to the end.
pub proof fn lemma_line_len(input: Seq<u8>)
    ensures
        0 <= line_len(input) <= input.len(),
        input.len() > 0 ==> line_len(input) > 0,
        forall|i: int| 0 <= i < line_len(input) - 1 ==> input[i] != LF,
        line_len(input) < input.len() ==> input[line_len(input) - 1] == LF,
    decreases input.len(),
{
    if input.len() > 0 && input[0] != LF {
        let tail = input.skip(1);
        lemma_line_len(tail);
        assert forall|i: int| 0 <= i < line_len(input) - 1 implies input[i] != LF by {
            if i > 0 {
                assert(tail[i - 1] == input[i]);
            }
        }
    }
}

/// A line without a line feed, then a line feed, is the first line of whatever
/// begins with them.
pub proof fn lemma_first_line(line: Seq<u8>, rest: Seq<u8>)
    requires
        !line.contains(LF),
    ensures
        first_line(line.push(LF) + rest) == line.push(LF),
        after_line(line.push(LF) + rest) == rest,
{
    let input = line.push(LF) + rest;
    lemma_line_len(input);
    let n = line_len(input);
    assert(input[line.len() as int] == LF);
    if n < line.len() + 1 {
        assert(line[n - 1] == input[n - 1]);
        assert(line.contains(LF));
    }
    assert(n == line.len() + 1);
    assert(first_line(input) =~= line.push(LF));
    assert(after_line(input) =~= rest);
}

/// Whether a line is UTF-8 does not rest on a last byte that is ASCII.
proof fn lemma_without_last_utf8(bytes: Seq<u8>, byte: u8)
    requires
        byte < 0x80,
    ensures
        valid_utf8(without_last(bytes, byte)) == valid_utf8(bytes),
{
    if bytes.len() > 0 && bytes.last() == byte {
        let body = bytes.drop_last();
        let end: Seq<u8> = seq![byte];
        assert(bytes =~= body + end);
        assert(valid_utf8(end)) by {
            reveal_with_fuel(valid_utf8, 2);
        }
        if valid_utf8(body) {
            valid_utf8_concat(body, end);
        }
        if valid_utf8(bytes) {
            is_char_boundary_iff_not_is_continuation_byte(bytes, bytes.len() - 1);
            valid_utf8_split(bytes, bytes.len() - 1);
            assert(body =~= bytes.subrange(0, bytes.len() - 1));
        }
    }
}

/// A line is UTF-8 with its line ending exactly where it is without.
pub proof fn lemma_without_eol_utf8(raw: Seq<u8>)
    ensures
        valid_utf8(without_eol(raw)) == valid_utf8(raw),
{
    lemma_without_last_utf8(raw, LF);
    lemma_without_last_utf8(without_last(raw, LF), CR);
}

/// Take the first line off `reader`. The line is empty where the reader is.
pub fn take_line<'a>(reader: &mut &'a [u8]) -> (raw: &'a [u8])
    ensures
        raw@ == first_line(old(reader)@),
        final(reader)@ == after_line(old(reader)@),
{
    let input: &'a [u8] = *reader;
    let mut end: usize = 0;
    proof {
        lemma_line_len(input@);
    }
    while end < input.len() && input[end] != LF
        invariant
            end <= input@.len(),
            forall|i: int| 0 <= i < end ==> input@[i] != LF,
        decreases input@.len() - end,
    {
        end = end + 1;
    }
    if end < input.len() {
        end = end + 1;
    }
    *reader = slice_subrange(input, end, input.len());
    slice_subrange(input, 0, end)
}

/// A line without its line ending.
pub fn trim_eol(raw: &[u8]) -> (line: &[u8])
    ensures
        line@ == without_eol(raw@),
{
    let mut end: usize = raw.len();
    if end > 0 && raw[end - 1] == LF {
        end = end - 1;
    }
    if end > 0 && raw[end - 1] == CR {
        end = end - 1;
    }
    slice_subrange(raw, 0, end)
}

/// The text that `bytes` encode, where they are UTF-8. Calls
/// `std::str::from_utf8`, of which this claims what its documentation says: it
/// succeeds exactly on valid UTF-8, and gives the characters that the bytes
/// encode.
#[verifier::external_body]
pub(crate) fn text_of(bytes: &[u8]) -> (text: Option<&str>)
    ensures
        text is Some <==> valid_utf8(bytes@),
        text matches Some(text) ==> text@ == decode_utf8(bytes@),
{
    match std::str::from_utf8(bytes) {
        Ok(text) => Some(text),
        Err(_) => None,
    }
}

} // verus!
