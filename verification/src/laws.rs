//! What holds of sessions as a whole.

use vstd::prelude::*;
use vstd::utf8::{
    decode_utf8, encode_scalar, encode_utf8, encode_utf8_decode_utf8, encode_utf8_valid_utf8,
    is_ascii_chars_encode_utf8, valid_utf8,
};

use crate::becomes;
use crate::client::{
    addressee, body_wire, carried, delivery_step, delivery_steps, lemma_carried_is_played,
    mailbox_of, opening, played, progressed, relayed, Progress, Step,
};
use crate::error::Fault;
use crate::server::{
    accepted, answer_to, answered, conversation, lemma_verbs, opened, spoken_if, turn, verb_of, Delivery, State,
};
use crate::session::{
    code_of, data_from, data_step, expected, is_continued, reply_from, spoken, stuffed, unstuffed,
    with_line, DataStep, Next, DOT,
};
use crate::text::{
    first_word, is_white_space, leading_word, lemma_first_word, upper, upper_char,
};
use crate::wire::{
    after_line, crlf, first_line, lemma_first_line, lemma_line_len, lemma_without_eol_utf8,
    line_len, without_eol, without_last, CR, LF,
};

verus! {

// ---------------------------------------------------------------------------
// Configuration
// ---------------------------------------------------------------------------

/// An address or a sender that is given as text, borrowed or owned, is kept as it is.
pub proof fn law_texts_are_kept(borrowed: &str, owned: String, text: Seq<char>)
    ensures
        becomes(borrowed, text) ==> text == borrowed@,
        becomes(owned, text) ==> text == owned@,
{
}

// ---------------------------------------------------------------------------
// Message data
// ---------------------------------------------------------------------------

/// Unstuffing undoes stuffing, on every line, and no stuffed line is the lone
/// period that ends a message.
pub proof fn law_stuffing_is_undone(line: Seq<u8>)
    ensures
        unstuffed(stuffed(line)) == line,
        stuffed(line) != seq![DOT],
{
    if line.len() > 0 && line[0] == DOT {
        assert(stuffed(line)[1] == DOT);
        assert(stuffed(line).skip(1) =~= line);
    } else {
        assert(seq![DOT][0] == DOT);
    }
}

/// What arrives of `message` where `held` arrived before it: its lines, whatever
/// line ending each had, with the line ending of the wire between them, except
/// that nothing stands before the first line that is not empty.
pub open spec fn delivered_after(held: Seq<u8>, message: Seq<u8>) -> Seq<u8>
    decreases message.len(),
{
    let grown = with_line(held, without_eol(first_line(message)));
    if message.contains(LF) {
        proof {
            lemma_line_len(message);
        }
        delivered_after(grown, after_line(message))
    } else {
        grown
    }
}

/// What arrives of a message.
pub open spec fn delivered(message: Seq<u8>) -> Seq<u8> {
    delivered_after(Seq::empty(), message)
}

/// Where the first line of a message ends.
pub proof fn lemma_message_line(message: Seq<u8>)
    ensures
        ({
            let raw = first_line(message);
            let line = without_eol(raw);
            &&& !line.contains(LF)
            &&& message == raw + after_line(message)
            &&& message.contains(LF) <==> raw.len() > 0 && raw.last() == LF
            &&& !message.contains(LF) ==> raw == message && line == without_last(message, CR)
            &&& message.contains(LF) ==> after_line(message).len() < message.len()
        }),
{
    lemma_line_len(message);
    let raw = first_line(message);
    assert(message =~= raw + after_line(message));
    let line = without_eol(raw);
    assert forall|i: int| 0 <= i < line.len() implies line[i] != LF by {
        assert(line[i] == message[i]);
        if i == line_len(message) - 1 {
            assert(raw.last() == message[i]);
        }
    }
    if message.contains(LF) {
        let i = message.index_of(LF);
        assert(message[i] == LF);
        assert(raw.last() == message[line_len(message) - 1]);
    } else {
        if raw.len() > 0 {
            assert(message[raw.len() - 1] == raw.last());
        }
        assert(raw =~= message);
    }
}

/// What arrives only grows.
proof fn lemma_delivered_grows(held: Seq<u8>, message: Seq<u8>)
    ensures
        with_line(held, without_eol(first_line(message))).len() <= delivered_after(
            held,
            message,
        ).len(),
    decreases message.len(),
{
    lemma_message_line(message);
    if message.contains(LF) {
        lemma_delivered_grows(
            with_line(held, without_eol(first_line(message))),
            after_line(message),
        );
    }
}

/// The lone period that ends a message.
proof fn lemma_dot()
    ensures
        spoken("."@) == seq![DOT, CR, LF],
{
    reveal_strlit(".");
    is_ascii_chars_encode_utf8("."@);
    assert(encode_utf8("."@)[0] == '.' as u8);
    assert(spoken("."@) =~= seq![DOT, CR, LF]);
}

/// What a line that ends as the wire requires is read as.
pub proof fn lemma_wire_line(line: Seq<u8>, rest: Seq<u8>)
    requires
        !line.contains(LF),
    ensures
        first_line(line + crlf() + rest) == line + crlf(),
        after_line(line + crlf() + rest) == rest,
        without_eol(line + crlf()) == line,
{
    let ended = line.push(CR);
    assert(!ended.contains(LF)) by {
        assert forall|i: int| 0 <= i < ended.len() implies ended[i] != LF by {
            if i < line.len() {
                assert(line.contains(line[i]));
            }
        }
    }
    lemma_first_line(ended, rest);
    assert(ended.push(LF) =~= line + crlf());
    assert(ended.push(LF).drop_last() =~= ended);
    assert(ended.drop_last() =~= line);
}

proof fn lemma_message_arrives_after(
    held: Seq<u8>,
    message: Seq<u8>,
    rest: Seq<u8>,
    max_body: nat,
)
    ensures
        ({
            let read = data_from(body_wire(message) + spoken("."@) + rest, held, max_body);
            let whole = delivered_after(held, message);
            if whole.len() <= max_body {
                read == (Ok::<Seq<u8>, Fault>(whole), rest)
            } else {
                read.0 == Err::<Seq<u8>, Fault>(
                    Fault::Protocol { what: "a message over the size Xmip will read"@ },
                )
            }
        }),
    decreases message.len(),
{
    lemma_message_line(message);
    lemma_dot();
    lemma_delivered_grows(held, message);
    let line = without_eol(first_line(message));
    law_stuffing_is_undone(line);
    let sent = stuffed(line);
    assert(!sent.contains(LF)) by {
        assert forall|i: int| 0 <= i < sent.len() implies sent[i] != LF by {
            if sent.len() > line.len() && i > 0 {
                assert(line.contains(line[i - 1]));
            } else if i < line.len() {
                assert(line.contains(line[i]));
            }
        }
    }
    let grown = with_line(held, line);
    let end = spoken("."@) + rest;
    if message.contains(LF) {
        let more = body_wire(after_line(message));
        let tail = more + spoken("."@) + rest;
        assert(body_wire(message) + spoken("."@) + rest =~= sent + crlf() + tail);
        lemma_wire_line(sent, tail);
        if grown.len() <= max_body {
            lemma_message_arrives_after(grown, after_line(message), rest, max_body);
        }
    } else {
        assert(body_wire(message) + spoken("."@) + rest =~= sent + crlf() + end);
        lemma_wire_line(sent, end);
        assert(end =~= seq![DOT] + crlf() + rest);
        lemma_wire_line(seq![DOT], rest);
        assert(data_from(end, grown, max_body) == (Ok::<Seq<u8>, Fault>(grown), rest));
    }
}

/// A message that is sent line by line is read back, up to the lone period and no
/// further, as [`delivered`] says, where that fits the size limit, and is refused
/// for its size where it does not. No line of the message can end it early.
pub proof fn law_message_arrives(message: Seq<u8>, rest: Seq<u8>, max_body: nat)
    ensures
        delivered(message).len() <= max_body ==> data_from(
            body_wire(message) + spoken("."@) + rest,
            Seq::empty(),
            max_body,
        ) == (Ok::<Seq<u8>, Fault>(delivered(message)), rest),
        delivered(message).len() > max_body ==> data_from(
            body_wire(message) + spoken("."@) + rest,
            Seq::empty(),
            max_body,
        ).0 == Err::<Seq<u8>, Fault>(
            Fault::Protocol { what: "a message over the size Xmip will read"@ },
        ),
{
    lemma_message_arrives_after(Seq::empty(), message, rest, max_body);
}

/// Whether the byte at `i` is no line feed, or one that follows a carriage return.
pub open spec fn no_bare_feed_at(bytes: Seq<u8>, i: int) -> bool {
    bytes[i] == LF ==> i > 0 && bytes[i - 1] == CR
}

/// Whether every line feed follows a carriage return.
pub open spec fn no_bare_feed(bytes: Seq<u8>) -> bool {
    forall|i: int| 0 <= i < bytes.len() ==> #[trigger] no_bare_feed_at(bytes, i)
}

/// Whether a message has the form that the wire gives it: every line feed follows a
/// carriage return, no carriage return stands at the very end, and the message does
/// not begin with an empty line.
pub open spec fn is_in_wire_form(message: Seq<u8>) -> bool {
    &&& no_bare_feed(message)
    &&& message.len() > 0 ==> message.last() != CR
    &&& !crlf().is_prefix_of(message)
}

/// The lines of a message, with the line ending of the wire between them.
spec fn relined(message: Seq<u8>) -> Seq<u8>
    decreases message.len(),
{
    let line = without_eol(first_line(message));
    if message.contains(LF) {
        proof {
            lemma_line_len(message);
        }
        line + crlf() + relined(after_line(message))
    } else {
        line
    }
}

/// After something has arrived, every line ending arrives.
proof fn lemma_delivered_after_something(held: Seq<u8>, message: Seq<u8>)
    requires
        held.len() > 0,
    ensures
        delivered_after(held, message) == held + crlf() + relined(message),
    decreases message.len(),
{
    lemma_message_line(message);
    if message.contains(LF) {
        let line = without_eol(first_line(message));
        let grown = with_line(held, line);
        lemma_delivered_after_something(grown, after_line(message));
        assert(grown + crlf() + relined(after_line(message)) =~= held + crlf() + (line + crlf()
            + relined(after_line(message))));
    }
}

/// What arrives, of a message that does not begin with an empty line.
proof fn lemma_delivered_from_a_line(message: Seq<u8>)
    requires
        without_eol(first_line(message)).len() > 0,
    ensures
        delivered(message) == relined(message),
{
    lemma_message_line(message);
    if message.contains(LF) {
        lemma_delivered_after_something(without_eol(first_line(message)), after_line(message));
    }
}

/// What arrives never begins with an empty line.
proof fn lemma_delivered_begins_with_a_line(message: Seq<u8>)
    ensures
        delivered(message).len() > 0 ==> delivered(message)[0] != LF,
        delivered(message).len() > 1 ==> delivered(message)[1] != LF,
    decreases message.len(),
{
    lemma_message_line(message);
    let line = without_eol(first_line(message));
    if line.len() == 0 {
        assert(line =~= Seq::empty());
        if message.contains(LF) {
            lemma_delivered_begins_with_a_line(after_line(message));
        }
    } else {
        lemma_delivered_from_a_line(message);
        assert(line.contains(line[0]));
        if line.len() > 1 {
            assert(line.contains(line[1]));
        }
    }
}

/// A message that is its own lines has them end as they do on the wire.
#[verifier::spinoff_prover]
#[verifier::rlimit(40)]
proof fn lemma_relined_only(message: Seq<u8>)
    requires
        relined(message) == message,
    ensures
        no_bare_feed(message),
        message.len() > 0 ==> message.last() != CR,
    decreases message.len(),
{
    lemma_message_line(message);
    lemma_line_len(message);
    let n = line_len(message);
    let raw = first_line(message);
    let line = without_eol(raw);
    let rest = after_line(message);
    if message.contains(LF) {
        assert(raw.last() == message[n - 1]);
        assert(message == line + crlf() + relined(rest));
        assert(message[line.len() as int] == CR);
        assert(message[line.len() as int + 1] == LF);
        assert(line.len() == n - 2);
        assert(relined(rest) =~= message.skip(n));
        lemma_relined_only(rest);
        assert forall|i: int| 0 <= i < message.len() implies #[trigger] no_bare_feed_at(
            message,
            i,
        ) by {
            if i >= n {
                assert(no_bare_feed_at(rest, i - n));
            }
        }
        if rest.len() > 0 {
            assert(message.last() == rest.last());
        }
    } else {
        assert forall|i: int| 0 <= i < message.len() implies #[trigger] no_bare_feed_at(
            message,
            i,
        ) by {
            assert(message.contains(message[i]));
        }
    }
}

/// A message whose lines end as they do on the wire is its own lines.
#[verifier::spinoff_prover]
#[verifier::rlimit(60)]
proof fn lemma_relined_if(message: Seq<u8>)
    requires
        no_bare_feed(message),
        message.len() > 0 ==> message.last() != CR,
    ensures
        relined(message) == message,
    decreases message.len(),
{
    lemma_message_line(message);
    lemma_line_len(message);
    let n = line_len(message);
    let raw = first_line(message);
    let line = without_eol(raw);
    let rest = after_line(message);
    if message.contains(LF) {
        assert(raw.last() == message[n - 1]);
        assert(no_bare_feed_at(message, n - 1));
        assert(raw =~= line + crlf());
        assert forall|i: int| 0 <= i < rest.len() implies #[trigger] no_bare_feed_at(rest, i) by {
            assert(no_bare_feed_at(message, n + i));
        }
        if rest.len() > 0 {
            assert(message.last() == rest.last());
        }
        lemma_relined_if(rest);
    }
}

/// A message arrives whole exactly where it has the form that the wire gives it.
pub proof fn law_which_messages_arrive_whole(message: Seq<u8>)
    ensures
        delivered(message) == message <==> is_in_wire_form(message),
{
    lemma_message_line(message);
    lemma_line_len(message);
    if relined(message) == message {
        lemma_relined_only(message);
    }
    if no_bare_feed(message) && (message.len() > 0 ==> message.last() != CR) {
        lemma_relined_if(message);
    }
    lemma_delivered_begins_with_a_line(message);
    let raw = first_line(message);
    let line = without_eol(raw);
    if line.len() > 0 {
        lemma_delivered_from_a_line(message);
        if crlf().is_prefix_of(message) {
            assert(message[0] == CR && message[1] == LF);
            assert(raw =~= seq![CR, LF]);
            assert(raw.drop_last() =~= seq![CR]);
            assert(seq![CR].drop_last() =~= Seq::<u8>::empty());
            assert(false);
        }
    } else if message.len() > 0 {
        assert(raw.last() == message[raw.len() - 1]);
        if message.contains(LF) {
            if raw.len() == 1 {
                assert(message[0] == LF);
            } else {
                assert(raw.len() == 2);
                assert(message[1] == LF);
                assert(message[0] == CR);
                assert(crlf() =~= message.take(2));
            }
        } else {
            assert(message.len() == 1 && message[0] == CR);
        }
    } else {
        assert(line =~= message);
    }
}

/// Every line of a message goes over the wire terminated as the protocol requires:
/// no line feed stands without its carriage return, and the last line ends too.
pub proof fn law_every_line_is_terminated(message: Seq<u8>)
    ensures
        no_bare_feed(body_wire(message)),
        crlf().is_suffix_of(body_wire(message)),
    decreases message.len(),
{
    lemma_message_line(message);
    let line = without_eol(first_line(message));
    let sent = stuffed(line) + crlf();
    let wire = body_wire(message);
    assert forall|i: int| 0 <= i < sent.len() implies #[trigger] no_bare_feed_at(sent, i) by {
        let shift = stuffed(line).len() - line.len();
        if shift <= i < stuffed(line).len() {
            assert(line.contains(line[i - shift]));
        }
    }
    if message.contains(LF) {
        let more = body_wire(after_line(message));
        law_every_line_is_terminated(after_line(message));
        assert(wire == sent + more);
        assert forall|i: int| 0 <= i < wire.len() implies #[trigger] no_bare_feed_at(wire, i) by {
            if i < sent.len() {
                assert(no_bare_feed_at(sent, i));
            } else {
                assert(no_bare_feed_at(more, i - sent.len()));
            }
        }
        assert(crlf() =~= more.skip(more.len() - 2));
        assert(crlf() =~= wire.skip(wire.len() - 2));
    } else {
        assert(wire == sent);
        assert(crlf() =~= wire.skip(wire.len() - 2));
    }
}

/// Several lines, with `ending` between them.
pub open spec fn joined_by(lines: Seq<Seq<u8>>, ending: Seq<u8>) -> Seq<u8>
    decreases lines.len(),
{
    if lines.len() == 0 {
        Seq::empty()
    } else if lines.len() == 1 {
        lines[0]
    } else {
        lines[0] + ending + joined_by(lines.skip(1), ending)
    }
}

/// Whether `lines` can be told apart by the line feeds between them: none holds a
/// line feed, and none but the last ends in a carriage return, which a line feed
/// after it would make part of the line ending.
pub open spec fn are_lines(lines: Seq<Seq<u8>>) -> bool {
    forall|i: int|
        0 <= i < lines.len() ==> {
            &&& !(#[trigger] lines[i]).contains(LF)
            &&& i < lines.len() - 1 && lines[i].len() > 0 ==> lines[i].last() != CR
        }
}

proof fn lemma_line_endings_are_sent_alike(lines: Seq<Seq<u8>>)
    requires
        are_lines(lines),
    ensures
        body_wire(joined_by(lines, seq![LF])) == body_wire(joined_by(lines, crlf())),
    decreases lines.len(),
{
    if lines.len() > 1 {
        let line = lines[0];
        let others = lines.skip(1);
        assert(are_lines(others)) by {
            assert forall|i: int| 0 <= i < others.len() implies {
                &&& !(#[trigger] others[i]).contains(LF)
                &&& i < others.len() - 1 && others[i].len() > 0 ==> others[i].last() != CR
            } by {
                assert(others[i] == lines[i + 1]);
            }
        }
        lemma_line_endings_are_sent_alike(others);
        let with_feeds = joined_by(others, seq![LF]);
        let with_both = joined_by(others, crlf());
        let one = joined_by(lines, seq![LF]);
        let other = joined_by(lines, crlf());
        lemma_first_line(line, with_feeds);
        assert(one =~= line.push(LF) + with_feeds);
        assert(one[line.len() as int] == LF);
        assert(line.push(LF).drop_last() =~= line);
        lemma_wire_line(line, with_both);
        assert(other =~= line + crlf() + with_both);
        assert(other[line.len() as int + 1] == LF);
    }
}

/// Line feeds and the line endings of the wire between the lines of a message are
/// sent alike, and the same arrives of either.
pub proof fn law_line_endings_are_sent_alike(lines: Seq<Seq<u8>>)
    requires
        are_lines(lines),
    ensures
        body_wire(joined_by(lines, seq![LF])) == body_wire(joined_by(lines, crlf())),
        delivered(joined_by(lines, seq![LF])) == delivered(joined_by(lines, crlf())),
{
    lemma_line_endings_are_sent_alike(lines);
    let one = joined_by(lines, seq![LF]);
    let other = joined_by(lines, crlf());
    let max_body = delivered(one).len() + delivered(other).len();
    law_message_arrives(one, Seq::empty(), max_body);
    law_message_arrives(other, Seq::empty(), max_body);
}

// ---------------------------------------------------------------------------
// Replies
// ---------------------------------------------------------------------------

/// Only a line feed is encoded with a line feed's byte.
proof fn lemma_scalar_without_feed(c: char)
    requires
        c != '\n',
    ensures
        !encode_scalar(c as u32).contains(LF),
{
    let v = c as u32;
    let bytes = encode_scalar(v);
    assert(v < 0x80 ==> (v & 0x7F) as u8 == v) by (bit_vector);
    assert(0x80u8 <= (0xC0u8 | ((v >> 6) & 0x1F) as u8)) by (bit_vector);
    assert(0x80u8 <= (0xE0u8 | ((v >> 12) & 0x0F) as u8)) by (bit_vector);
    assert(0x80u8 <= (0xF0u8 | ((v >> 18) & 0x07) as u8)) by (bit_vector);
    assert(0x80u8 <= (0x80u8 | (v & 0x3F) as u8)) by (bit_vector);
    assert(0x80u8 <= (0x80u8 | ((v >> 6) & 0x3F) as u8)) by (bit_vector);
    assert(0x80u8 <= (0x80u8 | ((v >> 12) & 0x3F) as u8)) by (bit_vector);
    assert forall|i: int| 0 <= i < bytes.len() implies bytes[i] != LF by {
    }
}

proof fn lemma_encoded_without_feed(text: Seq<char>)
    requires
        !text.contains('\n'),
    ensures
        !encode_utf8(text).contains(LF),
    decreases text.len(),
{
    if text.len() > 0 {
        let head = encode_scalar(text[0] as u32);
        let tail = text.drop_first();
        assert(text.contains(text[0]));
        lemma_scalar_without_feed(text[0]);
        assert(!tail.contains('\n')) by {
            assert forall|i: int| 0 <= i < tail.len() implies tail[i] != '\n' by {
                assert(text.contains(text[i + 1]));
            }
        }
        lemma_encoded_without_feed(tail);
        let bytes = encode_utf8(text);
        assert forall|i: int| 0 <= i < bytes.len() implies bytes[i] != LF by {
            if i < head.len() {
                assert(head.contains(head[i]));
            } else {
                assert(encode_utf8(tail).contains(encode_utf8(tail)[i - head.len()]));
            }
        }
    }
}

/// A line that is said is heard as that line, and nothing more is.
pub proof fn lemma_spoken(line: Seq<char>, rest: Seq<u8>)
    requires
        !line.contains('\n'),
    ensures
        first_line(spoken(line) + rest) == spoken(line),
        after_line(spoken(line) + rest) == rest,
        spoken(line).len() > 0,
        valid_utf8(spoken(line)),
        decode_utf8(without_eol(spoken(line))) == line,
{
    lemma_encoded_without_feed(line);
    lemma_wire_line(encode_utf8(line), rest);
    encode_utf8_valid_utf8(line);
    encode_utf8_decode_utf8(line);
    lemma_without_eol_utf8(spoken(line));
}

/// Several lines, one after the other, as they go over the wire.
pub open spec fn all_spoken(lines: Seq<Seq<char>>) -> Seq<u8>
    decreases lines.len(),
{
    if lines.len() == 0 {
        Seq::empty()
    } else {
        spoken(lines[0]) + all_spoken(lines.skip(1))
    }
}

/// The text of several lines, line feeds between them.
pub open spec fn joined(lines: Seq<Seq<char>>) -> Seq<char>
    decreases lines.len(),
{
    if lines.len() == 0 {
        Seq::empty()
    } else if lines.len() == 1 {
        lines[0]
    } else {
        lines[0] + "\n"@ + joined(lines.skip(1))
    }
}

/// Whether `lines` are the lines of one reply: each begins with a code, three digits
/// of which the first may be a plus sign, and the fourth column of each but the last,
/// and of no other, is a hyphen.
pub open spec fn is_reply(lines: Seq<Seq<char>>) -> bool {
    &&& lines.len() > 0
    &&& forall|i: int|
        0 <= i < lines.len() ==> {
            &&& !(#[trigger] lines[i]).contains('\n')
            &&& lines[i].len() >= 3
            &&& '0' <= lines[i][0] <= '9' || lines[i][0] == '+'
            &&& '0' <= lines[i][1] <= '9'
            &&& '0' <= lines[i][2] <= '9'
            &&& lines[i].len() > 3 && lines[i][3] == '-' <==> i < lines.len() - 1
        }
}

proof fn lemma_reply_after(heard: Seq<char>, lines: Seq<Seq<char>>, rest: Seq<u8>)
    requires
        is_reply(lines),
    ensures
        reply_from(all_spoken(lines) + rest, heard) == (
            Ok::<(u16, Seq<char>), Fault>((code_of(lines.last())->0, heard + joined(lines))),
            rest,
        ),
    decreases lines.len(),
{
    let line = lines[0];
    let others = lines.skip(1);
    let tail = all_spoken(others) + rest;
    assert(all_spoken(lines) + rest =~= spoken(line) + tail);
    lemma_spoken(line, tail);
    if lines.len() > 1 {
        assert forall|i: int| 0 <= i < others.len() implies {
            &&& !(#[trigger] others[i]).contains('\n')
            &&& others[i].len() >= 3
            &&& '0' <= others[i][0] <= '9' || others[i][0] == '+'
            &&& '0' <= others[i][1] <= '9'
            &&& '0' <= others[i][2] <= '9'
            &&& others[i].len() > 3 && others[i][3] == '-' <==> i < others.len() - 1
        } by {
            assert(others[i] == lines[i + 1]);
        }
        lemma_reply_after(heard + line + "\n"@, others, rest);
        assert(others.last() == lines.last());
        assert(heard + line + "\n"@ + joined(others) =~= heard + joined(lines));
    } else {
        assert(tail =~= rest);
        assert(lines.last() == line);
    }
}

/// A reply of however many lines, of which each begins with three digits, the first
/// perhaps a plus sign, and each but the last has a hyphen in its fourth column, is
/// read whole and no further: all its lines, line feeds between them. Its code is the
/// number that its last line begins with.
pub proof fn law_a_reply_is_read_whole(lines: Seq<Seq<char>>, rest: Seq<u8>)
    requires
        lines.len() > 0,
        forall|i: int|
            0 <= i < lines.len() ==> {
                &&& !(#[trigger] lines[i]).contains('\n')
                &&& lines[i].len() >= 3
                &&& '0' <= lines[i][0] <= '9' || lines[i][0] == '+'
                &&& '0' <= lines[i][1] <= '9'
                &&& '0' <= lines[i][2] <= '9'
                &&& lines[i].len() > 3 && lines[i][3] == '-' <==> i < lines.len() - 1
            },
    ensures
        ({
            let last = lines.last();
            let hundreds = if last[0] == '+' {
                0
            } else {
                last[0] as int - 48
            };
            let code = (100 * hundreds + 10 * (last[1] as int - 48) + (last[2] as int - 48)) as u16;
            &&& reply_from(all_spoken(lines) + rest, Seq::empty()) == (
                Ok::<(u16, Seq<char>), Fault>((code, joined(lines))),
                rest,
            )
            &&& code_of(last) == Some(code)
        }),
{
    assert(is_reply(lines));
    lemma_reply_after(Seq::empty(), lines, rest);
    assert(Seq::<char>::empty() + joined(lines) =~= joined(lines));
}

/// A reply with the code that is wanted lets a session go on. One with another
/// fails it, for now where the code is in the four hundreds and for good where it
/// is not.
pub proof fn law_how_a_reply_is_judged(
    lines: Seq<Seq<char>>,
    rest: Seq<u8>,
    wanted: u16,
    step: Seq<char>,
)
    requires
        is_reply(lines),
    ensures
        ({
            let code = code_of(lines.last())->0;
            let (verdict, left) = expected(all_spoken(lines) + rest, wanted, step);
            &&& left == rest
            &&& verdict is Ok <==> code == wanted
            &&& code != wanted ==> verdict == Err::<(), Fault>(
                Fault::Answered {
                    message: step + ": the server answered "@ + joined(lines),
                    retryable: 400 <= code < 500,
                },
            )
        }),
{
    law_a_reply_is_read_whole(lines, rest);
}

// ---------------------------------------------------------------------------
// Accepting
// ---------------------------------------------------------------------------

/// Inside DATA, a conversation reads a message as one is read on its own, accepts
/// it, and goes on with the message in hand, in the place of any before it.
pub proof fn law_data_is_read_as_a_message(
    held: Seq<u8>,
    incoming: Seq<u8>,
    input: Seq<u8>,
    max_body: nat,
)
    ensures
        ({
            let state = State { held, incoming: Some(incoming) };
            let (message, rest) = data_from(input, incoming, max_body);
            conversation(state, input, max_body) == match message {
                Err(fault) => (Err::<Seq<u8>, Fault>(fault), Seq::<u8>::empty(), rest),
                Ok(message) => {
                    let (kept, said, left) = conversation(
                        State { held: message, incoming: None },
                        rest,
                        max_body,
                    );
                    (kept, spoken("250 accepted"@) + said, left)
                },
            }
        }),
    decreases input.len(),
{
    lemma_line_len(input);
    let rest = after_line(input);
    if let Ok(DataStep::Partial { held: grown }) = data_step(
        incoming,
        first_line(input),
        max_body,
    ) {
        law_data_is_read_as_a_message(held, grown, rest, max_body);
        let said = conversation(State { held, incoming: Some(grown) }, rest, max_body).1;
        assert(Seq::<u8>::empty() + said =~= said);
    }
}

/// A command other than DATA and QUIT, whatever it says of sender or recipient, is
/// answered and leaves no trace: what is delivered in the end is what would have
/// been delivered without it. One that is not known is refused, a blank line is
/// passed over, and the session goes on after either.
pub proof fn law_other_commands_leave_no_trace(
    held: Seq<u8>,
    raw: Seq<u8>,
    verb: Seq<char>,
    rest: Seq<u8>,
    max_body: nat,
)
    requires
        first_line(raw + rest) == raw,
        verb_of(raw) == Ok::<Option<Seq<char>>, Fault>(Some(verb)),
        verb != "DATA"@,
        verb != "QUIT"@,
    ensures
        ({
            let state = State { held, incoming: None };
            let (message, said, left) = conversation(state, rest, max_body);
            conversation(state, raw + rest, max_body) == (
                message,
                spoken_if(answer_to(verb)) + said,
                left,
            )
        }),
{
    lemma_line_len(raw + rest);
    assert(after_line(raw + rest) =~= rest);
}

/// Whether two clients, each of which finds the conversation in `state`, say the
/// same but for what follows the verbs of their commands, up to where the
/// conversation ends: command by command the same verb, and inside DATA the same
/// lines.
pub open spec fn same_but_for_arguments(
    state: State,
    one: Seq<u8>,
    other: Seq<u8>,
    max_body: nat,
) -> bool
    decreases one.len(),
{
    &&& if state.incoming is Some {
        first_line(one) == first_line(other)
    } else {
        verb_of(first_line(one)) == verb_of(first_line(other))
    }
    &&& match turn(state, first_line(one), max_body).0 {
        Ok((next, Next::Continue)) => {
            proof {
                lemma_line_len(one);
            }
            same_but_for_arguments(next, after_line(one), after_line(other), max_body)
        },
        _ => true,
    }
}

proof fn lemma_arguments_change_nothing(
    state: State,
    one: Seq<u8>,
    other: Seq<u8>,
    max_body: nat,
)
    requires
        same_but_for_arguments(state, one, other, max_body),
    ensures
        conversation(state, one, max_body).0 == conversation(state, other, max_body).0,
        conversation(state, one, max_body).1 == conversation(state, other, max_body).1,
    decreases one.len(),
{
    lemma_line_len(one);
    lemma_line_len(other);
    if let Ok((next, Next::Continue)) = turn(state, first_line(one), max_body).0 {
        lemma_arguments_change_nothing(next, after_line(one), after_line(other), max_body);
    }
}

/// What follows the verb of a command changes nothing: two sessions with the same
/// verbs and the same message data, whatever they say of who is sending and to
/// whom, are answered alike and deliver the same, or fail alike.
pub proof fn law_arguments_change_nothing(
    peer: Seq<char>,
    one: Seq<u8>,
    other: Seq<u8>,
    max_body: nat,
)
    requires
        same_but_for_arguments(opened(), one, other, max_body),
    ensures
        accepted(peer, one, max_body).0 == accepted(peer, other, max_body).0,
        accepted(peer, one, max_body).1 == accepted(peer, other, max_body).1,
{
    lemma_arguments_change_nothing(opened(), one, other, max_body);
}

/// A client that hangs up has delivered what was accepted from it, whether it says
/// QUIT first or not.
pub proof fn law_hanging_up_still_delivers(held: Seq<u8>, rest: Seq<u8>, max_body: nat)
    ensures
        ({
            let state = State { held, incoming: None };
            &&& conversation(state, Seq::empty(), max_body) == (
                Ok::<Seq<u8>, Fault>(held),
                Seq::<u8>::empty(),
                Seq::<u8>::empty(),
            )
            &&& conversation(state, spoken("QUIT"@) + rest, max_body) == (
                Ok::<Seq<u8>, Fault>(held),
                spoken("221 closing"@),
                rest,
            )
        }),
{
    lemma_verbs();
    let nothing = Seq::<u8>::empty();
    assert(first_line(nothing) =~= nothing);
    assert(after_line(nothing) =~= nothing);
    lemma_bare_verb("QUIT"@, rest);
}

/// A client that hangs up inside DATA has delivered nothing.
pub proof fn law_hanging_up_inside_data_fails(held: Seq<u8>, incoming: Seq<u8>, max_body: nat)
    ensures
        conversation(State { held, incoming: Some(incoming) }, Seq::empty(), max_body).0 == Err::<
            Seq<u8>,
            Fault,
        >(Fault::Protocol { what: "a connection that closed inside DATA"@ }),
{
    assert(first_line(Seq::<u8>::empty()) =~= Seq::empty());
}

/// Whether a line begins with a verb of four capital letters, then a space or the
/// end of the line.
spec fn begins_with(line: Seq<char>, verb: Seq<char>) -> bool {
    &&& verb.len() == 4
    &&& forall|i: int| 0 <= i < 4 ==> 'A' <= #[trigger] verb[i] <= 'Z'
    &&& verb.is_prefix_of(line)
    &&& line.len() > 4 ==> line[4] == ' '
}

/// A line that begins with a verb has that verb.
proof fn lemma_begins_with(line: Seq<char>, verb: Seq<char>)
    requires
        begins_with(line, verb),
    ensures
        upper(first_word(line)) == verb,
{
    assert(verb =~= line.take(4));
    assert forall|i: int| 0 <= i < 4 implies !is_white_space(#[trigger] line[i]) by {
        assert(line[i] == verb[i]);
    }
    lemma_first_word(line, 0, 4);
    assert(upper(verb) =~= verb);
    assert(line.subrange(0, 4) =~= verb);
}

/// A verb on its own is a command.
proof fn lemma_bare_verb(verb: Seq<char>, rest: Seq<u8>)
    requires
        verb.len() == 4,
        forall|i: int| 0 <= i < 4 ==> 'A' <= #[trigger] verb[i] <= 'Z',
    ensures
        first_line(spoken(verb) + rest) == spoken(verb),
        after_line(spoken(verb) + rest) == rest,
        verb_of(spoken(verb)) == Ok::<Option<Seq<char>>, Fault>(Some(verb)),
{
    assert(verb.take(4) =~= verb);
    assert(!verb.contains('\n'));
    lemma_begins_with(verb, verb);
    lemma_spoken(verb, rest);
}

proof fn lemma_upper_first_word(text: Seq<char>)
    ensures
        upper(first_word(text)) == first_word(upper(text)),
        upper(leading_word(text)) == leading_word(upper(text)),
    decreases text.len(),
{
    if text.len() > 0 {
        let tail = text.skip(1);
        lemma_upper_first_word(tail);
        assert(upper(text)[0] == upper_char(text[0]));
        assert(upper(text).skip(1) =~= upper(tail));
        assert(upper(seq![text[0]] + leading_word(tail)) =~= seq![upper_char(text[0])] + upper(
            leading_word(tail),
        ));
    } else {
        assert(upper(text) =~= text);
    }
}

/// A command is the same whatever the case it is written in.
pub proof fn law_commands_ignore_case(one: Seq<char>, other: Seq<char>)
    requires
        upper(one) == upper(other),
    ensures
        verb_of(spoken(one)) == verb_of(spoken(other)),
{
    lemma_upper_first_word(one);
    lemma_upper_first_word(other);
    lemma_spoken_verb(one);
    lemma_spoken_verb(other);
}

pub proof fn lemma_spoken_verb(line: Seq<char>)
    ensures
        verb_of(spoken(line)) == Ok::<Option<Seq<char>>, Fault>(Some(upper(first_word(line)))),
{
    let bytes = encode_utf8(line);
    encode_utf8_valid_utf8(line);
    encode_utf8_decode_utf8(line);
    assert(spoken(line).drop_last() =~= bytes.push(CR));
    assert(bytes.push(CR).drop_last() =~= bytes);
    lemma_without_eol_utf8(spoken(line));
}

/// No message that is accepted exceeds the size limit.
pub proof fn law_no_message_exceeds_the_limit(state: State, input: Seq<u8>, max_body: nat)
    requires
        state.held.len() <= max_body,
        state.incoming matches Some(incoming) ==> incoming.len() <= max_body,
    ensures
        conversation(state, input, max_body).0 matches Ok(message) ==> message.len() <= max_body,
    decreases input.len(),
{
    lemma_line_len(input);
    let rest = after_line(input);
    if let Ok((next, Next::Continue)) = turn(state, first_line(input), max_body).0 {
        if input.len() > 0 {
            law_no_message_exceeds_the_limit(next, rest, max_body);
        }
    }
}

// ---------------------------------------------------------------------------
// Relaying
// ---------------------------------------------------------------------------

/// `mailto:` before a mailbox changes nothing: the same mailbox is named, or none.
pub proof fn law_mailto_is_optional(mailbox: Seq<char>)
    requires
        !"mailto:"@.is_prefix_of(mailbox),
    ensures
        addressee("mailto:"@ + mailbox) == mailbox,
        addressee(mailbox) == mailbox,
        mailbox_of("mailto:"@ + mailbox) is Ok <==> mailbox_of(mailbox) is Ok,
{
    let target = "mailto:"@ + mailbox;
    assert(target.take("mailto:"@.len() as int) =~= "mailto:"@);
    assert(target.skip("mailto:"@.len() as int) =~= mailbox);
}

/// A target that is not a mailbox is refused before anything is said or heard.
pub proof fn law_no_mailbox_no_session(
    from: Seq<char>,
    target: Seq<char>,
    message: Seq<u8>,
    input: Seq<u8>,
)
    requires
        !addressee(target).contains('@'),
    ensures
        relayed(from, target, message, input) == (
            Err::<(), Fault>(
                Fault::Protocol { what: "an smtp target must be a mailbox — got "@ + target },
            ),
            Seq::<u8>::empty(),
            input,
        ),
{
}

/// A step that is answered with another code than the one wanted ends a delivery
/// there: nothing more is said, and the answer decides whether to try again.
pub proof fn law_a_refused_step_ends_the_delivery(
    steps: Seq<Step>,
    lines: Seq<Seq<char>>,
    rest: Seq<u8>,
)
    requires
        steps.len() > 0,
        is_reply(lines),
        code_of(lines.last())->0 != steps[0].wanted,
    ensures
        played(steps, all_spoken(lines) + rest) == (
            Err::<(), Fault>(
                Fault::Answered {
                    message: steps[0].step + ": the server answered "@ + joined(lines),
                    retryable: 400 <= code_of(lines.last())->0 < 500,
                },
            ),
            steps[0].say,
            rest,
        ),
{
    law_how_a_reply_is_judged(lines, rest, steps[0].wanted, steps[0].step);
}

/// Once the message is acknowledged it is delivered, whatever the server makes of
/// the goodbye: the verdict is that of the steps alone.
pub proof fn law_a_failed_goodbye_is_no_failure(
    from: Seq<char>,
    target: Seq<char>,
    mailbox: Seq<char>,
    message: Seq<u8>,
    input: Seq<u8>,
)
    requires
        mailbox_of(target) == Ok::<Seq<char>, Fault>(mailbox),
    ensures
        relayed(from, target, message, input).0 == played(
            delivery_steps(from, mailbox, message),
            input,
        ).0,
{
    let verdict = played(delivery_steps(from, mailbox, message), input).0;
    if let Ok(nothing) = verdict {
        assert(nothing == ());
    }
}

/// Nor does anything fail a delivery, line by line, once only the goodbye is waited
/// for.
pub proof fn law_delivered_stays_delivered(progress: Progress, raw: Seq<u8>)
    requires
        progress.left.len() == 0,
    ensures
        progressed(progress, raw).0 is Ok,
        progressed(progress, raw).1.left == progress.left,
        progressed(progress, raw).2 == Seq::<u8>::empty(),
{
}

/// A delivery that hears the server line by line comes to the same as one that has
/// all that the server says: the same verdict, the same words, the same left unread.
pub proof fn law_line_by_line_is_all_the_same(
    from: Seq<char>,
    target: Seq<char>,
    mailbox: Seq<char>,
    message: Seq<u8>,
    input: Seq<u8>,
)
    requires
        mailbox_of(target) == Ok::<Seq<char>, Fault>(mailbox),
    ensures
        ({
            let steps = delivery_steps(from, mailbox, message);
            let (verdict, said, rest) = carried(
                Progress { left: steps, heard: Seq::empty() },
                input,
            );
            relayed(from, target, message, input) == (verdict, opening(steps) + said, rest)
        }),
{
    let steps = delivery_steps(from, mailbox, message);
    lemma_carried_is_played(steps, input);
    if let Ok(nothing) = played(steps, input).0 {
        assert(nothing == ());
    }
}

/// A step that is answered as it should be hands over to the next.
pub proof fn lemma_step_taken(steps: Seq<Step>, lines: Seq<Seq<char>>, rest: Seq<u8>)
    requires
        steps.len() > 0,
        is_reply(lines),
        code_of(lines.last()) == Some(steps[0].wanted),
    ensures
        ({
            let (verdict, said, left) = played(steps.skip(1), rest);
            played(steps, all_spoken(lines) + rest) == (verdict, steps[0].say + said, left)
        }),
{
    law_how_a_reply_is_judged(lines, rest, steps[0].wanted, steps[0].step);
}

proof fn lemma_encoded_sum(one: Seq<char>, other: Seq<char>)
    ensures
        encode_utf8(one + other) == encode_utf8(one) + encode_utf8(other),
    decreases one.len(),
{
    if one.len() == 0 {
        assert(one + other =~= other);
        assert(encode_utf8(one) + encode_utf8(other) =~= encode_utf8(other));
    } else {
        lemma_encoded_sum(one.drop_first(), other);
        assert((one + other).drop_first() =~= one.drop_first() + other);
        assert(encode_utf8(one + other) =~= encode_utf8(one) + encode_utf8(other));
    }
}

/// One line on the wire.
proof fn lemma_one_line(lines: Seq<Seq<char>>)
    requires
        lines.len() == 1,
    ensures
        all_spoken(lines) == spoken(lines[0]),
        lines.last() == lines[0],
{
    reveal_with_fuel(all_spoken, 2);
    assert(lines.skip(1) =~= Seq::empty());
    assert(spoken(lines[0]) + Seq::<u8>::empty() =~= spoken(lines[0]));
}

/// One line is one reply.
proof fn lemma_one_line_reply(line: Seq<char>)
    requires
        !line.contains('\n'),
        code_of(line) is Some,
        !is_continued(line),
    ensures
        is_reply(seq![line]),
{
}

/// What this server says, in a session in which everything goes well.
pub open spec fn server_words() -> Seq<u8> {
    spoken("220 xmip ESMTP"@) + (spoken("250-xmip\r\n250 8BITMIME"@) + (spoken("250 ok"@) + (spoken(
        "250 ok"@,
    ) + (spoken("354 end with a line containing only a period"@) + (spoken("250 accepted"@)
        + spoken("221 closing"@))))))
}

/// What this client says, in a session in which everything goes well.
pub open spec fn client_words(from: Seq<char>, mailbox: Seq<char>, message: Seq<u8>) -> Seq<u8> {
    spoken("EHLO xmip"@) + (spoken("MAIL FROM:<"@ + from + ">"@) + (spoken(
        "RCPT TO:<"@ + mailbox + ">"@,
    ) + (spoken("DATA"@) + (body_wire(message) + spoken("."@) + spoken("QUIT"@)))))
}

/// What the server's lines are as replies.
proof fn lemma_server_lines()
    ensures
        is_reply(seq!["220 xmip ESMTP"@]),
        code_of("220 xmip ESMTP"@) == Some(220u16),
        is_reply(seq!["250-xmip"@, "250 8BITMIME"@]),
        all_spoken(seq!["250-xmip"@, "250 8BITMIME"@]) == spoken("250-xmip\r\n250 8BITMIME"@),
        code_of("250 8BITMIME"@) == Some(250u16),
        is_reply(seq!["250 ok"@]),
        code_of("250 ok"@) == Some(250u16),
        is_reply(seq!["354 end with a line containing only a period"@]),
        code_of("354 end with a line containing only a period"@) == Some(354u16),
        is_reply(seq!["250 accepted"@]),
        code_of("250 accepted"@) == Some(250u16),
        is_reply(seq!["221 closing"@]),
        code_of("221 closing"@) == Some(221u16),
{
    reveal_strlit("220 xmip ESMTP");
    reveal_strlit("250-xmip");
    reveal_strlit("250 8BITMIME");
    reveal_strlit("250-xmip\r\n250 8BITMIME");
    reveal_strlit("250 ok");
    reveal_strlit("354 end with a line containing only a period");
    reveal_strlit("250 accepted");
    reveal_strlit("221 closing");
    lemma_one_line_reply("220 xmip ESMTP"@);
    lemma_one_line_reply("250 ok"@);
    lemma_one_line_reply("354 end with a line containing only a period"@);
    lemma_one_line_reply("250 accepted"@);
    lemma_one_line_reply("221 closing"@);
    let first = "250-xmip"@;
    let second = "250 8BITMIME"@;
    let between: Seq<char> = seq!['\r', '\n'];
    assert("250-xmip\r\n250 8BITMIME"@ =~= first + between + second);
    lemma_encoded_sum(first + between, second);
    lemma_encoded_sum(first, between);
    is_ascii_chars_encode_utf8(between);
    assert(encode_utf8(between) =~= crlf()) by {
        assert(between[0] as u8 == encode_utf8(between)[0]);
        assert(between[1] as u8 == encode_utf8(between)[1]);
    }
    lemma_one_line(seq![second]);
    let both = seq![first, second];
    assert(both.skip(1) =~= seq![second]);
    assert(all_spoken(both) =~= spoken("250-xmip\r\n250 8BITMIME"@));
    assert(!first.contains('\n'));
    assert(!second.contains('\n'));
}

/// A command that holds an address is one line, and begins with its verb.
proof fn lemma_address_line(before: Seq<char>, verb: Seq<char>, address: Seq<char>)
    requires
        begins_with(before, verb),
        before.len() > 4,
        !before.contains('\n'),
        !address.contains('\n'),
    ensures
        !(before + address + ">"@).contains('\n'),
        upper(first_word(before + address + ">"@)) == verb,
{
    reveal_strlit(">");
    let line = before + address + ">"@;
    assert(!line.contains('\n')) by {
        assert forall|i: int| 0 <= i < line.len() implies line[i] != '\n' by {
            if i < before.len() {
                assert(before.contains(before[i]));
            } else if i < before.len() + address.len() {
                assert(address.contains(address[i - before.len()]));
            }
        }
    }
    assert(line.take(4) =~= before.take(4));
    lemma_begins_with(line, verb);
}

/// The lines that the client says before DATA.
proof fn lemma_client_lines()
    ensures
        begins_with("EHLO xmip"@, "EHLO"@),
        !"EHLO xmip"@.contains('\n'),
        begins_with("MAIL FROM:<"@, "MAIL"@),
        "MAIL FROM:<"@.len() > 4,
        !"MAIL FROM:<"@.contains('\n'),
        begins_with("RCPT TO:<"@, "RCPT"@),
        "RCPT TO:<"@.len() > 4,
        !"RCPT TO:<"@.contains('\n'),
{
    lemma_verbs();
    reveal_strlit("EHLO xmip");
    reveal_strlit("MAIL FROM:<");
    reveal_strlit("RCPT TO:<");
    assert("EHLO xmip"@.take(4) =~= "EHLO"@);
    assert("MAIL FROM:<"@.take(4) =~= "MAIL"@);
    assert("RCPT TO:<"@.take(4) =~= "RCPT"@);
}

/// What the server makes of a message and of the goodbye after it.
proof fn lemma_server_takes_message(message: Seq<u8>, max_body: nat)
    requires
        delivered(message).len() <= max_body,
    ensures
        conversation(
            opened(),
            spoken("DATA"@) + (body_wire(message) + spoken("."@) + spoken("QUIT"@)),
            max_body,
        ) == (
            Ok::<Seq<u8>, Fault>(delivered(message)),
            spoken("354 end with a line containing only a period"@) + (spoken("250 accepted"@)
                + spoken("221 closing"@)),
            Seq::<u8>::empty(),
        ),
{
    let data = body_wire(message) + spoken("."@) + spoken("QUIT"@);
    lemma_verbs();
    lemma_bare_verb("DATA"@, data);
    law_message_arrives(message, spoken("QUIT"@), max_body);
    law_data_is_read_as_a_message(Seq::empty(), Seq::empty(), data, max_body);
    law_hanging_up_still_delivers(delivered(message), Seq::empty(), max_body);
    assert(spoken("QUIT"@) + Seq::<u8>::empty() =~= spoken("QUIT"@));
}

/// The server's side of a session in which everything goes well.
proof fn lemma_server_side(
    from: Seq<char>,
    mailbox: Seq<char>,
    message: Seq<u8>,
    peer: Seq<char>,
    max_body: nat,
)
    requires
        !from.contains('\n'),
        !mailbox.contains('\n'),
        delivered(message).len() <= max_body,
    ensures
        accepted(peer, client_words(from, mailbox, message), max_body) == (
            Ok::<Delivery, Fault>(
                Delivery { origin_uri: "smtp://"@ + peer, bytes: delivered(message) },
            ),
            server_words(),
            Seq::<u8>::empty(),
        ),
{
    let data = spoken("DATA"@) + (body_wire(message) + spoken("."@) + spoken("QUIT"@));
    let rcpt = "RCPT TO:<"@ + mailbox + ">"@;
    let mail = "MAIL FROM:<"@ + from + ">"@;
    let ehlo = "EHLO xmip"@;
    lemma_verbs();
    lemma_client_lines();
    lemma_server_takes_message(message, max_body);
    lemma_address_line("RCPT TO:<"@, "RCPT"@, mailbox);
    lemma_spoken(rcpt, data);
    lemma_spoken_verb(rcpt);
    law_other_commands_leave_no_trace(Seq::empty(), spoken(rcpt), "RCPT"@, data, max_body);
    let after_mail = spoken(rcpt) + data;
    lemma_address_line("MAIL FROM:<"@, "MAIL"@, from);
    lemma_spoken(mail, after_mail);
    lemma_spoken_verb(mail);
    law_other_commands_leave_no_trace(Seq::empty(), spoken(mail), "MAIL"@, after_mail, max_body);
    let after_ehlo = spoken(mail) + after_mail;
    lemma_begins_with(ehlo, "EHLO"@);
    lemma_spoken(ehlo, after_ehlo);
    lemma_spoken_verb(ehlo);
    law_other_commands_leave_no_trace(Seq::empty(), spoken(ehlo), "EHLO"@, after_ehlo, max_body);
}

/// The client's side of a session in which everything goes well.
#[verifier::spinoff_prover]
#[verifier::rlimit(60)]
proof fn lemma_client_side(
    from: Seq<char>,
    target: Seq<char>,
    mailbox: Seq<char>,
    message: Seq<u8>,
)
    requires
        mailbox_of(target) == Ok::<Seq<char>, Fault>(mailbox),
    ensures
        relayed(from, target, message, server_words()) == (
            Ok::<(), Fault>(()),
            client_words(from, mailbox, message),
            Seq::<u8>::empty(),
        ),
{
    lemma_server_lines();
    let nothing = Seq::<u8>::empty();
    let steps = delivery_steps(from, mailbox, message);
    let w6 = spoken("221 closing"@);
    let w5 = spoken("250 accepted"@) + w6;
    let w4 = spoken("354 end with a line containing only a period"@) + w5;
    let w3 = spoken("250 ok"@) + w4;
    let w2 = spoken("250 ok"@) + w3;
    let w1 = spoken("250-xmip\r\n250 8BITMIME"@) + w2;
    lemma_one_line(seq!["220 xmip ESMTP"@]);
    lemma_one_line(seq!["250 ok"@]);
    lemma_one_line(seq!["354 end with a line containing only a period"@]);
    lemma_one_line(seq!["250 accepted"@]);
    lemma_one_line(seq!["221 closing"@]);
    let s1 = steps.skip(1);
    let s2 = s1.skip(1);
    let s3 = s2.skip(1);
    let s4 = s3.skip(1);
    let s5 = s4.skip(1);
    let s6 = s5.skip(1);
    assert(s6.len() == 0);
    assert(played(s6, w6) == (Ok::<(), Fault>(()), nothing, w6));
    assert(s5[0] == delivery_step(message));
    lemma_step_taken(s5, seq!["250 accepted"@], w6);
    lemma_step_taken(s4, seq!["354 end with a line containing only a period"@], w5);
    lemma_step_taken(s3, seq!["250 ok"@], w4);
    lemma_step_taken(s2, seq!["250 ok"@], w3);
    lemma_step_taken(s1, seq!["250-xmip"@, "250 8BITMIME"@], w2);
    lemma_step_taken(steps, seq!["220 xmip ESMTP"@], w1);
    assert(w6 + nothing =~= w6);
    law_a_reply_is_read_whole(seq!["221 closing"@], nothing);
    assert(relayed(from, target, message, server_words()).1 =~= client_words(
        from,
        mailbox,
        message,
    ));
}

/// The two ends understand each other. Where each hears what the other says, the
/// client finds its message delivered, and the server has taken it as
/// [`delivered`] says; neither leaves anything unheard. Neither address may hold a
/// line feed, and the message has to fit the server's size limit.
pub proof fn law_the_two_ends_meet(
    from: Seq<char>,
    target: Seq<char>,
    mailbox: Seq<char>,
    message: Seq<u8>,
    peer: Seq<char>,
    max_body: nat,
)
    requires
        mailbox_of(target) == Ok::<Seq<char>, Fault>(mailbox),
        !from.contains('\n'),
        !mailbox.contains('\n'),
        delivered(message).len() <= max_body,
    ensures
        relayed(from, target, message, server_words()) == (
            Ok::<(), Fault>(()),
            client_words(from, mailbox, message),
            Seq::<u8>::empty(),
        ),
        accepted(peer, client_words(from, mailbox, message), max_body) == (
            Ok::<Delivery, Fault>(
                Delivery { origin_uri: "smtp://"@ + peer, bytes: delivered(message) },
            ),
            server_words(),
            Seq::<u8>::empty(),
        ),
{
    lemma_client_side(from, target, mailbox, message);
    lemma_server_side(from, mailbox, message, peer, max_body);
}

} // verus!
