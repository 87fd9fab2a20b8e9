//! What each part of a session does, in bytes and characters.

use vstd::prelude::*;
use vstd::utf8::{
    decode_utf8, encode_utf8, encode_utf8_decode_utf8, encode_utf8_valid_utf8,
    is_ascii_chars_encode_utf8, valid_utf8,
};

use crate::client::{
    addressee, body_wire, delivery_steps, envelope_steps, mailbox_of, opening, played, progressed,
    relayed, Exchange, Progress, Step,
};
use crate::error::{outcome, Fault, TransportError};
use crate::laws::{
    all_spoken, delivered, is_reply, joined, joined_by, law_a_reply_is_read_whole,
    law_data_is_read_as_a_message, law_message_arrives, lemma_message_line, lemma_spoken,
    lemma_spoken_verb, lemma_step_taken, lemma_wire_line,
};
use crate::server::{
    accepted, conversation, lemma_verbs, opened, turn, verb_of, Arrived, Delivery, State,
};
use crate::session::{
    code_of, data_from, data_step, expected, is_continued, judged, reply_from, reply_step, spoken,
    stuffed, unstuffed, DataStep, Next, ReplyStep,
};
use crate::text::{is_white_space, lemma_first_word, upper, upper_char};
use crate::wire::{
    after_line, crlf, first_line, lemma_first_line, lemma_line_len, lemma_without_eol_utf8,
    without_eol, LF,
};

verus! {

// ---------------------------------------------------------------------------
// Lines
// ---------------------------------------------------------------------------

/// A line ends with its first line feed, and where there is none, at the end.
pub proof fn law_a_line_ends_with_its_line_feed(line: Seq<u8>, rest: Seq<u8>)
    requires
        !line.contains(10u8),
    ensures
        first_line(line + seq![10u8] + rest) == line + seq![10u8],
        after_line(line + seq![10u8] + rest) == rest,
        first_line(line) == line,
        after_line(line) == Seq::<u8>::empty(),
{
    lemma_first_line(line, rest);
    assert(line.push(LF) =~= line + seq![10u8]);
    lemma_message_line(line);
    assert(after_line(line) =~= Seq::<u8>::empty());
}

/// One line ending is taken off a line: a carriage return and a line feed, or either
/// of them on its own. Nothing else is.
pub proof fn law_one_line_ending_is_taken_off(line: Seq<u8>)
    ensures
        without_eol(line + seq![13u8, 10u8]) == line,
        without_eol(line + seq![13u8]) == line,
        line.len() == 0 || line.last() != 13u8 ==> without_eol(line + seq![10u8]) == line,
        line.len() == 0 || (line.last() != 13u8 && line.last() != 10u8) ==> without_eol(line)
            == line,
{
    assert((line + seq![13u8, 10u8]).drop_last() =~= line + seq![13u8]);
    assert((line + seq![13u8]).drop_last() =~= line);
    assert((line + seq![10u8]).drop_last() =~= line);
}

/// What is said goes over the wire in UTF-8, a carriage return and a line feed after
/// it.
pub proof fn law_what_is_said(line: Seq<char>)
    ensures
        spoken(line) == encode_utf8(line) + seq![13u8, 10u8],
{
}

/// It makes no difference to what is heard whether a line ends in a carriage return
/// and a line feed, in either of them on its own or, where something stands on it,
/// in neither: not for a reply, not for a command, not for message data.
pub proof fn law_line_endings_are_heard_alike(
    line: Seq<u8>,
    text: Seq<char>,
    held: Seq<u8>,
    max_body: nat,
)
    ensures
        ({
            let raw = line + seq![13u8];
            let full = line + seq![13u8, 10u8];
            &&& reply_step(text, raw) == reply_step(text, full)
            &&& verb_of(raw) == verb_of(full)
            &&& data_step(held, raw, max_body) == data_step(held, full, max_body)
        }),
        line.len() == 0 || line.last() != 13u8 ==> {
            let raw = line + seq![10u8];
            let full = line + seq![13u8, 10u8];
            &&& reply_step(text, raw) == reply_step(text, full)
            &&& verb_of(raw) == verb_of(full)
            &&& data_step(held, raw, max_body) == data_step(held, full, max_body)
        },
        line.len() > 0 && line.last() != 13u8 && line.last() != 10u8 ==> {
            let full = line + seq![13u8, 10u8];
            &&& reply_step(text, line) == reply_step(text, full)
            &&& verb_of(line) == verb_of(full)
            &&& data_step(held, line, max_body) == data_step(held, full, max_body)
        },
{
    law_one_line_ending_is_taken_off(line);
    lemma_without_eol_utf8(line);
    lemma_without_eol_utf8(line + seq![13u8]);
    lemma_without_eol_utf8(line + seq![10u8]);
    lemma_without_eol_utf8(line + seq![13u8, 10u8]);
}

// ---------------------------------------------------------------------------
// Replies
// ---------------------------------------------------------------------------

/// A line that begins with three digits has the number that they write as its code.
pub proof fn law_three_digits_are_a_code(
    line: Seq<char>,
    hundreds: int,
    tens: int,
    ones: int,
)
    requires
        line.len() >= 3,
        0 <= hundreds <= 9,
        0 <= tens <= 9,
        0 <= ones <= 9,
        line[0] as int == 48 + hundreds,
        line[1] as int == 48 + tens,
        line[2] as int == 48 + ones,
    ensures
        code_of(line) == Some((100 * hundreds + 10 * tens + ones) as u16),
{
}

/// A plus sign and two digits are a code too, the number that the two digits write.
pub proof fn law_a_plus_sign_is_no_hundred(line: Seq<char>, tens: int, ones: int)
    requires
        line.len() >= 3,
        0 <= tens <= 9,
        0 <= ones <= 9,
        line[0] == '+',
        line[1] as int == 48 + tens,
        line[2] as int == 48 + ones,
    ensures
        code_of(line) == Some((10 * tens + ones) as u16),
{
}

/// No other line has a code.
pub proof fn law_no_other_line_has_a_code(line: Seq<char>)
    requires
        line.len() < 3 || !('0' <= line[0] <= '9' || line[0] == '+') || !('0' <= line[1] <= '9')
            || !('0' <= line[2] <= '9'),
    ensures
        code_of(line) is None,
{
}

/// A reply goes on after a line exactly where the fourth column of the line is a
/// hyphen, whatever its code.
pub proof fn law_the_fourth_column_ends_a_reply(line: Seq<char>)
    ensures
        line.len() >= 4 ==> (is_continued(line) <==> line[3] == '-'),
        line.len() < 4 ==> !is_continued(line),
{
}

/// A line with a code makes a reply go on where its fourth column is a hyphen, and
/// completes it where it is not. What was heard is kept, and a line feed stands
/// before what comes next.
pub proof fn law_what_a_line_makes_of_a_reply(
    heard: Seq<char>,
    line: Seq<char>,
    hundreds: int,
    tens: int,
    ones: int,
)
    requires
        line.len() >= 3,
        0 <= hundreds <= 9,
        0 <= tens <= 9,
        0 <= ones <= 9,
        line[0] as int == 48 + hundreds || (line[0] == '+' && hundreds == 0),
        line[1] as int == 48 + tens,
        line[2] as int == 48 + ones,
    ensures
        ({
            let step = reply_step(heard, encode_utf8(line) + seq![13u8, 10u8]);
            if line.len() > 3 && line[3] == '-' {
                step == Ok::<ReplyStep, Fault>(ReplyStep::Partial { text: heard + line + seq!['\n'] })
            } else {
                step == Ok::<ReplyStep, Fault>(
                    ReplyStep::Whole {
                        code: (100 * hundreds + 10 * tens + ones) as u16,
                        text: heard + line,
                    },
                )
            }
        }),
{
    reveal_strlit("\n");
    assert("\n"@ =~= seq!['\n']);
    lemma_heard(line);
}

/// A line that is said is text, and is heard as it was said.
proof fn lemma_heard(line: Seq<char>)
    ensures
        valid_utf8(encode_utf8(line) + seq![13u8, 10u8]),
        decode_utf8(without_eol(encode_utf8(line) + seq![13u8, 10u8])) == line,
{
    law_one_line_ending_is_taken_off(encode_utf8(line));
    lemma_without_eol_utf8(encode_utf8(line) + seq![13u8, 10u8]);
    encode_utf8_valid_utf8(line);
    encode_utf8_decode_utf8(line);
}

/// Lines that make a reply go on are passed over to what follows them.
proof fn lemma_past_continued(lines: Seq<Seq<char>>, tail: Seq<u8>, heard: Seq<char>) -> (text: Seq<
    char,
>)
    requires
        forall|i: int|
            0 <= i < lines.len() ==> {
                &&& !(#[trigger] lines[i]).contains('\n')
                &&& lines[i].len() >= 4
                &&& '0' <= lines[i][0] <= '9' || lines[i][0] == '+'
                &&& '0' <= lines[i][1] <= '9'
                &&& '0' <= lines[i][2] <= '9'
                &&& lines[i][3] == '-'
            },
    ensures
        reply_from(all_spoken(lines) + tail, heard) == reply_from(tail, text),
    decreases lines.len(),
{
    if lines.len() == 0 {
        assert(all_spoken(lines) + tail =~= tail);
        heard
    } else {
        let line = lines[0];
        let others = lines.skip(1);
        let more = all_spoken(others) + tail;
        assert(all_spoken(lines) + tail =~= spoken(line) + more);
        lemma_spoken(line, more);
        assert forall|i: int| 0 <= i < others.len() implies {
            &&& !(#[trigger] others[i]).contains('\n')
            &&& others[i].len() >= 4
            &&& '0' <= others[i][0] <= '9' || others[i][0] == '+'
            &&& '0' <= others[i][1] <= '9'
            &&& '0' <= others[i][2] <= '9'
            &&& others[i][3] == '-'
        } by {
            assert(others[i] == lines[i + 1]);
        }
        lemma_past_continued(others, tail, heard + line + "\n"@)
    }
}

/// However many lines made a reply go on, it fails where the connection closes, where
/// a line has no code, and where a line is not text. What follows that line is left.
pub proof fn law_how_a_reply_fails(
    lines: Seq<Seq<char>>,
    uncoded: Seq<char>,
    raw: Seq<u8>,
    rest: Seq<u8>,
)
    requires
        forall|i: int|
            0 <= i < lines.len() ==> {
                &&& !(#[trigger] lines[i]).contains('\n')
                &&& lines[i].len() >= 4
                &&& '0' <= lines[i][0] <= '9' || lines[i][0] == '+'
                &&& '0' <= lines[i][1] <= '9'
                &&& '0' <= lines[i][2] <= '9'
                &&& lines[i][3] == '-'
            },
        !uncoded.contains('\n'),
        uncoded.len() < 3 || !('0' <= uncoded[0] <= '9' || uncoded[0] == '+') || !('0'
            <= uncoded[1] <= '9') || !('0' <= uncoded[2] <= '9'),
        !raw.contains(10u8),
        !valid_utf8(raw + seq![10u8]),
    ensures
        reply_from(all_spoken(lines), Seq::empty()) == (
            Err::<(u16, Seq<char>), Fault>(
                Fault::Protocol { what: "a connection that closed mid-reply"@ },
            ),
            Seq::<u8>::empty(),
        ),
        reply_from(
            all_spoken(lines) + (encode_utf8(uncoded) + seq![13u8, 10u8] + rest),
            Seq::empty(),
        ) == (
            Err::<(u16, Seq<char>), Fault>(
                Fault::Protocol { what: "a reply with no code: "@ + uncoded },
            ),
            rest,
        ),
        reply_from(all_spoken(lines) + (raw + seq![10u8] + rest), Seq::empty()) == (
            Err::<(u16, Seq<char>), Fault>(Fault::NotText { step: "reading a reply"@ }),
            rest,
        ),
{
    let nothing = Seq::<u8>::empty();
    lemma_past_continued(lines, nothing, Seq::empty());
    assert(all_spoken(lines) + nothing =~= all_spoken(lines));
    assert(first_line(nothing) =~= nothing);
    assert(after_line(nothing) =~= nothing);
    lemma_past_continued(lines, encode_utf8(uncoded) + seq![13u8, 10u8] + rest, Seq::empty());
    lemma_spoken(uncoded, rest);
    lemma_past_continued(lines, raw + seq![10u8] + rest, Seq::empty());
    law_a_line_ends_with_its_line_feed(raw, rest);
}

/// Only the code that is wanted lets a session go on. Any other fails the step, for now
/// where it is in the four hundreds, and the failure says what was answered.
pub proof fn law_how_a_code_is_judged(code: u16, text: Seq<char>, wanted: u16, step: Seq<char>)
    ensures
        judged(wanted, text, wanted, step) == Ok::<(), Fault>(()),
        code != wanted ==> judged(code, text, wanted, step) == Err::<(), Fault>(
            Fault::Answered {
                message: step + ": the server answered "@ + text,
                retryable: code / 100 == 4,
            },
        ),
{
}

/// A reply lets a session go on exactly where the three digits that its last line
/// begins with write the code that is wanted. A refusal whose last line begins with a
/// four may pass, one that begins with a five or anything else may not, and either
/// says at which step it came and what was answered.
pub proof fn law_fours_may_pass(
    lines: Seq<Seq<char>>,
    rest: Seq<u8>,
    hundreds: int,
    tens: int,
    ones: int,
    wanted: u16,
    step: Seq<char>,
)
    requires
        lines.len() > 0,
        forall|i: int|
            0 <= i < lines.len() ==> {
                &&& !(#[trigger] lines[i]).contains('\n')
                &&& lines[i].len() >= 3
                &&& '0' <= lines[i][0] <= '9' || lines[i][0] == '+'
                &&& '0' <= lines[i][1] <= '9'
                &&& '0' <= lines[i][2] <= '9'
                &&& lines[i].len() > 3 && lines[i][3] == '-' <==> i < lines.len() - 1
            },
        0 <= hundreds <= 9,
        0 <= tens <= 9,
        0 <= ones <= 9,
        lines.last()[0] as int == 48 + hundreds || (lines.last()[0] == '+' && hundreds == 0),
        lines.last()[1] as int == 48 + tens,
        lines.last()[2] as int == 48 + ones,
    ensures
        ({
            let (verdict, left) = expected(all_spoken(lines) + rest, wanted, step);
            &&& left == rest
            &&& 100 * hundreds + 10 * tens + ones == wanted ==> verdict == Ok::<(), Fault>(())
            &&& 100 * hundreds + 10 * tens + ones != wanted ==> verdict == Err::<(), Fault>(
                Fault::Answered {
                    message: step + ": the server answered "@ + joined(lines),
                    retryable: lines.last()[0] == '4',
                },
            )
        }),
{
    law_a_reply_is_read_whole(lines, rest);
    if let Ok(nothing) = expected(all_spoken(lines) + rest, wanted, step).0 {
        assert(nothing == ());
    }
}

// ---------------------------------------------------------------------------
// Message data
// ---------------------------------------------------------------------------

/// Only periods are stuffed. A line that does not begin with one is sent and read as
/// it is; one that does is sent with exactly one more before it, and one that begins
/// with two is read without the first.
pub proof fn law_only_periods_are_stuffed(line: Seq<u8>)
    ensures
        line.len() == 0 || line[0] != 46u8 ==> stuffed(line) == line && unstuffed(line) == line,
        line.len() == 0 || line[0] != 46u8 ==> unstuffed(seq![46u8] + line) == seq![46u8] + line,
        stuffed(seq![46u8] + line) == seq![46u8, 46u8] + line,
        unstuffed(seq![46u8, 46u8] + line) == seq![46u8] + line,
{
    assert(seq![46u8] + (seq![46u8] + line) =~= seq![46u8, 46u8] + line);
    assert((seq![46u8, 46u8] + line).skip(1) =~= seq![46u8] + line);
}

/// Several lines, each with the line ending of the wire after it.
pub open spec fn ended(lines: Seq<Seq<u8>>) -> Seq<u8>
    decreases lines.len(),
{
    if lines.len() == 0 {
        Seq::empty()
    } else {
        lines[0] + seq![13u8, 10u8] + ended(lines.skip(1))
    }
}

/// What one line that is no lone period makes of a message.
proof fn lemma_one_more_line(
    held: Seq<u8>,
    sent: Seq<u8>,
    line: Seq<u8>,
    tail: Seq<u8>,
    max_body: nat,
)
    requires
        !sent.contains(10u8),
        ({
            ||| line.len() > 0 && line[0] == 46u8 && sent == seq![46u8] + line
            ||| sent == line && sent != seq![46u8] && !(sent.len() >= 2 && sent[0] == 46u8
                && sent[1] == 46u8)
        }),
    ensures
        ({
            let grown = if held.len() == 0 {
                line
            } else {
                held + seq![13u8, 10u8] + line
            };
            data_from(sent + seq![13u8, 10u8] + tail, held, max_body) == if grown.len()
                <= max_body {
                data_from(tail, grown, max_body)
            } else {
                (
                    Err::<Seq<u8>, Fault>(
                        Fault::Protocol { what: "a message over the size Xmip will read"@ },
                    ),
                    tail,
                )
            }
        }),
{
    lemma_wire_line(sent, tail);
    if line.len() > 0 && line[0] == 46u8 && sent == seq![46u8] + line {
        assert(sent[0] == 46u8 && sent[1] == 46u8);
        assert(sent.skip(1) =~= line);
        assert(seq![46u8].len() == 1);
    }
    assert(unstuffed(sent) =~= line);
    assert((sent + seq![13u8, 10u8]).len() > 0);
}

proof fn lemma_more_lines(
    held: Seq<u8>,
    sent: Seq<Seq<u8>>,
    lines: Seq<Seq<u8>>,
    rest: Seq<u8>,
    max_body: nat,
)
    requires
        0 < held.len() <= max_body,
        sent.len() == lines.len(),
        forall|i: int|
            0 <= i < sent.len() ==> {
                &&& !(#[trigger] sent[i]).contains(10u8)
                &&& {
                    ||| lines[i].len() > 0 && lines[i][0] == 46u8 && sent[i] == seq![46u8]
                        + lines[i]
                    ||| sent[i] == lines[i] && sent[i] != seq![46u8] && !(sent[i].len() >= 2
                        && sent[i][0] == 46u8 && sent[i][1] == 46u8)
                }
            },
    ensures
        ({
            let read = data_from(ended(sent) + seq![46u8, 13u8, 10u8] + rest, held, max_body);
            let whole = if lines.len() == 0 {
                held
            } else {
                held + seq![13u8, 10u8] + joined_by(lines, seq![13u8, 10u8])
            };
            if whole.len() <= max_body {
                read == (Ok::<Seq<u8>, Fault>(whole), rest)
            } else {
                read.0 == Err::<Seq<u8>, Fault>(
                    Fault::Protocol { what: "a message over the size Xmip will read"@ },
                )
            }
        }),
    decreases lines.len(),
{
    let between = seq![13u8, 10u8];
    let end = seq![46u8, 13u8, 10u8] + rest;
    if lines.len() == 0 {
        assert(ended(sent) + seq![46u8, 13u8, 10u8] + rest =~= seq![46u8] + crlf() + rest);
        lemma_wire_line(seq![46u8], rest);
    } else {
        let others = lines.skip(1);
        let more = sent.skip(1);
        let tail = ended(more) + seq![46u8, 13u8, 10u8] + rest;
        let grown = held + between + lines[0];
        assert(ended(sent) + seq![46u8, 13u8, 10u8] + rest =~= sent[0] + between + tail);
        lemma_one_more_line(held, sent[0], lines[0], tail, max_body);
        assert forall|i: int| 0 <= i < more.len() implies {
            &&& !(#[trigger] more[i]).contains(10u8)
            &&& {
                ||| others[i].len() > 0 && others[i][0] == 46u8 && more[i] == seq![46u8]
                    + others[i]
                ||| more[i] == others[i] && more[i] != seq![46u8] && !(more[i].len() >= 2
                    && more[i][0] == 46u8 && more[i][1] == 46u8)
            }
        } by {
            assert(more[i] == sent[i + 1]);
            assert(others[i] == lines[i + 1]);
        }
        if others.len() == 0 {
            assert(joined_by(lines, between) == lines[0]);
        } else {
            assert(grown + between + joined_by(others, between) =~= held + between + joined_by(
                lines,
                between,
            ));
        }
        if grown.len() <= max_body {
            lemma_more_lines(grown, more, others, rest, max_body);
        }
    }
}

/// What one line makes of message data: a lone period completes it. Any other line is
/// added to what arrived, after a carriage return and a line feed where anything did,
/// without its first period where it begins with two, as long as it fits.
pub proof fn law_what_a_line_makes_of_message_data(
    held: Seq<u8>,
    sent: Seq<u8>,
    line: Seq<u8>,
    max_body: nat,
)
    requires
        ({
            ||| line.len() > 0 && line[0] == 46u8 && sent == seq![46u8] + line
            ||| sent == line && sent != seq![46u8] && !(sent.len() >= 2 && sent[0] == 46u8
                && sent[1] == 46u8)
        }),
    ensures
        data_step(held, seq![46u8, 13u8, 10u8], max_body) == Ok::<DataStep, Fault>(DataStep::Whole),
        data_step(held, Seq::empty(), max_body) == Err::<DataStep, Fault>(
            Fault::Protocol { what: "a connection that closed inside DATA"@ },
        ),
        ({
            let grown = if held.len() == 0 {
                line
            } else {
                held + seq![13u8, 10u8] + line
            };
            data_step(held, sent + seq![13u8, 10u8], max_body) == if grown.len() <= max_body {
                Ok::<DataStep, Fault>(DataStep::Partial { held: grown })
            } else {
                Err::<DataStep, Fault>(
                    Fault::Protocol { what: "a message over the size Xmip will read"@ },
                )
            }
        }),
{
    law_one_line_ending_is_taken_off(seq![46u8]);
    assert(seq![46u8] + seq![13u8, 10u8] =~= seq![46u8, 13u8, 10u8]);
    law_one_line_ending_is_taken_off(sent);
    if line.len() > 0 && line[0] == 46u8 && sent == seq![46u8] + line {
        assert(sent[0] == 46u8 && sent[1] == 46u8);
        assert(sent.skip(1) =~= line);
        assert(seq![46u8].len() == 1);
    }
    assert(unstuffed(sent) =~= line);
}

/// Reading message data is hearing its lines one after the other, up to the one that
/// ends it or fails, and so is reading a reply.
pub proof fn law_reading_goes_line_by_line(
    input: Seq<u8>,
    held: Seq<u8>,
    text: Seq<char>,
    max_body: nat,
)
    ensures
        data_from(input, held, max_body) == match data_step(held, first_line(input), max_body) {
            Err(fault) => (Err::<Seq<u8>, Fault>(fault), after_line(input)),
            Ok(DataStep::Whole) => (Ok::<Seq<u8>, Fault>(held), after_line(input)),
            Ok(DataStep::Partial { held: grown }) => data_from(after_line(input), grown, max_body),
        },
        reply_from(input, text) == match reply_step(text, first_line(input)) {
            Err(fault) => (Err::<(u16, Seq<char>), Fault>(fault), after_line(input)),
            Ok(ReplyStep::Whole { code, text: whole }) => (
                Ok::<(u16, Seq<char>), Fault>((code, whole)),
                after_line(input),
            ),
            Ok(ReplyStep::Partial { text: so_far }) => reply_from(after_line(input), so_far),
        },
{
    lemma_line_len(input);
}

/// Message data is read up to the lone period and no further, as its lines, with a
/// carriage return and a line feed between them, where the first is not empty. A line
/// that begins with a period was sent with one more before it, or with only that one
/// where no other follows it; any other was sent as it is. What would have more bytes
/// than the limit is refused, and nothing else is.
pub proof fn law_message_data_is_its_lines(
    sent: Seq<Seq<u8>>,
    lines: Seq<Seq<u8>>,
    rest: Seq<u8>,
    max_body: nat,
)
    requires
        sent.len() == lines.len(),
        lines.len() > 0 ==> lines[0].len() > 0,
        forall|i: int|
            0 <= i < sent.len() ==> {
                &&& !(#[trigger] sent[i]).contains(10u8)
                &&& {
                    ||| lines[i].len() > 0 && lines[i][0] == 46u8 && sent[i] == seq![46u8]
                        + lines[i]
                    ||| sent[i] == lines[i] && sent[i] != seq![46u8] && !(sent[i].len() >= 2
                        && sent[i][0] == 46u8 && sent[i][1] == 46u8)
                }
            },
    ensures
        ({
            let read = data_from(
                ended(sent) + seq![46u8, 13u8, 10u8] + rest,
                Seq::empty(),
                max_body,
            );
            let whole = joined_by(lines, seq![13u8, 10u8]);
            if whole.len() <= max_body {
                read == (Ok::<Seq<u8>, Fault>(whole), rest)
            } else {
                read.0 == Err::<Seq<u8>, Fault>(
                    Fault::Protocol { what: "a message over the size Xmip will read"@ },
                )
            }
        }),
{
    let between = seq![13u8, 10u8];
    if lines.len() == 0 {
        assert(ended(sent) + seq![46u8, 13u8, 10u8] + rest =~= seq![46u8] + crlf() + rest);
        lemma_wire_line(seq![46u8], rest);
        assert(joined_by(lines, between) =~= Seq::<u8>::empty());
    } else {
        let others = lines.skip(1);
        let more = sent.skip(1);
        let tail = ended(more) + seq![46u8, 13u8, 10u8] + rest;
        assert(ended(sent) + seq![46u8, 13u8, 10u8] + rest =~= sent[0] + between + tail);
        lemma_one_more_line(Seq::empty(), sent[0], lines[0], tail, max_body);
        assert forall|i: int| 0 <= i < more.len() implies {
            &&& !(#[trigger] more[i]).contains(10u8)
            &&& {
                ||| others[i].len() > 0 && others[i][0] == 46u8 && more[i] == seq![46u8]
                    + others[i]
                ||| more[i] == others[i] && more[i] != seq![46u8] && !(more[i].len() >= 2
                    && more[i][0] == 46u8 && more[i][1] == 46u8)
            }
        } by {
            assert(more[i] == sent[i + 1]);
            assert(others[i] == lines[i + 1]);
        }
        if lines[0].len() <= max_body {
            lemma_more_lines(lines[0], more, others, rest, max_body);
        }
    }
}

/// Empty lines at the start of message data are passed over. A line that does not fit
/// ends the reading there, a connection that closes ends it with nothing read, and a
/// lone period hands over what arrived, whatever that is.
pub proof fn law_where_message_data_ends(
    held: Seq<u8>,
    line: Seq<u8>,
    rest: Seq<u8>,
    max_body: nat,
)
    requires
        !line.contains(10u8),
    ensures
        data_from(seq![13u8, 10u8] + rest, Seq::empty(), max_body) == data_from(
            rest,
            Seq::empty(),
            max_body,
        ),
        data_from(seq![46u8, 13u8, 10u8] + rest, held, max_body) == (
            Ok::<Seq<u8>, Fault>(held),
            rest,
        ),
        data_from(Seq::empty(), held, max_body) == (
            Err::<Seq<u8>, Fault>(
                Fault::Protocol { what: "a connection that closed inside DATA"@ },
            ),
            Seq::<u8>::empty(),
        ),
        ({
            let grown = if held.len() == 0 {
                line
            } else {
                held + seq![13u8, 10u8] + line
            };
            (line.len() == 0 || line[0] != 46u8) && grown.len() > max_body ==> data_from(
                line + seq![13u8, 10u8] + rest,
                held,
                max_body,
            ) == (
                Err::<Seq<u8>, Fault>(
                    Fault::Protocol { what: "a message over the size Xmip will read"@ },
                ),
                rest,
            )
        }),
{
    let nothing = Seq::<u8>::empty();
    assert(seq![13u8, 10u8] + rest =~= nothing + seq![13u8, 10u8] + rest);
    assert(nothing != seq![46u8]) by {
        assert(seq![46u8].len() == 1);
    }
    lemma_one_more_line(nothing, nothing, nothing, rest, max_body);
    assert(seq![46u8, 13u8, 10u8] + rest =~= seq![46u8] + crlf() + rest);
    lemma_wire_line(seq![46u8], rest);
    assert(first_line(nothing) =~= nothing);
    assert(after_line(nothing) =~= nothing);
    if line.len() == 0 || line[0] != 46u8 {
        assert(line != seq![46u8]) by {
            assert(seq![46u8][0] == 46u8);
        }
        lemma_one_more_line(held, line, line, rest, max_body);
    }
}

/// A message is sent line by line, line feeds parting its lines. Each is sent without
/// a carriage return at its end, with one more period before it where it begins with
/// one, and with a carriage return and a line feed after it.
pub proof fn law_a_message_is_sent_line_by_line(line: Seq<u8>, rest: Seq<u8>)
    requires
        !line.contains(10u8),
    ensures
        body_wire(line + seq![10u8] + rest) == body_wire(line) + body_wire(rest),
        body_wire(line + seq![13u8]) == if line.len() > 0 && line[0] == 46u8 {
            seq![46u8] + line + seq![13u8, 10u8]
        } else {
            line + seq![13u8, 10u8]
        },
        line.len() == 0 || line.last() != 13u8 ==> body_wire(line) == if line.len() > 0 && line[0]
            == 46u8 {
            seq![46u8] + line + seq![13u8, 10u8]
        } else {
            line + seq![13u8, 10u8]
        },
{
    let message = line + seq![10u8] + rest;
    law_a_line_ends_with_its_line_feed(line, rest);
    assert(message[line.len() as int] == LF);
    assert((line + seq![10u8]).drop_last() =~= line);
    if line.len() > 0 {
        assert(line.contains(line.last()));
    }
    let returned = line + seq![13u8];
    assert(!returned.contains(10u8)) by {
        assert forall|i: int| 0 <= i < returned.len() implies returned[i] != 10u8 by {
            if i < line.len() {
                assert(line.contains(line[i]));
            }
        }
    }
    law_a_line_ends_with_its_line_feed(returned, rest);
    law_one_line_ending_is_taken_off(line);
}

// ---------------------------------------------------------------------------
// Commands
// ---------------------------------------------------------------------------

/// What white space is: the characters that Unicode gives the property, by number.
pub proof fn law_what_white_space_is(c: char)
    ensures
        is_white_space(c) <==> {
            let number = c as int;
            ||| 0x9 <= number <= 0xd
            ||| number == 0x20
            ||| number == 0x85
            ||| number == 0xa0
            ||| number == 0x1680
            ||| 0x2000 <= number <= 0x200a
            ||| 0x2028 <= number <= 0x2029
            ||| number == 0x202f
            ||| number == 0x205f
            ||| number == 0x3000
        },
{
}

/// The verb of a command is its first word, after whatever white space, its letters
/// `a` to `z` in upper case and every other character as it is.
pub proof fn law_the_verb_of_a_command(
    blank: Seq<char>,
    word: Seq<char>,
    after: Seq<char>,
    verb: Seq<char>,
)
    requires
        forall|i: int| 0 <= i < blank.len() ==> is_white_space(#[trigger] blank[i]),
        forall|i: int| 0 <= i < word.len() ==> !is_white_space(#[trigger] word[i]),
        after.len() > 0 ==> is_white_space(after[0]),
        word.len() == 0 ==> after.len() == 0,
        verb.len() == word.len(),
        forall|i: int|
            0 <= i < word.len() ==> (#[trigger] verb[i]) as int == if 97 <= word[i] as int <= 122 {
                word[i] as int - 32
            } else {
                word[i] as int
            },
    ensures
        verb_of(encode_utf8(blank + word + after) + seq![13u8, 10u8]) == Ok::<
            Option<Seq<char>>,
            Fault,
        >(Some(verb)),
{
    let line = blank + word + after;
    let to = blank.len() + word.len();
    assert forall|i: int| 0 <= i < blank.len() implies is_white_space(line[i]) by {
        assert(line[i] == blank[i]);
    }
    assert forall|i: int| blank.len() <= i < to implies !is_white_space(line[i]) by {
        assert(line[i] == word[i - blank.len()]);
    }
    lemma_first_word(line, blank.len() as int, to as int);
    assert(line.subrange(blank.len() as int, to as int) =~= word);
    assert forall|i: int| 0 <= i < word.len() implies upper(word)[i] == verb[i] by {
        assert(verb[i] as int == upper_char(word[i]) as int);
    }
    assert(upper(word) =~= verb);
    lemma_spoken_verb(line);
}

/// A client that hung up gave no command, and bytes that are not text are none.
pub proof fn law_what_is_no_command(raw: Seq<u8>)
    ensures
        verb_of(Seq::empty()) == Ok::<Option<Seq<char>>, Fault>(None),
        !valid_utf8(raw) ==> verb_of(raw) == Err::<Option<Seq<char>>, Fault>(
            Fault::NotText { step: "reading a command"@ },
        ),
{
}

/// How each command is answered, whatever message is held before it and whatever
/// follows its verb. HELO, EHLO, MAIL, RCPT, RSET, NOOP, a blank line and a verb that
/// is not known leave everything as it was. DATA opens a message, of which nothing
/// has arrived. QUIT ends the session with the message that is held.
pub proof fn law_how_commands_are_answered(
    held: Seq<u8>,
    line: Seq<u8>,
    verb: Seq<char>,
    rest: Seq<u8>,
    max_body: nat,
)
    requires
        !line.contains(10u8),
        verb_of(line + seq![10u8]) == Ok::<Option<Seq<char>>, Fault>(Some(verb)),
    ensures
        ({
            let whole = conversation(
                State { held, incoming: None },
                line + seq![10u8] + rest,
                max_body,
            );
            let after = conversation(State { held, incoming: None }, rest, max_body);
            let inside = conversation(
                State { held, incoming: Some(Seq::empty()) },
                rest,
                max_body,
            );
            if verb == ""@ {
                whole == after
            } else if verb == "HELO"@ {
                whole == (after.0, spoken("250 xmip"@) + after.1, after.2)
            } else if verb == "EHLO"@ {
                whole == (after.0, spoken("250-xmip\r\n250 8BITMIME"@) + after.1, after.2)
            } else if verb == "MAIL"@ || verb == "RCPT"@ || verb == "RSET"@ || verb == "NOOP"@ {
                whole == (after.0, spoken("250 ok"@) + after.1, after.2)
            } else if verb == "DATA"@ {
                whole == (
                    inside.0,
                    spoken("354 end with a line containing only a period"@) + inside.1,
                    inside.2,
                )
            } else if verb == "QUIT"@ {
                whole == (Ok::<Seq<u8>, Fault>(held), spoken("221 closing"@), rest)
            } else {
                whole == (after.0, spoken("502 not implemented"@) + after.1, after.2)
            }
        }),
{
    law_a_line_ends_with_its_line_feed(line, rest);
    lemma_verbs();
    lemma_line_len(line + seq![10u8] + rest);
    let after = conversation(State { held, incoming: None }, rest, max_body);
    assert(Seq::<u8>::empty() + after.1 =~= after.1);
}

/// A command that is not text fails the session, says nothing and leaves what follows.
pub proof fn law_a_command_that_is_not_text_fails(
    held: Seq<u8>,
    line: Seq<u8>,
    rest: Seq<u8>,
    max_body: nat,
)
    requires
        !line.contains(10u8),
        !valid_utf8(line + seq![10u8]),
    ensures
        conversation(State { held, incoming: None }, line + seq![10u8] + rest, max_body) == (
            Err::<Seq<u8>, Fault>(Fault::NotText { step: "reading a command"@ }),
            Seq::<u8>::empty(),
            rest,
        ),
{
    law_a_line_ends_with_its_line_feed(line, rest);
}

/// Every DATA is answered and opens a message, whatever message is held before it.
pub proof fn law_every_data_opens_a_message(held: Seq<u8>, input: Seq<u8>, max_body: nat)
    ensures
        ({
            let inside = conversation(
                State { held, incoming: Some(Seq::empty()) },
                input,
                max_body,
            );
            conversation(State { held, incoming: None }, spoken("DATA"@) + input, max_body) == (
                inside.0,
                spoken("354 end with a line containing only a period"@) + inside.1,
                inside.2,
            )
        }),
{
    lemma_verbs();
    let data = "DATA"@;
    assert(!data.contains('\n'));
    lemma_spoken(data, input);
    let nothing = Seq::<char>::empty();
    assert(nothing + data + nothing =~= data);
    law_the_verb_of_a_command(nothing, data, nothing, data);
}

/// Of the messages of a session each replaces the one before it: after a message is
/// handed over the session goes on with that message in hand, whatever was held.
pub proof fn law_the_last_message_is_held(
    held: Seq<u8>,
    message: Seq<u8>,
    rest: Seq<u8>,
    max_body: nat,
)
    requires
        delivered(message).len() <= max_body,
    ensures
        ({
            let after = conversation(
                State { held: delivered(message), incoming: None },
                rest,
                max_body,
            );
            conversation(
                State { held, incoming: None },
                spoken("DATA"@) + (body_wire(message) + seq![46u8, 13u8, 10u8] + rest),
                max_body,
            ) == (
                after.0,
                spoken("354 end with a line containing only a period"@) + (spoken("250 accepted"@)
                    + after.1),
                after.2,
            )
        }),
{
    let data = body_wire(message) + seq![46u8, 13u8, 10u8] + rest;
    law_every_data_opens_a_message(held, data, max_body);
    law_message_arrives(message, rest, max_body);
    reveal_strlit(".");
    is_ascii_chars_encode_utf8("."@);
    assert(encode_utf8("."@)[0] == '.' as u8);
    assert(spoken("."@) =~= seq![46u8, 13u8, 10u8]);
    law_data_is_read_as_a_message(held, Seq::empty(), data, max_body);
}

/// Conversing with a client is hearing its lines one after the other: what is said to
/// each is said, a failure ends it, and so does a decision to be done, with the message
/// that is held then.
pub proof fn law_a_conversation_goes_line_by_line(state: State, input: Seq<u8>, max_body: nat)
    ensures
        ({
            let rest = after_line(input);
            let (heard, said) = turn(state, first_line(input), max_body);
            conversation(state, input, max_body) == match heard {
                Err(fault) => (Err::<Seq<u8>, Fault>(fault), said, rest),
                Ok((after, Next::Done)) => (Ok::<Seq<u8>, Fault>(after.held), said, rest),
                Ok((after, Next::Continue)) => {
                    let (message, more, left) = conversation(after, rest, max_body);
                    (message, said + more, left)
                },
            }
        }),
{
    lemma_line_len(input);
}

/// What one line of message data does to a conversation: it is kept in what arrives, or
/// it completes the message, which is then accepted in the place of the one held, or it
/// fails and nothing is said.
pub proof fn law_what_a_line_of_data_makes_of_a_conversation(
    held: Seq<u8>,
    incoming: Seq<u8>,
    raw: Seq<u8>,
    max_body: nat,
)
    ensures
        turn(State { held, incoming: Some(incoming) }, raw, max_body) == match data_step(
            incoming,
            raw,
            max_body,
        ) {
            Err(fault) => (Err::<(State, Next), Fault>(fault), Seq::<u8>::empty()),
            Ok(DataStep::Partial { held: grown }) => (
                Ok::<(State, Next), Fault>((State { held, incoming: Some(grown) }, Next::Continue)),
                Seq::<u8>::empty(),
            ),
            Ok(DataStep::Whole) => (
                Ok::<(State, Next), Fault>(
                    (State { held: incoming, incoming: None }, Next::Continue),
                ),
                spoken("250 accepted"@),
            ),
        },
{
}

/// A connection is greeted, and then conversed on with nothing in hand. What is
/// delivered says where it came from.
pub proof fn law_what_a_connection_comes_to(peer: Seq<char>, input: Seq<u8>, max_body: nat)
    ensures
        opened() == (State { held: Seq::empty(), incoming: None }),
        ({
            let (message, said, rest) = conversation(
                State { held: Seq::empty(), incoming: None },
                input,
                max_body,
            );
            accepted(peer, input, max_body) == (
                match message {
                    Ok(bytes) => Ok::<Delivery, Fault>(
                        Delivery { origin_uri: "smtp://"@ + peer, bytes },
                    ),
                    Err(fault) => Err::<Delivery, Fault>(fault),
                },
                spoken("220 xmip ESMTP"@) + said,
                rest,
            )
        }),
{
}

// ---------------------------------------------------------------------------
// Deliveries
// ---------------------------------------------------------------------------

/// Every text that holds an `@` is a mailbox, exactly as it is, with `mailto:` before
/// it or, where it does not itself begin so, without. No other text is one, and the
/// refusal says what was given.
pub proof fn law_an_at_is_all_that_is_asked_for(text: Seq<char>)
    ensures
        text.contains('@') ==> mailbox_of("mailto:"@ + text) == Ok::<Seq<char>, Fault>(text),
        text.contains('@') && !"mailto:"@.is_prefix_of(text) ==> mailbox_of(text) == Ok::<
            Seq<char>,
            Fault,
        >(text),
        !text.contains('@') ==> mailbox_of("mailto:"@ + text) == Err::<Seq<char>, Fault>(
            Fault::Protocol {
                what: "an smtp target must be a mailbox — got "@ + ("mailto:"@ + text),
            },
        ),
        !text.contains('@') ==> mailbox_of(text) == Err::<Seq<char>, Fault>(
            Fault::Protocol { what: "an smtp target must be a mailbox — got "@ + text },
        ),
{
    let target = "mailto:"@ + text;
    assert(target.take("mailto:"@.len() as int) =~= "mailto:"@);
    assert(target.skip("mailto:"@.len() as int) =~= text);
    if addressee(text).contains('@') {
        let i = addressee(text).index_of('@');
        assert(addressee(text)[i] == '@');
        if "mailto:"@.is_prefix_of(text) {
            assert(text[i + "mailto:"@.len()] == '@');
        }
        assert(text.contains('@'));
    }
}

/// The six steps of a delivery: what is said at each, the code that lets it go on, and
/// what it is called where it fails.
pub proof fn law_the_steps_of_a_delivery(from: Seq<char>, mailbox: Seq<char>, message: Seq<u8>)
    ensures
        ({
            let steps = delivery_steps(from, mailbox, message);
            &&& steps.len() == 6
            &&& steps[0] == (Step { say: Seq::empty(), wanted: 220, step: "the greeting"@ })
            &&& steps[1] == (Step { say: spoken("EHLO xmip"@), wanted: 250, step: "EHLO"@ })
            &&& steps[2] == (Step {
                say: spoken("MAIL FROM:<"@ + from + ">"@),
                wanted: 250,
                step: "MAIL FROM"@,
            })
            &&& steps[3] == (Step {
                say: spoken("RCPT TO:<"@ + mailbox + ">"@),
                wanted: 250,
                step: "RCPT TO"@,
            })
            &&& steps[4] == (Step { say: spoken("DATA"@), wanted: 354, step: "DATA"@ })
            &&& steps[5] == (Step {
                say: body_wire(message) + spoken("."@),
                wanted: 250,
                step: "the end of data"@,
            })
            &&& envelope_steps(from, mailbox) == steps.take(5)
        }),
{
}

/// Steps are taken one after the other, each after the reply to the one before it. A
/// reply with the code that is wanted leads on to the next; one with another code
/// ends the delivery, for now where the code is in the four hundreds, and so does a
/// reply that could not be read. Nothing is said after that, and nothing more is read.
pub proof fn law_steps_are_taken_in_turn(steps: Seq<Step>, input: Seq<u8>)
    ensures
        steps.len() == 0 ==> played(steps, input) == (
            Ok::<(), Fault>(()),
            Seq::<u8>::empty(),
            input,
        ),
        steps.len() > 0 ==> {
            let (reply, rest) = reply_from(input, Seq::empty());
            let (verdict, said, left) = played(steps.skip(1), rest);
            played(steps, input) == match reply {
                Err(fault) => (Err::<(), Fault>(fault), steps[0].say, rest),
                Ok((code, text)) => if code == steps[0].wanted {
                    (verdict, steps[0].say + said, left)
                } else {
                    (
                        Err::<(), Fault>(
                            Fault::Answered {
                                message: steps[0].step + ": the server answered "@ + text,
                                retryable: 400 <= code && code <= 499,
                            },
                        ),
                        steps[0].say,
                        rest,
                    )
                },
            }
        },
{
}

/// Where the target is no mailbox nothing is said or read. Where it is, the steps are
/// taken, and once all of them are, the goodbye is said and one reply waited for,
/// whatever it is.
pub proof fn law_what_a_delivery_comes_to(
    from: Seq<char>,
    target: Seq<char>,
    message: Seq<u8>,
    input: Seq<u8>,
)
    ensures
        match mailbox_of(target) {
            Err(fault) => relayed(from, target, message, input) == (
                Err::<(), Fault>(fault),
                Seq::<u8>::empty(),
                input,
            ),
            Ok(mailbox) => {
                let (verdict, said, rest) = played(delivery_steps(from, mailbox, message), input);
                match verdict {
                    Err(fault) => relayed(from, target, message, input) == (
                        Err::<(), Fault>(fault),
                        said,
                        rest,
                    ),
                    Ok(_) => relayed(from, target, message, input) == (
                        Ok::<(), Fault>(()),
                        said + spoken("QUIT"@),
                        reply_from(rest, Seq::empty()).1,
                    ),
                }
            },
        },
{
}

/// A server that answers each step with the code that is wanted, in however many lines
/// and whatever words, is told the sender, the recipient and the message, each once
/// and in this order, and the message is delivered.
#[verifier::spinoff_prover]
#[verifier::rlimit(60)]
pub proof fn law_a_delivery_that_goes_well(
    from: Seq<char>,
    mailbox: Seq<char>,
    message: Seq<u8>,
    greeting: Seq<Seq<char>>,
    hello: Seq<Seq<char>>,
    sender: Seq<Seq<char>>,
    recipient: Seq<Seq<char>>,
    go_on: Seq<Seq<char>>,
    taken: Seq<Seq<char>>,
    rest: Seq<u8>,
)
    requires
        mailbox.contains('@'),
        is_reply(greeting),
        is_reply(hello),
        is_reply(sender),
        is_reply(recipient),
        is_reply(go_on),
        is_reply(taken),
        greeting.last().take(3) == seq!['2', '2', '0'],
        hello.last().take(3) == seq!['2', '5', '0'],
        sender.last().take(3) == seq!['2', '5', '0'],
        recipient.last().take(3) == seq!['2', '5', '0'],
        go_on.last().take(3) == seq!['3', '5', '4'],
        taken.last().take(3) == seq!['2', '5', '0'],
    ensures
        relayed(
            from,
            "mailto:"@ + mailbox,
            message,
            all_spoken(greeting) + (all_spoken(hello) + (all_spoken(sender) + (all_spoken(recipient)
                + (all_spoken(go_on) + (all_spoken(taken) + rest))))),
        ) == (
            Ok::<(), Fault>(()),
            spoken("EHLO xmip"@) + (spoken("MAIL FROM:<"@ + from + ">"@) + (spoken(
                "RCPT TO:<"@ + mailbox + ">"@,
            ) + (spoken("DATA"@) + (body_wire(message) + spoken("."@) + spoken("QUIT"@))))),
            reply_from(rest, Seq::empty()).1,
        ),
{
    law_an_at_is_all_that_is_asked_for(mailbox);
    law_the_steps_of_a_delivery(from, mailbox, message);
    let steps = delivery_steps(from, mailbox, message);
    let w5 = all_spoken(taken) + rest;
    let w4 = all_spoken(go_on) + w5;
    let w3 = all_spoken(recipient) + w4;
    let w2 = all_spoken(sender) + w3;
    let w1 = all_spoken(hello) + w2;
    let s1 = steps.skip(1);
    let s2 = s1.skip(1);
    let s3 = s2.skip(1);
    let s4 = s3.skip(1);
    let s5 = s4.skip(1);
    let s6 = s5.skip(1);
    lemma_code(greeting.last(), '2', '2', '0', 220);
    lemma_code(hello.last(), '2', '5', '0', 250);
    lemma_code(sender.last(), '2', '5', '0', 250);
    lemma_code(recipient.last(), '2', '5', '0', 250);
    lemma_code(go_on.last(), '3', '5', '4', 354);
    lemma_code(taken.last(), '2', '5', '0', 250);
    assert(s6.len() == 0);
    assert(played(s6, rest) == (Ok::<(), Fault>(()), Seq::<u8>::empty(), rest));
    lemma_step_taken(s5, taken, rest);
    lemma_step_taken(s4, go_on, w5);
    lemma_step_taken(s3, recipient, w4);
    lemma_step_taken(s2, sender, w3);
    lemma_step_taken(s1, hello, w2);
    lemma_step_taken(steps, greeting, w1);
    let target = "mailto:"@ + mailbox;
    let input = all_spoken(greeting) + w1;
    law_what_a_delivery_comes_to(from, target, message, input);
    assert(relayed(from, target, message, input).1 =~= spoken("EHLO xmip"@) + (spoken(
        "MAIL FROM:<"@ + from + ">"@,
    ) + (spoken("RCPT TO:<"@ + mailbox + ">"@) + (spoken("DATA"@) + (body_wire(message) + spoken(
        "."@,
    ) + spoken("QUIT"@))))));
}

/// A line that begins with three digits has their code.
proof fn lemma_code(line: Seq<char>, first: char, second: char, third: char, code: u16)
    requires
        line.len() >= 3,
        line.take(3) == seq![first, second, third],
        '0' <= first <= '9',
        '0' <= second <= '9',
        '0' <= third <= '9',
        code == 100 * (first as int - 48) + 10 * (second as int - 48) + (third as int - 48),
    ensures
        code_of(line) == Some(code),
{
    assert(line[0] == line.take(3)[0]);
    assert(line[1] == line.take(3)[1]);
    assert(line[2] == line.take(3)[2]);
}

/// What one line that is said makes of a delivery. One with a hyphen in its fourth
/// column is kept and nothing is said. One that completes the reply leads on to the
/// next step, or to the goodbye after the last, where its code is the one wanted, and
/// fails the delivery where it is not; once only the goodbye is waited for, it ends
/// the delivery, whatever its code.
pub proof fn law_what_a_line_makes_of_a_delivery(
    left: Seq<Step>,
    heard: Seq<char>,
    line: Seq<char>,
    hundreds: int,
    tens: int,
    ones: int,
)
    requires
        line.len() >= 3,
        0 <= hundreds <= 9,
        0 <= tens <= 9,
        0 <= ones <= 9,
        line[0] as int == 48 + hundreds || (line[0] == '+' && hundreds == 0),
        line[1] as int == 48 + tens,
        line[2] as int == 48 + ones,
    ensures
        ({
            let code = 100 * hundreds + 10 * tens + ones;
            let (next, progress, said) = progressed(
                Progress { left, heard },
                encode_utf8(line) + seq![13u8, 10u8],
            );
            if line.len() > 3 && line[3] == '-' {
                &&& next == Ok::<Next, Fault>(Next::Continue)
                &&& progress == (Progress { left, heard: heard + line + seq!['\n'] })
                &&& said == Seq::<u8>::empty()
            } else if left.len() == 0 {
                &&& next == Ok::<Next, Fault>(Next::Done)
                &&& progress.left == left
                &&& said == Seq::<u8>::empty()
            } else if code == left[0].wanted {
                &&& next == Ok::<Next, Fault>(Next::Continue)
                &&& progress == (Progress { left: left.skip(1), heard: Seq::empty() })
                &&& said == if left.len() == 1 {
                    spoken("QUIT"@)
                } else {
                    left[1].say
                }
            } else {
                &&& next == Err::<Next, Fault>(
                    Fault::Answered {
                        message: left[0].step + ": the server answered "@ + (heard + line),
                        retryable: hundreds == 4,
                    },
                )
                &&& progress.left == left
                &&& said == Seq::<u8>::empty()
            }
        }),
{
    law_what_a_line_makes_of_a_reply(heard, line, hundreds, tens, ones);
}

/// What a line that is no reply makes of a delivery, or a server that hung up: before
/// the message is taken it fails, and after that it ends.
pub proof fn law_what_no_reply_makes_of_a_delivery(progress: Progress, raw: Seq<u8>)
    requires
        raw.len() == 0 || !valid_utf8(raw),
    ensures
        progressed(progress, raw).1 == progress,
        progressed(progress, raw).2 == Seq::<u8>::empty(),
        progressed(progress, raw).0 == if progress.left.len() == 0 {
            Ok::<Next, Fault>(Next::Done)
        } else if raw.len() == 0 {
            Err::<Next, Fault>(Fault::Protocol { what: "a connection that closed mid-reply"@ })
        } else {
            Err::<Next, Fault>(Fault::NotText { step: "reading a reply"@ })
        },
{
}

/// What a line without a code makes of a delivery: before the message is taken it
/// fails, and after that it ends.
pub proof fn law_what_a_line_without_a_code_makes_of_a_delivery(
    progress: Progress,
    line: Seq<char>,
)
    requires
        line.len() < 3 || !('0' <= line[0] <= '9' || line[0] == '+') || !('0' <= line[1] <= '9')
            || !('0' <= line[2] <= '9'),
    ensures
        ({
            let (next, after, said) = progressed(
                progress,
                encode_utf8(line) + seq![13u8, 10u8],
            );
            &&& after == progress
            &&& said == Seq::<u8>::empty()
            &&& next == if progress.left.len() == 0 {
                Ok::<Next, Fault>(Next::Done)
            } else {
                Err::<Next, Fault>(Fault::Protocol { what: "a reply with no code: "@ + line })
            }
        }),
{
    lemma_heard(line);
}

/// A delivery begins with what its first step says, and one with no step left with
/// the goodbye.
pub proof fn law_how_a_delivery_begins(left: Seq<Step>)
    ensures
        left.len() == 0 ==> opening(left) == spoken("QUIT"@),
        left.len() > 0 ==> opening(left) == left[0].say,
{
}

// ---------------------------------------------------------------------------
// Values
// ---------------------------------------------------------------------------

/// A failure is known by what it holds: its own text, and the judgement of whether
/// another attempt may succeed.
pub proof fn law_failures_say_what_they_hold(
    what: String,
    message: String,
    retryable: bool,
    step: &'static str,
)
    ensures
        (TransportError::Protocol { what })@ == (Fault::Protocol { what: what@ }),
        (TransportError::Answered { message, retryable })@ == (Fault::Answered {
            message: message@,
            retryable,
        }),
        (TransportError::NotText { step })@ == (Fault::NotText { step: step@ }),
{
}

/// A result is known by its success or by its failure.
pub proof fn law_results_are_what_they_hold<T: View>(value: T, error: TransportError)
    ensures
        outcome(Ok::<T, TransportError>(value)) == Ok::<T::V, Fault>(value@),
        outcome(Err::<T, TransportError>(error)) == Err::<T::V, Fault>(error@),
{
}

/// A step and a message that arrived are known by what they hold, and a decision is
/// itself.
pub proof fn law_values_are_what_they_hold(exchange: Exchange, arrived: Arrived, next: Next)
    ensures
        exchange@.say == exchange.say@,
        exchange@.wanted == exchange.wanted,
        exchange@.step == exchange.step@,
        arrived@.origin_uri == arrived.origin_uri@,
        arrived@.bytes == arrived.bytes@,
        next@ == next,
{
}

} // verus!
