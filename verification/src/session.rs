//! Saying and hearing one line at a time.

use vstd::prelude::*;
use vstd::slice::slice_subrange;
use vstd::utf8::{decode_utf8, encode_utf8, valid_utf8};

use crate::error::{outcome, protocol_error, Fault, TransportError};
use crate::wire::{
    after_line, crlf, first_line, lemma_line_len, lemma_without_eol_utf8, take_line, text_of,
    trim_eol, without_eol, CR, LF,
};

verus! {

/// What a session decided to do next.
#[derive(Clone, Copy, Debug, PartialEq, Eq)]
pub enum Next {
    /// Keep reading lines.
    Continue,
    /// The other side said goodbye, or hung up.
    Done,
}

impl View for Next {
    type V = Next;

    open spec fn view(&self) -> Next {
        *self
    }
}

impl Next {
    /// Whether what is said now has to reach the other side. Where it is the last
    /// thing said it need not: one that hangs up without waiting for the goodbye is
    /// rude, not broken, and a failed farewell is no failed session.
    pub fn must_be_said(&self) -> (must: bool)
        ensures
            must == (*self is Continue),
    {
        match self {
            Next::Continue => true,
            Next::Done => false,
        }
    }
}

// ---------------------------------------------------------------------------
// Saying
// ---------------------------------------------------------------------------

/// One command or reply as it goes over the wire.
pub open spec fn spoken(line: Seq<char>) -> Seq<u8> {
    encode_utf8(line) + crlf()
}

/// Write one command or reply, terminated as the protocol requires.
pub fn say(stream: &mut Vec<u8>, line: &str)
    ensures
        final(stream)@ == old(stream)@ + spoken(line@),
{
    stream.extend_from_slice(line.as_bytes());
    stream.push(CR);
    stream.push(LF);
    assert(stream@ =~= old(stream)@ + spoken(line@));
}

// ---------------------------------------------------------------------------
// Replies
// ---------------------------------------------------------------------------

/// Whether a character is a decimal digit.
pub open spec fn is_digit(c: char) -> bool {
    '0' <= c <= '9'
}

/// The value of a decimal digit.
pub open spec fn digit_value(c: char) -> int {
    c as int - '0' as int
}

/// The code that a reply line begins with: three digits, of which the first may
/// be a plus sign in the place of a zero.
pub open spec fn code_of(line: Seq<char>) -> Option<u16> {
    if line.len() >= 3 && (is_digit(line[0]) || line[0] == '+') && is_digit(line[1]) && is_digit(
        line[2],
    ) {
        let hundreds = if line[0] == '+' {
            0
        } else {
            digit_value(line[0])
        };
        Some((100 * hundreds + 10 * digit_value(line[1]) + digit_value(line[2])) as u16)
    } else {
        None
    }
}

/// Whether a reply goes on after this line: its fourth column is a hyphen.
pub open spec fn is_continued(line: Seq<char>) -> bool {
    line.len() > 3 && line[3] == '-'
}

/// What one more line makes of a reply.
pub enum ReplyStep {
    /// The reply goes on. What was heard of it so far.
    Partial { text: Seq<char> },
    /// The reply is complete.
    Whole { code: u16, text: Seq<char> },
}

/// What the raw line `raw` makes of a reply of which `text` was heard before.
/// An empty `raw` is a connection that closed.
pub open spec fn reply_step(text: Seq<char>, raw: Seq<u8>) -> Result<ReplyStep, Fault> {
    if raw.len() == 0 {
        Err(Fault::Protocol { what: "a connection that closed mid-reply"@ })
    } else if !valid_utf8(raw) {
        Err(Fault::NotText { step: "reading a reply"@ })
    } else {
        let line = decode_utf8(without_eol(raw));
        match code_of(line) {
            None => Err(Fault::Protocol { what: "a reply with no code: "@ + line }),
            Some(code) => if is_continued(line) {
                Ok(ReplyStep::Partial { text: text + line + "\n"@ })
            } else {
                Ok(ReplyStep::Whole { code, text: text + line })
            },
        }
    }
}

/// The reply that `input` begins with, `text` having been heard of it before,
/// and what of `input` follows it.
pub open spec fn reply_from(input: Seq<u8>, text: Seq<char>) -> (
    Result<(u16, Seq<char>), Fault>,
    Seq<u8>,
)
    decreases input.len(),
{
    let rest = after_line(input);
    match reply_step(text, first_line(input)) {
        Err(fault) => (Err(fault), rest),
        Ok(ReplyStep::Whole { code, text }) => (Ok((code, text)), rest),
        Ok(ReplyStep::Partial { text }) => {
            proof {
                lemma_line_len(input);
            }
            reply_from(rest, text)
        },
    }
}

/// A reply that is being heard, one raw line after the other.
pub struct ReplyReader {
    text: String,
}

impl View for ReplyReader {
    type V = Seq<char>;

    closed spec fn view(&self) -> Seq<char> {
        self.text@
    }
}

impl ReplyReader {
    /// A reply of which nothing was heard yet.
    pub fn new() -> (reply: Self)
        ensures
            reply@ == Seq::<char>::empty(),
    {
        ReplyReader { text: String::new() }
    }

    /// Hear one raw line, empty where the connection closed. Gives the code once
    /// the reply is complete.
    ///
    /// A multi-line reply is `250-first` ... `250 last`: it is the fourth column
    /// that ends it, not the line ending.
    pub fn hear(&mut self, raw: &[u8]) -> (heard: Result<Option<u16>, TransportError>)
        ensures
            match reply_step(old(self)@, raw@) {
                Err(fault) => {
                    &&& heard matches Err(error) && error@ == fault
                    &&& final(self)@ == old(self)@
                },
                Ok(ReplyStep::Partial { text }) => {
                    &&& heard == Ok::<Option<u16>, TransportError>(None)
                    &&& final(self)@ == text
                },
                Ok(ReplyStep::Whole { code, text }) => {
                    &&& heard == Ok::<Option<u16>, TransportError>(Some(code))
                    &&& final(self)@ == text
                },
            },
    {
        if raw.is_empty() {
            return Err(protocol_error("a connection that closed mid-reply"));
        }
        proof {
            lemma_without_eol_utf8(raw@);
        }
        let line = match text_of(trim_eol(raw)) {
            Some(line) => line,
            None => return Err(TransportError::NotText { step: "reading a reply" }),
        };
        let code = reply_code(line)?;
        self.text.append(line);
        if continued(line) {
            self.text.append("\n");
            Ok(None)
        } else {
            Ok(Some(code))
        }
    }

    /// All the lines that were heard, separated by line feeds.
    pub fn into_text(self) -> (text: String)
        ensures
            text@ == self@,
    {
        self.text
    }
}

/// The code that a reply line begins with.
fn reply_code(line: &str) -> (code: Result<u16, TransportError>)
    ensures
        match code_of(line@) {
            Some(number) => code == Ok::<u16, TransportError>(number),
            None => code matches Err(error) && error@ == (Fault::Protocol {
                what: "a reply with no code: "@ + line@,
            }),
        },
{
    let mut columns = line.chars();
    let first = columns.next();
    let second = columns.next();
    let third = columns.next();
    if let (Some(a), Some(b), Some(c)) = (first, second, third) {
        if (('0' <= a && a <= '9') || a == '+') && '0' <= b && b <= '9' && '0' <= c && c <= '9' {
            let hundreds: u16 = if a == '+' {
                0
            } else {
                a as u16 - '0' as u16
            };
            let tens: u16 = b as u16 - '0' as u16;
            let ones: u16 = c as u16 - '0' as u16;
            return Ok(100 * hundreds + 10 * tens + ones);
        }
    }
    let mut what = "a reply with no code: ".to_owned();
    what.append(line);
    Err(TransportError::Protocol { what })
}

/// Whether a reply goes on after this line.
fn continued(line: &str) -> (yes: bool)
    ensures
        yes == is_continued(line@),
{
    let mut columns = line.chars();
    columns.next();
    columns.next();
    columns.next();
    match columns.next() {
        Some(fourth) => fourth == '-',
        None => false,
    }
}

/// Read one reply, following continuation lines.
pub fn read_reply(reader: &mut &[u8]) -> (reply: Result<(u16, String), TransportError>)
    ensures
        outcome(reply) == reply_from(old(reader)@, Seq::empty()).0,
        final(reader)@ == reply_from(old(reader)@, Seq::empty()).1,
{
    let mut heard = ReplyReader::new();
    loop
        invariant
            reply_from(reader@, heard@) == reply_from(old(reader)@, Seq::empty()),
        decreases reader@.len(),
    {
        proof {
            lemma_line_len(reader@);
        }
        let raw = take_line(reader);
        if let Some(code) = heard.hear(raw)? {
            return Ok((code, heard.into_text()));
        }
    }
}

/// Whether a reply lets a session go on: only the code `wanted` does. A code in
/// the four hundreds is a failure that may pass; any other is permanent.
pub open spec fn judged(code: u16, text: Seq<char>, wanted: u16, step: Seq<char>) -> Result<
    (),
    Fault,
> {
    if code == wanted {
        Ok(())
    } else {
        Err(
            Fault::Answered {
                message: step + ": the server answered "@ + text,
                retryable: 400 <= code < 500,
            },
        )
    }
}

/// The reply that `input` begins with, judged, and what of `input` follows it.
pub open spec fn expected(input: Seq<u8>, wanted: u16, step: Seq<char>) -> (
    Result<(), Fault>,
    Seq<u8>,
) {
    let (reply, rest) = reply_from(input, Seq::empty());
    match reply {
        Err(fault) => (Err(fault), rest),
        Ok((code, text)) => (judged(code, text, wanted, step), rest),
    }
}

/// Judge a reply that was read.
///
/// **SMTP runs the opposite way round from HTTP**: 4xx is the transient failure
/// and 5xx is the permanent one.
pub fn judge(code: u16, text: &str, wanted: u16, step: &str) -> (verdict: Result<
    (),
    TransportError,
>)
    ensures
        outcome(verdict) == judged(code, text@, wanted, step@),
{
    if code == wanted {
        return Ok(());
    }
    let mut message = step.to_owned();
    message.append(": the server answered ");
    message.append(text);
    Err(TransportError::Answered { message, retryable: 400 <= code && code < 500 })
}

/// Read one reply and insist on a particular code.
pub fn expect(reader: &mut &[u8], wanted: u16, step: &str) -> (verdict: Result<(), TransportError>)
    ensures
        outcome(verdict) == expected(old(reader)@, wanted, step@).0,
        final(reader)@ == expected(old(reader)@, wanted, step@).1,
{
    let (code, text) = read_reply(reader)?;
    judge(code, text.as_str(), wanted, step)
}

// ---------------------------------------------------------------------------
// Message data
// ---------------------------------------------------------------------------

/// A period.
pub const DOT: u8 = 46;

/// A line of a message as it is sent: a leading period is doubled, so that no
/// line of the message can be taken for the one that ends it.
pub open spec fn stuffed(line: Seq<u8>) -> Seq<u8> {
    if line.len() > 0 && line[0] == DOT {
        seq![DOT] + line
    } else {
        line
    }
}

/// The line that was sent as `line`.
pub open spec fn unstuffed(line: Seq<u8>) -> Seq<u8> {
    if line.len() >= 2 && line[0] == DOT && line[1] == DOT {
        line.skip(1)
    } else {
        line
    }
}

/// A message of which `held` arrived before, and `line` now. Line endings stand
/// between what arrived and what arrives, so a message never begins with an
/// empty line.
pub open spec fn with_line(held: Seq<u8>, line: Seq<u8>) -> Seq<u8> {
    if held.len() == 0 {
        line
    } else {
        held + crlf() + line
    }
}

/// What one more line makes of a message.
pub enum DataStep {
    /// The message goes on. What arrived of it so far.
    Partial { held: Seq<u8> },
    /// The line was the lone period that ends the message.
    Whole,
}

/// What the raw line `raw` makes of a message of which `held` arrived before. An
/// empty `raw` is a connection that closed. A message may have `max_body` bytes
/// and no more.
pub open spec fn data_step(held: Seq<u8>, raw: Seq<u8>, max_body: nat) -> Result<DataStep, Fault> {
    let line = without_eol(raw);
    let grown = with_line(held, unstuffed(line));
    if raw.len() == 0 {
        Err(Fault::Protocol { what: "a connection that closed inside DATA"@ })
    } else if line == seq![DOT] {
        Ok(DataStep::Whole)
    } else if grown.len() > max_body {
        Err(Fault::Protocol { what: "a message over the size Xmip will read"@ })
    } else {
        Ok(DataStep::Partial { held: grown })
    }
}

/// The message that `input` begins with, `held` having arrived of it before, and
/// what of `input` follows it.
pub open spec fn data_from(input: Seq<u8>, held: Seq<u8>, max_body: nat) -> (
    Result<Seq<u8>, Fault>,
    Seq<u8>,
)
    decreases input.len(),
{
    let rest = after_line(input);
    match data_step(held, first_line(input), max_body) {
        Err(fault) => (Err(fault), rest),
        Ok(DataStep::Whole) => (Ok(held), rest),
        Ok(DataStep::Partial { held }) => {
            proof {
                lemma_line_len(input);
            }
            data_from(rest, held, max_body)
        },
    }
}

/// A message that is arriving, one raw line after the other.
pub struct DataReader {
    held: Vec<u8>,
    max_body: usize,
}

impl DataReader {
    /// What arrived of the message.
    pub closed spec fn held(&self) -> Seq<u8> {
        self.held@
    }

    /// How many bytes the message may have.
    pub closed spec fn max_body(&self) -> nat {
        self.max_body as nat
    }

    /// What arrived is no more than may arrive.
    pub open spec fn wf(&self) -> bool {
        self.held().len() <= self.max_body()
    }

    /// A message of which nothing arrived yet.
    pub fn new(max_body: usize) -> (data: Self)
        ensures
            data.wf(),
            data.held() == Seq::<u8>::empty(),
            data.max_body() == max_body,
    {
        DataReader { held: Vec::new(), max_body }
    }

    /// Take one raw line, empty where the connection closed. Gives whether the
    /// message is complete.
    pub fn hear(&mut self, raw: &[u8]) -> (heard: Result<bool, TransportError>)
        requires
            old(self).wf(),
        ensures
            final(self).wf(),
            final(self).max_body() == old(self).max_body(),
            match data_step(old(self).held(), raw@, old(self).max_body()) {
                Err(fault) => {
                    &&& heard matches Err(error) && error@ == fault
                    &&& final(self).held() == old(self).held()
                },
                Ok(DataStep::Whole) => {
                    &&& heard == Ok::<bool, TransportError>(true)
                    &&& final(self).held() == old(self).held()
                },
                Ok(DataStep::Partial { held }) => {
                    &&& heard == Ok::<bool, TransportError>(false)
                    &&& final(self).held() == held
                },
            },
    {
        if raw.is_empty() {
            return Err(protocol_error("a connection that closed inside DATA"));
        }
        let line = trim_eol(raw);
        if line.len() == 1 && line[0] == DOT {
            assert(line@ =~= seq![DOT]);
            return Ok(true);
        }
        let line = unstuff(line);
        let room: usize = self.max_body - self.held.len();
        let between: usize = if self.held.is_empty() {
            0
        } else {
            2
        };
        if room < between || line.len() > room - between {
            return Err(protocol_error("a message over the size Xmip will read"));
        }
        if !self.held.is_empty() {
            self.held.push(CR);
            self.held.push(LF);
        }
        self.held.extend_from_slice(line);
        assert(self.held@ =~= with_line(old(self).held@, line@));
        Ok(false)
    }

    /// What arrived of the message.
    pub fn into_bytes(self) -> (bytes: Vec<u8>)
        ensures
            bytes@ == self.held(),
    {
        self.held
    }
}

/// A line the sender stuffed with a leading period, unstuffed.
pub fn unstuff(line: &[u8]) -> (plain: &[u8])
    ensures
        plain@ == unstuffed(line@),
{
    if line.len() >= 2 && line[0] == DOT && line[1] == DOT {
        slice_subrange(line, 1, line.len())
    } else {
        line
    }
}

/// Read a DATA payload, undoing the dot-stuffing that protects a leading period.
pub fn read_data(reader: &mut &[u8], max_body: usize) -> (data: Result<Vec<u8>, TransportError>)
    ensures
        outcome(data) == data_from(old(reader)@, Seq::empty(), max_body as nat).0,
        final(reader)@ == data_from(old(reader)@, Seq::empty(), max_body as nat).1,
        data matches Ok(bytes) ==> bytes@.len() <= max_body,
{
    let mut data = DataReader::new(max_body);
    loop
        invariant
            data.wf(),
            data.max_body() == max_body,
            data_from(reader@, data.held(), max_body as nat) == data_from(
                old(reader)@,
                Seq::empty(),
                max_body as nat,
            ),
        decreases reader@.len(),
    {
        proof {
            lemma_line_len(reader@);
        }
        let raw = take_line(reader);
        if data.hear(raw)? {
            return Ok(data.into_bytes());
        }
    }
}

/// Write one line of a message body, stuffing a leading period.
///
/// A line that starts with a period would otherwise end the message early.
pub fn write_stuffed(stream: &mut Vec<u8>, line: &[u8])
    ensures
        final(stream)@ == old(stream)@ + stuffed(line@) + crlf(),
{
    if line.len() > 0 && line[0] == DOT {
        stream.push(DOT);
    }
    stream.extend_from_slice(line);
    stream.push(CR);
    stream.push(LF);
    assert(stream@ =~= old(stream)@ + stuffed(line@) + crlf());
}

} // verus!
