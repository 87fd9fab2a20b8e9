//! Relaying one message, one step at a time.

use vstd::prelude::*;

use crate::error::{outcome, Fault, TransportError};
use crate::session::{
    expected, judge, judged, reply_from, reply_step, say, spoken, stuffed, write_stuffed, Next,
    ReplyReader, ReplyStep,
};
use crate::text::{after_prefix, holds};
use crate::wire::{
    after_line, crlf, first_line, lemma_line_len, take_line, trim_eol, without_eol, LF,
};

verus! {

/// One mailbox to deliver to.
///
/// Its own type so that "is this even a mailbox" is answered once, before a
/// connection is opened, rather than by the relay after a round trip.
#[derive(Debug, Eq, PartialEq)]
pub struct Recipient(String);

impl View for Recipient {
    type V = Seq<char>;

    closed spec fn view(&self) -> Seq<char> {
        self.0@
    }
}

impl Clone for Recipient {
    fn clone(&self) -> (copy: Self)
        ensures
            copy@ == self@,
    {
        proof {
            use_type_invariant(self);
        }
        Recipient(self.0.clone())
    }
}

/// What a target names: the target itself, or what follows `mailto:` in it.
pub open spec fn addressee(target: Seq<char>) -> Seq<char> {
    if "mailto:"@.is_prefix_of(target) {
        target.skip("mailto:"@.len() as int)
    } else {
        target
    }
}

/// The mailbox that a target names. `mailto:` is optional; an `@` is not.
pub open spec fn mailbox_of(target: Seq<char>) -> Result<Seq<char>, Fault> {
    if addressee(target).contains('@') {
        Ok(addressee(target))
    } else {
        Err(Fault::Protocol { what: "an smtp target must be a mailbox — got "@ + target })
    }
}

impl Recipient {
    /// Every recipient is a mailbox.
    #[verifier::type_invariant]
    spec fn is_mailbox(self) -> bool {
        self.0@.contains('@')
    }

    /// The mailbox that a target names, where it names one.
    pub fn parse(target: &str) -> (recipient: Result<Self, TransportError>)
        ensures
            outcome(recipient) == mailbox_of(target@),
    {
        let mailbox = match after_prefix(target, "mailto:") {
            Some(mailbox) => mailbox,
            None => target,
        };
        if !holds(mailbox, '@') {
            let mut what = "an smtp target must be a mailbox — got ".to_owned();
            what.append(target);
            return Err(TransportError::Protocol { what });
        }
        Ok(Recipient(mailbox.to_owned()))
    }

    /// The mailbox itself.
    #[must_use]
    pub fn mailbox(&self) -> (mailbox: &str)
        ensures
            mailbox@ == self@,
            mailbox@.contains('@'),
    {
        proof {
            use_type_invariant(self);
        }
        self.0.as_str()
    }
}

/// One step of a delivery: what is said, and the reply that it takes to go on.
pub struct Exchange {
    /// What is said, as it goes over the wire.
    pub say: Vec<u8>,
    /// The only code that lets the delivery go on.
    pub wanted: u16,
    /// What the step is called where it fails.
    pub step: &'static str,
}

/// The mathematical content of an [`Exchange`].
pub struct Step {
    pub say: Seq<u8>,
    pub wanted: u16,
    pub step: Seq<char>,
}

impl View for Exchange {
    type V = Step;

    open spec fn view(&self) -> Step {
        Step { say: self.say@, wanted: self.wanted, step: self.step@ }
    }
}

/// The steps from the greeting through to `DATA`: who is sending, to whom.
pub open spec fn envelope_steps(from: Seq<char>, mailbox: Seq<char>) -> Seq<Step> {
    seq![
        Step { say: Seq::empty(), wanted: 220, step: "the greeting"@ },
        Step { say: spoken("EHLO xmip"@), wanted: 250, step: "EHLO"@ },
        Step { say: spoken("MAIL FROM:<"@ + from + ">"@), wanted: 250, step: "MAIL FROM"@ },
        Step { say: spoken("RCPT TO:<"@ + mailbox + ">"@), wanted: 250, step: "RCPT TO"@ },
        Step { say: spoken("DATA"@), wanted: 354, step: "DATA"@ },
    ]
}

/// A message as it goes over the wire: its lines, which line feeds separate, each
/// without its line ending, stuffed, and terminated as the protocol requires.
pub open spec fn body_wire(message: Seq<u8>) -> Seq<u8>
    decreases message.len(),
{
    let line = stuffed(without_eol(first_line(message))) + crlf();
    if message.contains(LF) {
        proof {
            lemma_line_len(message);
        }
        line + body_wire(after_line(message))
    } else {
        line
    }
}

/// The step that hands over the message: the message itself, and the lone period
/// that ends it.
pub open spec fn delivery_step(message: Seq<u8>) -> Step {
    Step { say: body_wire(message) + spoken("."@), wanted: 250, step: "the end of data"@ }
}

/// All the steps of a delivery. Once the last is answered as it should be, the
/// message is delivered.
pub open spec fn delivery_steps(from: Seq<char>, mailbox: Seq<char>, message: Seq<u8>) -> Seq<
    Step,
> {
    envelope_steps(from, mailbox).push(delivery_step(message))
}

/// How far a delivery gets where the server sends `input`: whether every step was
/// answered as it should be, what is said, and what of `input` is left unread.
pub open spec fn played(steps: Seq<Step>, input: Seq<u8>) -> (Result<(), Fault>, Seq<u8>, Seq<u8>)
    decreases steps.len(),
{
    if steps.len() == 0 {
        (Ok(()), Seq::empty(), input)
    } else {
        let (verdict, rest) = expected(input, steps[0].wanted, steps[0].step);
        match verdict {
            Err(fault) => (Err(fault), steps[0].say, rest),
            Ok(()) => {
                let (verdict, more, rest) = played(steps.skip(1), rest);
                (verdict, steps[0].say + more, rest)
            },
        }
    }
}

/// What becomes of one message where the relay sends `input`: whether it was
/// delivered, what is said, and what of `input` is left unread. Once delivered,
/// it stays delivered, whatever comes of the goodbye.
pub open spec fn relayed(
    from: Seq<char>,
    target: Seq<char>,
    message: Seq<u8>,
    input: Seq<u8>,
) -> (Result<(), Fault>, Seq<u8>, Seq<u8>) {
    match mailbox_of(target) {
        Err(fault) => (Err(fault), Seq::empty(), input),
        Ok(mailbox) => {
            let (verdict, said, rest) = played(delivery_steps(from, mailbox, message), input);
            match verdict {
                Err(fault) => (Err(fault), said, rest),
                Ok(()) => (
                    Ok(()),
                    said + spoken("QUIT"@),
                    reply_from(rest, Seq::empty()).1,
                ),
            }
        },
    }
}

/// A command that holds an address.
fn command(before: &str, address: &str) -> (say: Vec<u8>)
    ensures
        say@ == spoken(before@ + address@ + ">"@),
{
    let mut line = before.to_owned();
    line.append(address);
    line.append(">");
    let mut said: Vec<u8> = Vec::new();
    say(&mut said, line.as_str());
    assert(said@ =~= spoken(line@));
    said
}

/// A command on its own.
fn bare(line: &str) -> (say: Vec<u8>)
    ensures
        say@ == spoken(line@),
{
    let mut said: Vec<u8> = Vec::new();
    say(&mut said, line);
    assert(said@ =~= spoken(line@));
    said
}

/// Greeting through to `DATA`: who is sending, to whom.
pub fn envelope(from: &str, recipient: &Recipient) -> (steps: Vec<Exchange>)
    ensures
        steps@.map_values(|exchange: Exchange| exchange@) == envelope_steps(from@, recipient@),
{
    let silence: Vec<u8> = Vec::new();
    assert(silence@ =~= Seq::empty());
    let steps = vec![
        Exchange { say: silence, wanted: 220, step: "the greeting" },
        Exchange { say: bare("EHLO xmip"), wanted: 250, step: "EHLO" },
        Exchange { say: command("MAIL FROM:<", from), wanted: 250, step: "MAIL FROM" },
        Exchange { say: command("RCPT TO:<", recipient.mailbox()), wanted: 250, step: "RCPT TO" },
        Exchange { say: bare("DATA"), wanted: 354, step: "DATA" },
    ];
    assert(steps@.map_values(|exchange: Exchange| exchange@) =~= envelope_steps(
        from@,
        recipient@,
    ));
    steps
}

/// The message itself, one line at a time, periods stuffed.
pub fn body(stream: &mut Vec<u8>, bytes: &[u8])
    ensures
        final(stream)@ == old(stream)@ + body_wire(bytes@),
{
    let mut rest: &[u8] = bytes;
    loop
        invariant
            stream@ + body_wire(rest@) == old(stream)@ + body_wire(bytes@),
        decreases rest@.len(),
    {
        let ghost message = rest@;
        let ghost before = stream@;
        proof {
            lemma_line_len(message);
        }
        let raw = take_line(&mut rest);
        write_stuffed(stream, trim_eol(raw));
        let ghost line = stuffed(without_eol(raw@)) + crlf();
        assert(stream@ =~= before + line);
        if raw.is_empty() || raw[raw.len() - 1] != LF {
            assert(!message.contains(LF));
            return;
        }
        proof {
            assert(message[raw@.len() - 1] == LF);
            assert(stream@ + body_wire(rest@) =~= before + (line + body_wire(rest@)));
        }
    }
}

/// All the steps of a delivery, to be taken one after the other.
pub fn steps(from: &str, recipient: &Recipient, bytes: &[u8]) -> (steps: Vec<Exchange>)
    ensures
        steps@.map_values(|exchange: Exchange| exchange@) == delivery_steps(
            from@,
            recipient@,
            bytes@,
        ),
{
    let mut steps = envelope(from, recipient);
    let ghost before = steps@;
    let mut handover: Vec<u8> = Vec::new();
    body(&mut handover, bytes);
    say(&mut handover, ".");
    assert(handover@ =~= body_wire(bytes@) + spoken("."@));
    steps.push(Exchange { say: handover, wanted: 250, step: "the end of data" });
    assert(steps@.map_values(|exchange: Exchange| exchange@) =~= before.map_values(
        |exchange: Exchange| exchange@,
    ).push(delivery_step(bytes@)));
    steps
}

/// What is said once the message is delivered. The goodbye that answers it is
/// waited for, so that the server is not still writing when the connection
/// closes, but nothing depends on it.
pub fn farewell() -> (say: Vec<u8>)
    ensures
        say@ == spoken("QUIT"@),
{
    bare("QUIT")
}

/// Where a delivery stands.
pub struct Progress {
    /// The steps whose replies did not come yet, the first of which was taken. Once
    /// there are none, the message is delivered, and the goodbye is waited for.
    pub left: Seq<Step>,
    /// What was heard of the reply that is coming.
    pub heard: Seq<char>,
}

/// What is said to take the first of the steps that are left. After the last comes
/// the goodbye.
pub open spec fn opening(left: Seq<Step>) -> Seq<u8> {
    if left.len() == 0 {
        spoken("QUIT"@)
    } else {
        left[0].say
    }
}

/// What the raw line `raw` makes of a delivery: whether it goes on, where it stands
/// then, and what is said. An empty `raw` is a server that hung up. A step that is
/// not answered as it should be fails the delivery; a goodbye does not, whatever it
/// is.
pub open spec fn progressed(progress: Progress, raw: Seq<u8>) -> (
    Result<Next, Fault>,
    Progress,
    Seq<u8>,
) {
    let Progress { left, heard } = progress;
    match reply_step(heard, raw) {
        Ok(ReplyStep::Partial { text }) => (
            Ok(Next::Continue),
            Progress { left, heard: text },
            Seq::empty(),
        ),
        Err(fault) => if left.len() == 0 {
            (Ok(Next::Done), progress, Seq::empty())
        } else {
            (Err(fault), progress, Seq::empty())
        },
        Ok(ReplyStep::Whole { code, text }) => if left.len() == 0 {
            (Ok(Next::Done), Progress { left, heard: Seq::empty() }, Seq::empty())
        } else {
            match judged(code, text, left[0].wanted, left[0].step) {
                Err(fault) => (Err(fault), Progress { left, heard: Seq::empty() }, Seq::empty()),
                Ok(()) => (
                    Ok(Next::Continue),
                    Progress { left: left.skip(1), heard: Seq::empty() },
                    opening(left.skip(1)),
                ),
            }
        },
    }
}

/// How a delivery goes on, line by line, where the server sends `input`: whether the
/// message is delivered, what is said, and what of `input` is left unread.
pub open spec fn carried(progress: Progress, input: Seq<u8>) -> (
    Result<(), Fault>,
    Seq<u8>,
    Seq<u8>,
)
    decreases input.len(),
{
    let rest = after_line(input);
    let (next, progress, said) = progressed(progress, first_line(input));
    match next {
        Err(fault) => (Err(fault), said, rest),
        Ok(Next::Done) => (Ok(()), said, rest),
        Ok(Next::Continue) => {
            proof {
                lemma_line_len(input);
            }
            let (verdict, more, rest) = carried(progress, rest);
            (verdict, said + more, rest)
        },
    }
}

/// Hearing one reply line by line comes to the same as reading it.
proof fn lemma_carried_over_a_reply(progress: Progress, input: Seq<u8>)
    ensures
        ({
            let (reply, rest) = reply_from(input, progress.heard);
            carried(progress, input) == if progress.left.len() == 0 {
                (Ok::<(), Fault>(()), Seq::<u8>::empty(), rest)
            } else {
                match reply {
                    Err(fault) => (Err::<(), Fault>(fault), Seq::<u8>::empty(), rest),
                    Ok((code, text)) => match judged(
                        code,
                        text,
                        progress.left[0].wanted,
                        progress.left[0].step,
                    ) {
                        Err(fault) => (Err::<(), Fault>(fault), Seq::<u8>::empty(), rest),
                        Ok(()) => {
                            let left = progress.left.skip(1);
                            let (verdict, said, unread) = carried(
                                Progress { left, heard: Seq::empty() },
                                rest,
                            );
                            (verdict, opening(left) + said, unread)
                        },
                    },
                }
            }
        }),
    decreases input.len(),
{
    lemma_line_len(input);
    let rest = after_line(input);
    if let Ok(ReplyStep::Partial { text }) = reply_step(progress.heard, first_line(input)) {
        let next = Progress { left: progress.left, heard: text };
        lemma_carried_over_a_reply(next, rest);
        let said = carried(next, rest).1;
        assert(Seq::<u8>::empty() + said =~= said);
    }
}

/// Hearing a server line by line comes to the same as taking one step after the
/// other, and the goodbye last.
pub proof fn lemma_carried_is_played(left: Seq<Step>, input: Seq<u8>)
    ensures
        ({
            let (verdict, said, rest) = played(left, input);
            let (outcome, more, unread) = carried(Progress { left, heard: Seq::empty() }, input);
            &&& outcome == verdict
            &&& opening(left) + more == if verdict is Ok {
                said + spoken("QUIT"@)
            } else {
                said
            }
            &&& unread == if verdict is Ok {
                reply_from(rest, Seq::empty()).1
            } else {
                rest
            }
        }),
    decreases left.len(),
{
    let progress = Progress { left, heard: Seq::empty() };
    lemma_carried_over_a_reply(progress, input);
    let nothing = Seq::<u8>::empty();
    assert(opening(left) + nothing =~= opening(left));
    if left.len() == 0 {
        assert(nothing + spoken("QUIT"@) =~= spoken("QUIT"@));
    } else {
        let (verdict, rest) = expected(input, left[0].wanted, left[0].step);
        if verdict is Ok {
            let others = left.skip(1);
            lemma_carried_is_played(others, rest);
            let more = carried(Progress { left: others, heard: Seq::empty() }, rest).1;
            let said = played(others, rest).1;
            assert(left[0].say + (opening(others) + more) =~= opening(left) + (opening(others)
                + more));
            assert(left[0].say + (said + spoken("QUIT"@)) =~= (left[0].say + said) + spoken(
                "QUIT"@,
            ));
        }
    }
}

/// A delivery that is under way, hearing the server one raw line after the other.
pub struct Relaying {
    steps: Vec<Exchange>,
    taken: usize,
    reply: ReplyReader,
}

impl View for Relaying {
    type V = Progress;

    closed spec fn view(&self) -> Progress {
        Progress {
            left: self.steps@.map_values(|exchange: Exchange| exchange@).skip(self.taken as int),
            heard: self.reply@,
        }
    }
}

impl Relaying {
    /// No more steps were answered than there are.
    pub closed spec fn wf(&self) -> bool {
        self.taken <= self.steps@.len()
    }

    /// Begin to deliver one message: take the first step.
    pub fn open(stream: &mut Vec<u8>, from: &str, recipient: &Recipient, bytes: &[u8]) -> (delivery:
        Self)
        ensures
            delivery.wf(),
            delivery@ == (Progress {
                left: delivery_steps(from@, recipient@, bytes@),
                heard: Seq::empty(),
            }),
            final(stream)@ == old(stream)@ + opening(delivery_steps(from@, recipient@, bytes@)),
    {
        let delivery = Relaying {
            steps: steps(from, recipient, bytes),
            taken: 0,
            reply: ReplyReader::new(),
        };
        proof {
            let all = delivery.steps@.map_values(|exchange: Exchange| exchange@);
            assert(all.skip(0) =~= all);
        }
        delivery.take_step(stream);
        delivery
    }

    /// Say what takes the first of the steps that are left, or the goodbye.
    fn take_step(&self, stream: &mut Vec<u8>)
        requires
            self.wf(),
        ensures
            final(stream)@ == old(stream)@ + opening(self@.left),
    {
        if self.taken < self.steps.len() {
            assert(self@.left[0] == self.steps@[self.taken as int]@);
            stream.extend_from_slice(self.steps[self.taken].say.as_slice());
        } else {
            let goodbye = farewell();
            stream.extend_from_slice(goodbye.as_slice());
        }
        assert(stream@ =~= old(stream)@ + opening(self@.left));
    }

    /// Take one raw line from the server, empty where it hung up, and go on once a
    /// reply is complete. `Done` is a message that was delivered.
    pub fn hear(&mut self, stream: &mut Vec<u8>, raw: &[u8]) -> (next: Result<Next, TransportError>)
        requires
            old(self).wf(),
        ensures
            final(self).wf(),
            outcome(next) == progressed(old(self)@, raw@).0,
            final(self)@ == progressed(old(self)@, raw@).1,
            final(stream)@ == old(stream)@ + progressed(old(self)@, raw@).2,
    {
        assert(stream@ + Seq::empty() =~= stream@);
        let ended: bool = self.taken >= self.steps.len();
        assert(ended == (self@.left.len() == 0));
        let code = match self.reply.hear(raw) {
            Ok(Some(code)) => code,
            Ok(None) => return Ok(Next::Continue),
            Err(error) => {
                return if ended {
                    Ok(Next::Done)
                } else {
                    Err(error)
                };
            },
        };
        let mut reply = ReplyReader::new();
        core::mem::swap(&mut self.reply, &mut reply);
        if ended {
            return Ok(Next::Done);
        }
        let text = reply.into_text();
        let exchange = &self.steps[self.taken];
        assert(self@.left[0] == exchange@);
        judge(code, text.as_str(), exchange.wanted, exchange.step)?;
        self.taken = self.taken + 1;
        assert(self@.left =~= old(self)@.left.skip(1));
        self.take_step(stream);
        Ok(Next::Continue)
    }

    /// Whether the message is delivered and only the goodbye is waited for, so that a
    /// server that can no longer be heard is no failure to deliver.
    pub fn is_delivered(&self) -> (yes: bool)
        requires
            self.wf(),
        ensures
            yes == (self@.left.len() == 0),
    {
        self.taken >= self.steps.len()
    }

    /// What writing to the server is called where it fails: the last step is the
    /// one that hands over the message.
    pub fn writing(&self) -> (step: &'static str)
        requires
            self.wf(),
        ensures
            step@ == if self@.left.len() == 1 {
                "writing the message data"@
            } else {
                "writing a line"@
            },
    {
        if self.steps.len() - self.taken == 1 {
            "writing the message data"
        } else {
            "writing a line"
        }
    }
}

/// Relay one message through one server.
pub fn relay(
    stream: &mut Vec<u8>,
    reader: &mut &[u8],
    from: &str,
    target: &str,
    bytes: &[u8],
) -> (verdict: Result<(), TransportError>)
    ensures
        outcome(verdict) == relayed(from@, target@, bytes@, old(reader)@).0,
        final(stream)@ == old(stream)@ + relayed(from@, target@, bytes@, old(reader)@).1,
        final(reader)@ == relayed(from@, target@, bytes@, old(reader)@).2,
{
    assert(stream@ + Seq::empty() =~= stream@);
    let recipient = Recipient::parse(target)?;
    let ghost whole = relayed(from@, target@, bytes@, reader@);
    let ghost all = delivery_steps(from@, recipient@, bytes@);
    let mut delivery = Relaying::open(stream, from, &recipient, bytes);
    proof {
        lemma_carried_is_played(all, reader@);
        if let Ok(nothing) = played(all, reader@).0 {
            assert(nothing == ());
        }
        let more = carried(delivery@, reader@).1;
        assert(stream@ + more =~= old(stream)@ + (opening(all) + more));
    }
    loop
        invariant
            delivery.wf(),
            whole == relayed(from@, target@, bytes@, old(reader)@),
            ({
                let (verdict, said, rest) = carried(delivery@, reader@);
                &&& whole.0 == verdict
                &&& stream@ + said == old(stream)@ + whole.1
                &&& whole.2 == rest
            }),
        decreases reader@.len(),
    {
        proof {
            lemma_line_len(reader@);
            let (next, progress, said) = progressed(delivery@, first_line(reader@));
            let more = carried(progress, after_line(reader@)).1;
            assert(stream@ + (said + more) =~= (stream@ + said) + more);
        }
        let raw = take_line(reader);
        match delivery.hear(stream, raw)? {
            Next::Continue => (),
            Next::Done => {
                return Ok(());
            },
        }
    }
}

} // verus!
