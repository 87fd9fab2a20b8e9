//! Accepting one message. Enough of RFC 5321 and no more.

use vstd::prelude::*;
use vstd::utf8::{decode_utf8, valid_utf8};

use crate::error::{outcome, Fault, TransportError};
use crate::session::{data_step, say, spoken, DataReader, DataStep, Next};
use crate::text::{first_word, same, upper, word};
use crate::wire::{
    after_line, first_line, lemma_line_len, lemma_without_eol_utf8, take_line, text_of, trim_eol,
    without_eol,
};

verus! {

/// A message that arrived, and where it came from.
pub struct Arrived {
    pub origin_uri: String,
    pub bytes: Vec<u8>,
}

/// The mathematical content of an [`Arrived`].
pub struct Delivery {
    pub origin_uri: Seq<char>,
    pub bytes: Seq<u8>,
}

impl View for Arrived {
    type V = Delivery;

    open spec fn view(&self) -> Delivery {
        Delivery { origin_uri: self.origin_uri@, bytes: self.bytes@ }
    }
}

/// Where a conversation stands.
pub struct State {
    /// The last message that was accepted, empty where none was.
    pub held: Seq<u8>,
    /// Inside DATA, what arrived of the message so far.
    pub incoming: Option<Seq<u8>>,
}

/// A conversation in which nothing was said.
pub open spec fn opened() -> State {
    State { held: Seq::empty(), incoming: None }
}

/// The verb of the command in the raw line `raw`: its first word, in upper case,
/// empty for a blank line. There is none where the client hung up.
pub open spec fn verb_of(raw: Seq<u8>) -> Result<Option<Seq<char>>, Fault> {
    if raw.len() == 0 {
        Ok(None)
    } else if !valid_utf8(raw) {
        Err(Fault::NotText { step: "reading a command"@ })
    } else {
        Ok(Some(upper(first_word(decode_utf8(without_eol(raw))))))
    }
}

/// What is said in answer to a verb, if anything.
pub open spec fn answer_to(verb: Seq<char>) -> Option<Seq<char>> {
    if verb == ""@ {
        None
    } else if verb == "HELO"@ {
        Some("250 xmip"@)
    } else if verb == "EHLO"@ {
        Some("250-xmip\r\n250 8BITMIME"@)
    } else if verb == "MAIL"@ || verb == "RCPT"@ || verb == "RSET"@ || verb == "NOOP"@ {
        Some("250 ok"@)
    } else if verb == "DATA"@ {
        Some("354 end with a line containing only a period"@)
    } else if verb == "QUIT"@ {
        Some("221 closing"@)
    } else {
        Some("502 not implemented"@)
    }
}

/// What a line that may not be said puts on the wire.
pub open spec fn spoken_if(line: Option<Seq<char>>) -> Seq<u8> {
    match line {
        Some(line) => spoken(line),
        None => Seq::empty(),
    }
}

/// Where a conversation stands after the answer to a verb, and whether it goes
/// on. The envelope leaves no trace; only DATA changes anything.
pub open spec fn answered(state: State, verb: Seq<char>) -> (State, Next) {
    if verb == "DATA"@ {
        (State { incoming: Some(Seq::empty()), ..state }, Next::Continue)
    } else if verb == "QUIT"@ {
        (state, Next::Done)
    } else {
        (state, Next::Continue)
    }
}

/// What the raw line `raw` makes of a conversation, and what is said to it. An
/// empty `raw` is a client that hung up.
pub open spec fn turn(state: State, raw: Seq<u8>, max_body: nat) -> (
    Result<(State, Next), Fault>,
    Seq<u8>,
) {
    match state.incoming {
        Some(incoming) => match data_step(incoming, raw, max_body) {
            Err(fault) => (Err(fault), Seq::empty()),
            Ok(DataStep::Partial { held }) => (
                Ok((State { incoming: Some(held), ..state }, Next::Continue)),
                Seq::empty(),
            ),
            Ok(DataStep::Whole) => (
                Ok((State { held: incoming, incoming: None }, Next::Continue)),
                spoken("250 accepted"@),
            ),
        },
        None => match verb_of(raw) {
            Err(fault) => (Err(fault), Seq::empty()),
            Ok(None) => (Ok((state, Next::Done)), Seq::empty()),
            Ok(Some(verb)) => (Ok(answered(state, verb)), spoken_if(answer_to(verb))),
        },
    }
}

/// How a conversation in `state` goes on where the client sends `input`: the
/// message it delivers, what is said, and what of `input` is left unread.
pub open spec fn conversation(state: State, input: Seq<u8>, max_body: nat) -> (
    Result<Seq<u8>, Fault>,
    Seq<u8>,
    Seq<u8>,
)
    decreases input.len(),
{
    let rest = after_line(input);
    let (result, said) = turn(state, first_line(input), max_body);
    match result {
        Err(fault) => (Err(fault), said, rest),
        Ok((state, Next::Done)) => (Ok(state.held), said, rest),
        Ok((state, Next::Continue)) => {
            proof {
                lemma_line_len(input);
            }
            let (message, more, rest) = conversation(state, rest, max_body);
            (message, said + more, rest)
        },
    }
}

/// The verbs are told apart by their letters.
pub proof fn lemma_verbs()
    ensures
        "EHLO"@ == seq!['E', 'H', 'L', 'O'],
        "MAIL"@ == seq!['M', 'A', 'I', 'L'],
        "RCPT"@ == seq!['R', 'C', 'P', 'T'],
        "DATA"@ == seq!['D', 'A', 'T', 'A'],
        "QUIT"@ == seq!['Q', 'U', 'I', 'T'],
        answer_to("EHLO"@) == Some("250-xmip\r\n250 8BITMIME"@),
        answer_to("MAIL"@) == Some("250 ok"@),
        answer_to("RCPT"@) == Some("250 ok"@),
        answer_to("DATA"@) == Some("354 end with a line containing only a period"@),
        answer_to("QUIT"@) == Some("221 closing"@),
        forall|verb: Seq<char>|
            #![trigger answer_to(verb)]
            verb == "DATA"@ || verb == "QUIT"@ ==> verb != ""@ && verb != "HELO"@ && verb
                != "EHLO"@ && verb != "MAIL"@ && verb != "RCPT"@ && verb != "RSET"@ && verb
                != "NOOP"@,
        "DATA"@ != "QUIT"@,
{
    reveal_strlit("");
    reveal_strlit("HELO");
    reveal_strlit("EHLO");
    reveal_strlit("MAIL");
    reveal_strlit("RCPT");
    reveal_strlit("RSET");
    reveal_strlit("NOOP");
    reveal_strlit("DATA");
    reveal_strlit("QUIT");
    assert("EHLO"@ =~= seq!['E', 'H', 'L', 'O']);
    assert("MAIL"@ =~= seq!['M', 'A', 'I', 'L']);
    assert("RCPT"@ =~= seq!['R', 'C', 'P', 'T']);
    assert("DATA"@ =~= seq!['D', 'A', 'T', 'A']);
    assert("QUIT"@ =~= seq!['Q', 'U', 'I', 'T']);
    assert(""@.len() == 0 && "HELO"@[0] == 'H' && "NOOP"@[0] == 'N' && "RSET"@[0] == 'R');
}

/// The next command's verb, or `None` where the client hung up.
pub fn next_verb(raw: &[u8]) -> (verb: Result<Option<String>, TransportError>)
    ensures
        match verb_of(raw@) {
            Err(fault) => verb matches Err(error) && error@ == fault,
            Ok(None) => verb == Ok::<Option<String>, TransportError>(None),
            Ok(Some(text)) => verb matches Ok(Some(verb)) && verb@ == text,
        },
{
    if raw.is_empty() {
        return Ok(None);
    }
    proof {
        lemma_without_eol_utf8(raw@);
    }
    match text_of(trim_eol(raw)) {
        Some(command) => Ok(Some(word(command).to_ascii_uppercase())),
        None => Err(TransportError::NotText { step: "reading a command" }),
    }
}

/// A conversation with a client that is sending a message.
pub struct Conversation {
    held: Vec<u8>,
    incoming: Option<DataReader>,
    max_body: usize,
}

impl View for Conversation {
    type V = State;

    closed spec fn view(&self) -> State {
        State {
            held: self.held@,
            incoming: match self.incoming {
                Some(data) => Some(data.held()),
                None => None,
            },
        }
    }
}

impl Conversation {
    /// How many bytes a message may have.
    pub closed spec fn max_body(&self) -> nat {
        self.max_body as nat
    }

    /// A message that is arriving has the size limit of the conversation, and
    /// keeps to it.
    pub closed spec fn wf(&self) -> bool {
        self.incoming matches Some(data) ==> data.wf() && data.max_body() == self.max_body
    }

    /// Greet a client that connected.
    pub fn open(stream: &mut Vec<u8>, max_body: usize) -> (conversation: Self)
        ensures
            conversation.wf(),
            conversation@ == opened(),
            conversation.max_body() == max_body,
            final(stream)@ == old(stream)@ + spoken("220 xmip ESMTP"@),
    {
        say(stream, "220 xmip ESMTP");
        Self::greeted(max_body)
    }

    /// A conversation after the greeting.
    pub fn greeted(max_body: usize) -> (conversation: Self)
        ensures
            conversation.wf(),
            conversation@ == opened(),
            conversation.max_body() == max_body,
    {
        let held: Vec<u8> = Vec::new();
        assert(held@ =~= Seq::empty());
        Conversation { held, incoming: None, max_body }
    }

    /// What reading the next line is called where it fails.
    pub fn step(&self) -> (step: &'static str)
        ensures
            step@ == if self@.incoming is Some {
                "reading the message data"@
            } else {
                "reading a command"@
            },
    {
        if self.incoming.is_some() {
            "reading the message data"
        } else {
            "reading a command"
        }
    }

    /// Take one raw line from the client, empty where it hung up, and answer it.
    /// A failure leaves the conversation where it was.
    pub fn hear(&mut self, stream: &mut Vec<u8>, raw: &[u8]) -> (next: Result<Next, TransportError>)
        requires
            old(self).wf(),
        ensures
            final(self).wf(),
            final(self).max_body() == old(self).max_body(),
            final(stream)@ == old(stream)@ + turn(old(self)@, raw@, old(self).max_body()).1,
            match turn(old(self)@, raw@, old(self).max_body()).0 {
                Err(fault) => {
                    &&& next matches Err(error) && error@ == fault
                    &&& final(self)@ == old(self)@
                },
                Ok((state, then)) => {
                    &&& next == Ok::<Next, TransportError>(then)
                    &&& final(self)@ == state
                },
            },
    {
        assert(stream@ =~= stream@ + Seq::empty());
        match self.incoming.take() {
            Some(mut data) => match data.hear(raw) {
                Err(error) => {
                    self.incoming = Some(data);
                    Err(error)
                },
                Ok(false) => {
                    self.incoming = Some(data);
                    Ok(Next::Continue)
                },
                Ok(true) => {
                    self.held = data.into_bytes();
                    say(stream, "250 accepted");
                    Ok(Next::Continue)
                },
            },
            None => match next_verb(raw)? {
                None => Ok(Next::Done),
                Some(verb) => Ok(self.answer(stream, verb.as_str())),
            },
        }
    }

    /// Answer one command.
    fn answer(&mut self, stream: &mut Vec<u8>, verb: &str) -> (next: Next)
        requires
            old(self).wf(),
            old(self)@.incoming is None,
        ensures
            final(self).wf(),
            final(self).max_body() == old(self).max_body(),
            (final(self)@, next) == answered(old(self)@, verb@),
            final(stream)@ == old(stream)@ + spoken_if(answer_to(verb@)),
    {
        assert(stream@ =~= stream@ + Seq::empty());
        proof {
            lemma_verbs();
        }
        if same(verb, "") {
            Next::Continue
        } else if same(verb, "HELO") {
            say(stream, "250 xmip");
            Next::Continue
        } else if same(verb, "EHLO") {
            say(stream, "250-xmip\r\n250 8BITMIME");
            Next::Continue
        } else if same(verb, "MAIL") || same(verb, "RCPT") || same(verb, "RSET") || same(
            verb,
            "NOOP",
        ) {
            say(stream, "250 ok");
            Next::Continue
        } else if same(verb, "DATA") {
            say(stream, "354 end with a line containing only a period");
            self.incoming = Some(DataReader::new(self.max_body));
            Next::Continue
        } else if same(verb, "QUIT") {
            say(stream, "221 closing");
            Next::Done
        } else {
            say(stream, "502 not implemented");
            Next::Continue
        }
    }

    /// The last message that was accepted.
    pub fn into_message(self) -> (message: Vec<u8>)
        ensures
            message@ == self@.held,
    {
        self.held
    }
}

/// Answer commands until the client leaves, from wherever the conversation
/// stands, and hand back what it sent.
fn carry_on(session: Conversation, stream: &mut Vec<u8>, reader: &mut &[u8]) -> (message: Result<
    Vec<u8>,
    TransportError,
>)
    requires
        session.wf(),
    ensures
        outcome(message) == conversation(session@, old(reader)@, session.max_body()).0,
        final(stream)@ == old(stream)@ + conversation(
            session@,
            old(reader)@,
            session.max_body(),
        ).1,
        final(reader)@ == conversation(session@, old(reader)@, session.max_body()).2,
{
    let ghost max_body = session.max_body();
    let ghost whole = conversation(session@, reader@, max_body);
    let mut talk = session;
    loop
        invariant
            talk.wf(),
            max_body == session.max_body(),
            whole == conversation(session@, old(reader)@, max_body),
            talk.max_body() == max_body,
            ({
                let (message, said, rest) = conversation(talk@, reader@, max_body);
                &&& whole.0 == message
                &&& stream@ + said == old(stream)@ + whole.1
                &&& whole.2 == rest
            }),
        decreases reader@.len(),
    {
        proof {
            lemma_line_len(reader@);
            let (result, said) = turn(talk@, first_line(reader@), max_body);
            if let Ok((state, Next::Continue)) = result {
                let more = conversation(state, after_line(reader@), max_body).1;
                assert(stream@ + (said + more) =~= (stream@ + said) + more);
            }
        }
        let raw = take_line(reader);
        match talk.hear(stream, raw)? {
            Next::Continue => (),
            Next::Done => {
                return Ok(talk.into_message());
            },
        }
    }
}

/// Answer commands until the client leaves, and hand back what it sent.
pub fn converse(stream: &mut Vec<u8>, reader: &mut &[u8], max_body: usize) -> (message: Result<
    Vec<u8>,
    TransportError,
>)
    ensures
        outcome(message) == conversation(opened(), old(reader)@, max_body as nat).0,
        final(stream)@ == old(stream)@ + conversation(opened(), old(reader)@, max_body as nat).1,
        final(reader)@ == conversation(opened(), old(reader)@, max_body as nat).2,
{
    carry_on(Conversation::greeted(max_body), stream, reader)
}

/// What becomes of one connection from `peer` on which `input` comes: the message
/// with where it came from, what is said, and what of `input` is left unread.
pub open spec fn accepted(peer: Seq<char>, input: Seq<u8>, max_body: nat) -> (
    Result<Delivery, Fault>,
    Seq<u8>,
    Seq<u8>,
) {
    let (message, said, rest) = conversation(opened(), input, max_body);
    (
        match message {
            Err(fault) => Err(fault),
            Ok(bytes) => Ok(Delivery { origin_uri: "smtp://"@ + peer, bytes }),
        },
        spoken("220 xmip ESMTP"@) + said,
        rest,
    )
}

/// A message with where it came from.
pub fn arrived(peer: &str, bytes: Vec<u8>) -> (arrived: Arrived)
    ensures
        arrived@ == (Delivery { origin_uri: "smtp://"@ + peer@, bytes: bytes@ }),
{
    let mut origin_uri = "smtp://".to_owned();
    origin_uri.append(peer);
    Arrived { origin_uri, bytes }
}

/// Take one message from one connection.
///
/// `MAIL FROM` is a *passed* identity and belongs at the identification gate, so
/// this answers it and keeps nothing. [`Arrived`] carries where the bytes came
/// from, and the envelope is not that.
pub fn accept_one(
    peer: &str,
    stream: &mut Vec<u8>,
    reader: &mut &[u8],
    max_body: usize,
) -> (taken: Result<Arrived, TransportError>)
    ensures
        outcome(taken) == accepted(peer@, old(reader)@, max_body as nat).0,
        final(stream)@ == old(stream)@ + accepted(peer@, old(reader)@, max_body as nat).1,
        final(reader)@ == accepted(peer@, old(reader)@, max_body as nat).2,
{
    let session = Conversation::open(stream, max_body);
    let ghost said = conversation(opened(), reader@, max_body as nat).1;
    assert(stream@ + said =~= old(stream)@ + (spoken("220 xmip ESMTP"@) + said));
    let bytes = carry_on(session, stream, reader)?;
    Ok(arrived(peer, bytes))
}

} // verus!
