//! Streams that arrive as mail. One message body is one Stream.
//!
//! **The envelope is addressing, not content.** The recipient is Send Location
//! configuration and the relay is where Xmip hands the message over. That split
//! is why a delivery takes a mailbox as its target and not a host.
//!
//! ```text
//! wire.rs        lines of bytes, and the text they carry
//! text.rs        words and cases
//! error.rs       what can go wrong
//! session.rs     saying and hearing one line at a time
//! server.rs      accepting one message
//! client.rs      relaying one message
//! laws.rs        what holds of sessions as a whole
//! plain.rs       what each part of a session does, in bytes and characters
//! ```
//!
//! Nothing here opens a connection. A session is given what was heard and says what
//! to say, either line by line, as [`server::Conversation`] and [`client::Relaying`] do,
//! or on all that the other side has to say at once.

pub mod client;
pub mod error;
pub mod laws;
pub mod plain;
pub mod server;
pub mod session;
pub mod text;
pub mod wire;

use std::time::Duration;
use vstd::prelude::*;

verus! {

/// Which ways a transport can carry a Stream.
#[derive(Clone, Copy, Debug, PartialEq, Eq)]
pub struct Directions {
    pub receives: bool,
    pub sends: bool,
}

/// How mail is received, or sent.
pub struct SmtpTransport {
    bind: String,
    relay: String,
    from: String,
    timeout: Option<Duration>,
}

/// The mathematical content of an [`SmtpTransport`].
pub struct Configuration {
    /// The address to receive on, empty for a sending transport.
    pub bind: Seq<char>,
    /// The server to relay through, empty for a receiving transport.
    pub relay: Seq<char>,
    /// The mailbox that sends, empty for a receiving transport.
    pub from: Seq<char>,
    /// When to give up on a connection.
    pub timeout: Option<Duration>,
}

impl View for SmtpTransport {
    type V = Configuration;

    closed spec fn view(&self) -> Configuration {
        Configuration {
            bind: self.bind@,
            relay: self.relay@,
            from: self.from@,
            timeout: self.timeout,
        }
    }
}

/// `String: From<&str>`, as its documentation has it: the characters are copied.
pub assume_specification<'a>[ <String as From<&'a str>>::from ](text: &str) -> (copy: String)
    ensures
        copy@ == text@,
;

/// `A: From<A>`, as its documentation has it: the value is handed back unchanged.
pub assume_specification<A>[ <A as From<A>>::from ](value: A) -> (kept: A)
    ensures
        kept == value,
;

/// Whether `value`, turned into a `String`, may read `text`.
pub open spec fn becomes<T: Into<String>>(value: T, text: Seq<char>) -> bool {
    exists|turned: String|
        call_ensures(Into::<String>::into, (value,), turned) && #[trigger] turned@ == text
}

impl SmtpTransport {
    /// A receiving transport. There is nothing to relay through.
    #[must_use]
    pub fn receiving(bind: impl Into<String>) -> (transport: Self)
        ensures
            becomes(bind, transport@.bind),
            transport@.relay == Seq::<char>::empty(),
            transport@.from == Seq::<char>::empty(),
            transport@.timeout is None,
    {
        SmtpTransport {
            bind: bind.into(),
            relay: String::new(),
            from: String::new(),
            timeout: None,
        }
    }

    /// A sending transport, relaying through one server as one sender.
    #[must_use]
    pub fn sending(relay: impl Into<String>, from: impl Into<String>) -> (transport: Self)
        ensures
            transport@.bind == Seq::<char>::empty(),
            becomes(relay, transport@.relay),
            becomes(from, transport@.from),
            transport@.timeout is None,
    {
        SmtpTransport {
            bind: String::new(),
            relay: relay.into(),
            from: from.into(),
            timeout: None,
        }
    }

    /// Give up on a connection that does not arrive, or stops sending.
    #[must_use]
    pub fn timing_out_after(self, timeout: Duration) -> (transport: Self)
        ensures
            transport@ == (Configuration { timeout: Some(timeout), ..self@ }),
    {
        SmtpTransport { timeout: Some(timeout), ..self }
    }

    /// The receiving end of a pair on this machine: an ephemeral local port, the
    /// timeout on the accept and on the reads. The session ends when the sender
    /// says QUIT or hangs up; the timeout is for when it does neither.
    #[must_use]
    pub fn loopback(timeout: Duration) -> (transport: Self)
        ensures
            transport@ == (Configuration {
                bind: "127.0.0.1:0"@,
                relay: Seq::empty(),
                from: Seq::empty(),
                timeout: Some(timeout),
            }),
    {
        Self::receiving("127.0.0.1:0").timing_out_after(timeout)
    }

    /// The sending end of a pair on this machine, relaying to the receiving end at
    /// `address`.
    #[must_use]
    pub fn loopback_sender(address: &str, timeout: Duration) -> (transport: Self)
        ensures
            transport@ == (Configuration {
                bind: Seq::empty(),
                relay: address@,
                from: "xmip@example.com"@,
                timeout: Some(timeout),
            }),
    {
        Self::sending(address, "xmip@example.com").timing_out_after(timeout)
    }

    /// The mailbox that the sending end of a pair on this machine sends to.
    #[must_use]
    pub fn loopback_target() -> (target: &'static str)
        ensures
            target@ == "mailto:round-trip@example.com"@,
    {
        "mailto:round-trip@example.com"
    }

    /// What this transport is called.
    #[must_use]
    pub fn name(&self) -> (name: &'static str)
        ensures
            name@ == "smtp"@,
    {
        "smtp"
    }

    /// Mail goes both ways.
    #[must_use]
    pub fn directions(&self) -> (directions: Directions)
        ensures
            directions == (Directions { receives: true, sends: true }),
    {
        Directions { receives: true, sends: true }
    }

    /// The artefact that has to be claimed before it is read. A mailbox has none.
    #[must_use]
    pub fn claims(&self) -> (artefact: Option<String>)
        ensures
            artefact is None,
    {
        None
    }

    /// The address to receive on.
    #[must_use]
    pub fn bind_address(&self) -> (bind: &str)
        ensures
            bind@ == self@.bind,
    {
        self.bind.as_str()
    }

    /// The server to relay through.
    #[must_use]
    pub fn relay_address(&self) -> (relay: &str)
        ensures
            relay@ == self@.relay,
    {
        self.relay.as_str()
    }

    /// The mailbox that sends.
    #[must_use]
    pub fn sender(&self) -> (from: &str)
        ensures
            from@ == self@.from,
    {
        self.from.as_str()
    }

    /// When to give up on a connection.
    #[must_use]
    pub fn timeout(&self) -> (timeout: Option<Duration>)
        ensures
            timeout == self@.timeout,
    {
        self.timeout
    }
}

} // verus!
