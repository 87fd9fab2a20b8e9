//! What can go wrong in a session, and whether another attempt may succeed.

use vstd::prelude::*;

verus! {

/// Why a session, or a target, was given up.
#[derive(Debug, PartialEq, Eq)]
pub enum TransportError {
    /// The other side, or the configuration, broke the protocol. `what` names
    /// what was met in place of what the protocol asks for.
    Protocol { what: String },
    /// The server answered a step with another code than the one it takes to
    /// go on.
    Answered { message: String, retryable: bool },
    /// The line read at `step` is not UTF-8. Whoever owns the connection judges
    /// this as any other failure to read from it.
    NotText { step: &'static str },
}

/// The mathematical content of a [`TransportError`].
pub enum Fault {
    Protocol { what: Seq<char> },
    Answered { message: Seq<char>, retryable: bool },
    NotText { step: Seq<char> },
}

impl View for TransportError {
    type V = Fault;

    open spec fn view(&self) -> Fault {
        match self {
            TransportError::Protocol { what } => Fault::Protocol { what: what@ },
            TransportError::Answered { message, retryable } => Fault::Answered {
                message: message@,
                retryable: *retryable,
            },
            TransportError::NotText { step } => Fault::NotText { step: step@ },
        }
    }
}

impl TransportError {
    /// Whether the server's own answer says that the same step may succeed later.
    pub fn is_retryable(&self) -> (retryable: bool)
        ensures
            retryable == (self@ matches Fault::Answered { retryable, .. } && retryable),
    {
        match self {
            TransportError::Answered { retryable, .. } => *retryable,
            _ => false,
        }
    }
}

/// What a result holds, success and failure each taken by its view.
pub open spec fn outcome<T: View>(result: Result<T, TransportError>) -> Result<T::V, Fault> {
    match result {
        Ok(value) => Ok(value@),
        Err(error) => Err(error@),
    }
}

/// A breach of the protocol. Trying again would meet it again.
pub(crate) fn protocol_error(what: &str) -> (error: TransportError)
    ensures
        error@ == (Fault::Protocol { what: what@ }),
{
    TransportError::Protocol { what: what.to_owned() }
}

} // verus!
