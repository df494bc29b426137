//! The application's side of the loop.

use internet2::presentation::Error;
use vstd::prelude::*;
use vstd::std_specs::convert::FromSpec;

verus! {

/// `internet2::presentation::Error`, the error with which receiving or
/// decoding a message fails. The loop never looks inside one: it converts it
/// into the handler's error type and passes it on.
#[verifier::external_type_specification]
#[verifier::external_body]
pub struct ExPresentationError(internet2::presentation::Error);

/// Handles the messages of type `M` that arrive on a connection, and decides
/// what becomes of the loop when something fails.
///
/// The loop calls the two methods one at a time and assumes nothing of what
/// they do or return. So that contracts can speak of the calls, each method
/// comes with a relation between the handler before the call, what it was
/// called with, the handler after the call and the answer. The relation is
/// the handler's own description of itself: it holds of everything unless an
/// implementation says more.
pub trait Handler<M>: Sized {
    /// The handler's error type. Every failure to receive or decode a message
    /// can be put into it.
    type Error: From<Error>;

    /// What `handle` does, as the handler itself describes it: called on this
    /// handler with `message`, it may leave the handler as `after` and
    /// answer `answer`.
    open spec fn handles(
        &self,
        message: M,
        after: &Self,
        answer: Result<(), Self::Error>,
    ) -> bool {
        true
    }

    /// What `handle_err` does, as the handler itself describes it: called on
    /// this handler with `error`, it may leave the handler as `after` and
    /// answer `answer`.
    open spec fn handles_err(
        &self,
        error: Self::Error,
        after: &Self,
        answer: Result<(), Self::Error>,
    ) -> bool {
        true
    }

    /// Processes one decoded message. An error ends the loop, which returns
    /// it to its caller.
    fn handle(&mut self, message: M) -> (answer: Result<(), Self::Error>)
        ensures
            old(self).handles(message, final(self), answer),
    ;

    /// Is told that receiving or decoding the next message failed. `Ok` lets
    /// the loop go on with the next message; an error ends the loop, which
    /// returns it to its caller.
    fn handle_err(&mut self, error: Self::Error) -> (answer: Result<(), Self::Error>)
        ensures
            old(self).handles_err(error, final(self), answer),
    ;
}

/// What the loop passes on for what the connection gave: a message as it
/// is, an error as `E::from` returned it, that is converted into the
/// handler's error type `E`.
pub open spec fn passed_on<M, E: From<Error>>(
    received: Result<M, Error>,
    passed: Result<M, E>,
) -> bool {
    match received {
        Ok(message) => passed == Ok::<M, E>(message),
        Err(cause) => {
            &&& passed is Err
            &&& call_ensures(<E as From<Error>>::from, (cause,), passed->Err_0)
            &&& E::obeys_from_spec() ==> passed == Err::<M, E>(E::from_spec(cause))
        },
    }
}

} // verus!
