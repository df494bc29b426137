//! The dispatch loop as a state machine.
//!
//! Receiving a message and running the handler are work that the machine does
//! not do itself: it is told how each ended (an [`Event`]) and answers with
//! what has to be done next (an [`Action`]).

use vstd::prelude::*;

verus! {

/// Where the loop stands.
#[derive(Clone, Copy, PartialEq, Eq, Debug, Structural)]
pub enum Phase {
    /// The next message is awaited: a receive is due.
    Running,
    /// A message was decoded and given to `handle`, whose answer is awaited.
    Processing,
    /// Receiving or decoding failed and the error was given to `handle_err`,
    /// whose answer is awaited.
    Faulted,
    /// The handler escalated an error. Nothing follows this phase.
    Terminated,
}

/// How a piece of work that the loop asked for has ended.
#[derive(PartialEq, Eq, Debug)]
pub enum Event<M, E> {
    /// A receive ended: with a decoded message, or with the transport or
    /// decoding error that prevented one.
    Received(Result<M, E>),
    /// The handler returned from `handle` or from `handle_err`.
    Returned(Result<(), E>),
}

/// What the loop wants done next.
#[derive(PartialEq, Eq, Debug)]
pub enum Action<M, E> {
    /// Block on the connection for the next message.
    Receive,
    /// Call `handle` with this message.
    Handle(M),
    /// Call `handle_err` with this error.
    HandleErr(E),
    /// Leave the loop; this error is its result.
    Stop(E),
}

/// The transition relation: the phase that follows `phase` on `event`, and the
/// action that goes with it. `None` where the event cannot occur in that
/// phase; in particular nothing can occur once the loop is terminated.
pub open spec fn transition<M, E>(phase: Phase, event: Event<M, E>) -> Option<
    (Phase, Action<M, E>),
> {
    match (phase, event) {
        (Phase::Running, Event::Received(Ok(message))) => Some(
            (Phase::Processing, Action::Handle(message)),
        ),
        (Phase::Running, Event::Received(Err(error))) => Some(
            (Phase::Faulted, Action::HandleErr(error)),
        ),
        (Phase::Processing, Event::Returned(Ok(_))) => Some((Phase::Running, Action::Receive)),
        (Phase::Faulted, Event::Returned(Ok(_))) => Some((Phase::Running, Action::Receive)),
        (Phase::Processing, Event::Returned(Err(error))) => Some(
            (Phase::Terminated, Action::Stop(error)),
        ),
        (Phase::Faulted, Event::Returned(Err(error))) => Some(
            (Phase::Terminated, Action::Stop(error)),
        ),
        _ => None,
    }
}

/// Takes one step of the loop.
pub fn step<M, E>(phase: Phase, event: Event<M, E>) -> (next: Option<(Phase, Action<M, E>)>)
    ensures
        next == transition(phase, event),
{
    match phase {
        Phase::Running => match event {
            Event::Received(Ok(message)) => Some((Phase::Processing, Action::Handle(message))),
            Event::Received(Err(error)) => Some((Phase::Faulted, Action::HandleErr(error))),
            Event::Returned(_) => None,
        },
        Phase::Processing | Phase::Faulted => match event {
            Event::Returned(Ok(_)) => Some((Phase::Running, Action::Receive)),
            Event::Returned(Err(error)) => Some((Phase::Terminated, Action::Stop(error))),
            Event::Received(_) => None,
        },
        Phase::Terminated => None,
    }
}

} // verus!
