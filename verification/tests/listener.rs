use internet2::presentation::Error;
use peer_listener::{Handler, Listener, Phase};

#[derive(Clone, PartialEq, Eq, Debug)]
enum Fault {
    Wire(Error),
    Refused(u32),
}

impl From<Error> for Fault {
    fn from(error: Error) -> Self {
        Fault::Wire(error)
    }
}

#[derive(Clone, PartialEq, Eq, Debug)]
enum Call {
    Handle(u32),
    HandleErr(Fault),
}

/// Records every call, refuses one chosen message, and absorbs failures or
/// escalates them as it is told.
struct Recorder {
    calls: Vec<Call>,
    refuse: Option<u32>,
    escalate: bool,
    patience: usize,
}

impl Recorder {
    fn absorbing() -> Self {
        Recorder { calls: Vec::new(), refuse: None, escalate: false, patience: 0 }
    }

    fn escalating() -> Self {
        Recorder { calls: Vec::new(), refuse: None, escalate: true, patience: 0 }
    }

    /// Absorbs the first `patience` failures and escalates the next.
    fn escalating_after(patience: usize) -> Self {
        Recorder { calls: Vec::new(), refuse: None, escalate: true, patience }
    }

    fn refusing(message: u32) -> Self {
        Recorder { calls: Vec::new(), refuse: Some(message), escalate: false, patience: 0 }
    }
}

impl Handler<u32> for Recorder {
    type Error = Fault;

    fn handle(&mut self, message: u32) -> Result<(), Fault> {
        self.calls.push(Call::Handle(message));
        if self.refuse == Some(message) {
            Err(Fault::Refused(message))
        } else {
            Ok(())
        }
    }

    fn handle_err(&mut self, error: Fault) -> Result<(), Fault> {
        self.calls.push(Call::HandleErr(error.clone()));
        if self.escalate && self.patience == 0 {
            Err(error)
        } else {
            self.patience = self.patience.saturating_sub(1);
            Ok(())
        }
    }
}

/// A receiver that yields what it was loaded with and counts how often it
/// was asked.
struct Wire {
    pending: Vec<Result<u32, Error>>,
    attempts: usize,
}

impl Wire {
    fn yielding(mut outcomes: Vec<Result<u32, Error>>) -> Self {
        outcomes.reverse();
        Wire { pending: outcomes, attempts: 0 }
    }

    fn recv_next(&mut self) -> Option<Result<u32, Error>> {
        let next = self.pending.pop();
        if next.is_some() {
            self.attempts += 1;
        }
        next
    }
}

/// The loop as a program runs it: receive, hand over, go on unless the
/// listener says otherwise. Ends with `Ok` when the wire has nothing left.
fn drive(wire: &mut Wire, listener: &mut Listener<Recorder, u32>) -> Result<(), Fault> {
    while let Some(received) = wire.recv_next() {
        listener.run(received)?;
    }
    Ok(())
}

#[test]
fn a_new_listener_is_running() {
    let listener = Listener::with(Recorder::absorbing());
    assert_eq!(listener.phase(), Phase::Running);
    assert!(listener.handler().calls.is_empty());
}

#[test]
fn run_hands_a_message_to_handle() {
    let mut listener = Listener::with(Recorder::absorbing());
    assert_eq!(listener.run(Ok(5)), Ok(()));
    assert_eq!(listener.phase(), Phase::Running);
    assert_eq!(listener.handler().calls, vec![Call::Handle(5)]);
}

#[test]
fn run_converts_a_failure_and_hands_it_to_handle_err() {
    let mut listener = Listener::with(Recorder::absorbing());
    assert_eq!(listener.run(Err(Error::NoData)), Ok(()));
    assert_eq!(listener.phase(), Phase::Running);
    assert_eq!(listener.handler().calls, vec![Call::HandleErr(Fault::Wire(Error::NoData))]);
}

#[test]
fn run_returns_the_error_of_handle_and_terminates() {
    let mut listener = Listener::with(Recorder::refusing(5));
    assert_eq!(listener.run(Ok(5)), Err(Fault::Refused(5)));
    assert_eq!(listener.phase(), Phase::Terminated);
    assert_eq!(listener.handler().calls, vec![Call::Handle(5)]);
}

#[test]
fn an_error_of_handle_does_not_pass_through_handle_err() {
    let mut listener = Listener::with(Recorder::refusing(2));
    let result = listener.try_run_loop(vec![Ok(1), Ok(2), Ok(3)]);
    assert_eq!(result, Err(Fault::Refused(2)));
    assert_eq!(listener.into_handler().calls, vec![Call::Handle(1), Call::Handle(2)]);
}

#[test]
fn run_returns_the_error_of_handle_err_and_terminates() {
    let mut listener = Listener::with(Recorder::escalating());
    assert_eq!(listener.run(Err(Error::InvalidValue)), Err(Fault::Wire(Error::InvalidValue)));
    assert_eq!(listener.phase(), Phase::Terminated);
    assert_eq!(
        listener.handler().calls,
        vec![Call::HandleErr(Fault::Wire(Error::InvalidValue))]
    );
}

#[test]
fn every_message_is_handled_once_in_order() {
    let messages: Vec<u32> = vec![9, 3, 3, 7, 1, 8];
    let inbox: Vec<Result<u32, Error>> = messages.iter().map(|m| Ok(*m)).collect();
    let mut listener = Listener::with(Recorder::absorbing());
    assert_eq!(listener.try_run_loop(inbox), Ok(()));
    assert_eq!(listener.phase(), Phase::Running);
    let expected: Vec<Call> = messages.iter().map(|m| Call::Handle(*m)).collect();
    assert_eq!(listener.handler().calls.len(), 6);
    assert_eq!(listener.into_handler().calls, expected);
}

#[test]
fn absorbed_failures_keep_the_loop_running() {
    let mut wire = Wire::yielding(vec![
        Err(Error::NoData),
        Err(Error::BadLengthDescriptor),
        Err(Error::UnknownDataType),
    ]);
    let mut listener = Listener::with(Recorder::absorbing());
    assert_eq!(drive(&mut wire, &mut listener), Ok(()));
    assert_eq!(wire.attempts, 3);
    assert_eq!(listener.phase(), Phase::Running);
    assert_eq!(
        listener.into_handler().calls,
        vec![
            Call::HandleErr(Fault::Wire(Error::NoData)),
            Call::HandleErr(Fault::Wire(Error::BadLengthDescriptor)),
            Call::HandleErr(Fault::Wire(Error::UnknownDataType)),
        ]
    );
}

#[test]
fn an_escalated_failure_ends_the_loop_at_once() {
    let mut wire = Wire::yielding(vec![Ok(1), Err(Error::NoEncoder), Ok(2), Err(Error::NoData)]);
    let mut listener = Listener::with(Recorder::escalating());
    assert_eq!(drive(&mut wire, &mut listener), Err(Fault::Wire(Error::NoEncoder)));
    assert_eq!(wire.attempts, 2);
    assert_eq!(listener.phase(), Phase::Terminated);
    assert_eq!(
        listener.into_handler().calls,
        vec![Call::Handle(1), Call::HandleErr(Fault::Wire(Error::NoEncoder))]
    );
}

#[test]
fn a_failed_handling_ends_the_loop_at_once() {
    let mut wire = Wire::yielding(vec![Ok(1), Ok(2), Ok(3), Ok(4)]);
    let mut listener = Listener::with(Recorder::refusing(3));
    assert_eq!(drive(&mut wire, &mut listener), Err(Fault::Refused(3)));
    assert_eq!(wire.attempts, 3);
    assert_eq!(listener.phase(), Phase::Terminated);
    assert_eq!(
        listener.into_handler().calls,
        vec![Call::Handle(1), Call::Handle(2), Call::Handle(3)]
    );
}

#[test]
fn messages_around_an_absorbed_transport_error() {
    let mut wire = Wire::yielding(vec![Ok(10), Ok(20), Err(Error::InvalidEndpoint), Ok(30)]);
    let mut listener = Listener::with(Recorder::absorbing());
    assert_eq!(drive(&mut wire, &mut listener), Ok(()));
    assert_eq!(wire.attempts, 4);
    assert_eq!(listener.phase(), Phase::Running);
    assert_eq!(
        listener.into_handler().calls,
        vec![
            Call::Handle(10),
            Call::Handle(20),
            Call::HandleErr(Fault::Wire(Error::InvalidEndpoint)),
            Call::Handle(30),
        ]
    );
}

#[test]
fn a_malformed_first_payload_that_the_handler_escalates() {
    let mut wire = Wire::yielding(vec![Err(Error::TlvRecordInvalidLen), Ok(1), Ok(2)]);
    let mut listener = Listener::with(Recorder::escalating());
    assert_eq!(drive(&mut wire, &mut listener), Err(Fault::Wire(Error::TlvRecordInvalidLen)));
    assert_eq!(wire.attempts, 1);
    assert_eq!(
        listener.into_handler().calls,
        vec![Call::HandleErr(Fault::Wire(Error::TlvRecordInvalidLen))]
    );
}

#[test]
fn try_run_loop_over_an_empty_inbox_calls_nothing() {
    let mut listener = Listener::with(Recorder::escalating());
    assert_eq!(listener.try_run_loop(Vec::new()), Ok(()));
    assert_eq!(listener.phase(), Phase::Running);
    assert!(listener.handler().calls.is_empty());
}

#[test]
fn try_run_loop_drops_what_lies_behind_a_fatal_error() {
    let mut listener = Listener::with(Recorder::escalating());
    let result = listener.try_run_loop(vec![Ok(1), Err(Error::NoData), Ok(2), Ok(3)]);
    assert_eq!(result, Err(Fault::Wire(Error::NoData)));
    assert_eq!(listener.phase(), Phase::Terminated);
    assert_eq!(
        listener.into_handler().calls,
        vec![Call::Handle(1), Call::HandleErr(Fault::Wire(Error::NoData))]
    );
}

#[test]
fn try_run_loop_goes_on_where_the_last_one_ended() {
    let mut listener = Listener::with(Recorder::absorbing());
    assert_eq!(listener.try_run_loop(vec![Ok(1), Err(Error::NoData)]), Ok(()));
    assert_eq!(listener.try_run_loop(vec![Ok(2)]), Ok(()));
    assert_eq!(
        listener.into_handler().calls,
        vec![Call::Handle(1), Call::HandleErr(Fault::Wire(Error::NoData)), Call::Handle(2)]
    );
}

#[test]
fn failures_are_absorbed_until_one_is_escalated() {
    let mut wire = Wire::yielding(vec![
        Err(Error::NoData),
        Err(Error::InvalidValue),
        Err(Error::NoEncoder),
        Err(Error::UnknownDataType),
        Ok(1),
    ]);
    let mut listener = Listener::with(Recorder::escalating_after(3));
    assert_eq!(drive(&mut wire, &mut listener), Err(Fault::Wire(Error::UnknownDataType)));
    assert_eq!(wire.attempts, 4);
    assert_eq!(listener.phase(), Phase::Terminated);
    assert_eq!(
        listener.into_handler().calls,
        vec![
            Call::HandleErr(Fault::Wire(Error::NoData)),
            Call::HandleErr(Fault::Wire(Error::InvalidValue)),
            Call::HandleErr(Fault::Wire(Error::NoEncoder)),
            Call::HandleErr(Fault::Wire(Error::UnknownDataType)),
        ]
    );
}

#[test]
fn a_new_listener_holds_the_handler_it_was_given() {
    let handler = Recorder { calls: vec![Call::Handle(42)], refuse: Some(7), escalate: true, patience: 2 };
    let listener = Listener::with(handler);
    assert_eq!(listener.handler().calls, vec![Call::Handle(42)]);
    assert_eq!(listener.handler().refuse, Some(7));
    let back = listener.into_handler();
    assert_eq!(back.calls, vec![Call::Handle(42)]);
    assert!(back.escalate);
    assert_eq!(back.patience, 2);
}
