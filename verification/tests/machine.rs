use peer_listener::{step, Action, Event, Phase};

type Next = Option<(Phase, Action<u32, &'static str>)>;

#[test]
fn a_message_goes_to_handle() {
    let next: Next = step(Phase::Running, Event::Received(Ok(7)));
    assert_eq!(next, Some((Phase::Processing, Action::Handle(7))));
}

#[test]
fn a_failure_goes_to_handle_err() {
    let next: Next = step(Phase::Running, Event::Received(Err("reset")));
    assert_eq!(next, Some((Phase::Faulted, Action::HandleErr("reset"))));
}

#[test]
fn a_handled_message_is_followed_by_a_receive() {
    let next: Next = step(Phase::Processing, Event::Returned(Ok(())));
    assert_eq!(next, Some((Phase::Running, Action::Receive)));
}

#[test]
fn an_absorbed_failure_is_followed_by_a_receive() {
    let next: Next = step(Phase::Faulted, Event::Returned(Ok(())));
    assert_eq!(next, Some((Phase::Running, Action::Receive)));
}

#[test]
fn a_failed_handling_stops_the_loop() {
    let next: Next = step(Phase::Processing, Event::Returned(Err("bad state")));
    assert_eq!(next, Some((Phase::Terminated, Action::Stop("bad state"))));
}

#[test]
fn an_escalated_failure_stops_the_loop() {
    let next: Next = step(Phase::Faulted, Event::Returned(Err("fatal")));
    assert_eq!(next, Some((Phase::Terminated, Action::Stop("fatal"))));
}

#[test]
fn nothing_moves_a_terminated_loop() {
    let events: Vec<Event<u32, &'static str>> = vec![
        Event::Received(Ok(1)),
        Event::Received(Err("reset")),
        Event::Returned(Ok(())),
        Event::Returned(Err("fatal")),
    ];
    for event in events {
        assert_eq!(step(Phase::Terminated, event), None);
    }
}

#[test]
fn an_answer_is_out_of_place_while_running() {
    let ok: Next = step(Phase::Running, Event::Returned(Ok(())));
    assert_eq!(ok, None);
    let err: Next = step(Phase::Running, Event::Returned(Err("fatal")));
    assert_eq!(err, None);
}

#[test]
fn a_receipt_is_out_of_place_while_the_handler_works() {
    let processing: Next = step(Phase::Processing, Event::Received(Ok(1)));
    assert_eq!(processing, None);
    let faulted: Next = step(Phase::Faulted, Event::Received(Err("reset")));
    assert_eq!(faulted, None);
}
