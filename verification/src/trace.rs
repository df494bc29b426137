//! Whole runs of the dispatch loop.
//!
//! A run is what the machine does with a sequence of events, starting from
//! [`Phase::Running`]. A loop that is driven as the machine asks goes through
//! rounds: a receive ends, the handler is called with what it gave, and the
//! handler answers. This module says what such runs look like and proves what
//! the loop guarantees about them.

use crate::machine::{transition, Action, Event, Phase};
use vstd::prelude::*;

verus! {

/// The outcome of a run: the phase reached and the actions asked for, in order.
pub struct Run<M, E> {
    pub phase: Phase,
    pub actions: Seq<Action<M, E>>,
}

/// Runs the machine from `phase` over `events`. An event that cannot occur in
/// the phase reached is passed over: it changes nothing and asks for nothing.
pub open spec fn run_from<M, E>(phase: Phase, events: Seq<Event<M, E>>) -> Run<M, E>
    decreases events.len(),
{
    if events.len() == 0 {
        Run { phase, actions: Seq::empty() }
    } else {
        let before = run_from(phase, events.drop_last());
        match transition(before.phase, events.last()) {
            Some((next, action)) => Run { phase: next, actions: before.actions.push(action) },
            None => before,
        }
    }
}

/// Runs the machine over `events` from the start of the loop.
pub open spec fn run<M, E>(events: Seq<Event<M, E>>) -> Run<M, E> {
    run_from(Phase::Running, events)
}

/// One round of the loop: what the receive gave, and what the handler
/// answered when it was called with that.
pub struct Round<M, E> {
    pub received: Result<M, E>,
    pub verdict: Result<(), E>,
}

/// The two events of a round.
pub open spec fn events_of<M, E>(round: Round<M, E>) -> Seq<Event<M, E>> {
    seq![Event::Received(round.received), Event::Returned(round.verdict)]
}

/// The events of a sequence of rounds, in the order in which they occur.
pub open spec fn script<M, E>(rounds: Seq<Round<M, E>>) -> Seq<Event<M, E>>
    decreases rounds.len(),
{
    if rounds.len() == 0 {
        Seq::empty()
    } else {
        script(rounds.drop_last()) + events_of(rounds.last())
    }
}

/// What the loop does in a round: it calls the handler with what was
/// received, then asks for the next message or stops, as the handler says.
pub open spec fn reply<M, E>(round: Round<M, E>) -> Seq<Action<M, E>> {
    seq![
        match round.received {
            Ok(message) => Action::Handle(message),
            Err(error) => Action::HandleErr(error),
        },
        match round.verdict {
            Ok(_) => Action::Receive,
            Err(error) => Action::Stop(error),
        },
    ]
}

/// The replies to a sequence of rounds, one after the other.
pub open spec fn replies<M, E>(rounds: Seq<Round<M, E>>) -> Seq<Action<M, E>>
    decreases rounds.len(),
{
    if rounds.len() == 0 {
        Seq::empty()
    } else {
        replies(rounds.drop_last()) + reply(rounds.last())
    }
}

/// The handler absorbed every round: none ended in an escalated error.
pub open spec fn uninterrupted<M, E>(rounds: Seq<Round<M, E>>) -> bool {
    forall|i: int| 0 <= i < rounds.len() ==> (#[trigger] rounds[i]).verdict is Ok
}

/// No round but the last ended in an escalated error. These are the
/// sequences of rounds that a loop can go through: it stops at the first
/// error that the handler escalates.
pub open spec fn orderly<M, E>(rounds: Seq<Round<M, E>>) -> bool {
    forall|i: int| 0 <= i < rounds.len() - 1 ==> (#[trigger] rounds[i]).verdict is Ok
}

/// The phase of a loop that went through the orderly sequence `rounds`.
pub open spec fn phase_after<M, E>(rounds: Seq<Round<M, E>>) -> Phase {
    if rounds.len() > 0 && rounds.last().verdict is Err {
        Phase::Terminated
    } else {
        Phase::Running
    }
}

/// The messages received in `rounds`, in the order of receipt.
pub open spec fn delivered<M, E>(rounds: Seq<Round<M, E>>) -> Seq<M>
    decreases rounds.len(),
{
    if rounds.len() == 0 {
        Seq::empty()
    } else {
        match rounds.last().received {
            Ok(message) => delivered(rounds.drop_last()).push(message),
            Err(_) => delivered(rounds.drop_last()),
        }
    }
}

/// The transport and decoding errors met in `rounds`, in the order in which
/// they occurred.
pub open spec fn failures<M, E>(rounds: Seq<Round<M, E>>) -> Seq<E>
    decreases rounds.len(),
{
    if rounds.len() == 0 {
        Seq::empty()
    } else {
        match rounds.last().received {
            Ok(_) => failures(rounds.drop_last()),
            Err(error) => failures(rounds.drop_last()).push(error),
        }
    }
}

/// The messages that `actions` gives to `handle`, in order.
pub open spec fn handled<M, E>(actions: Seq<Action<M, E>>) -> Seq<M>
    decreases actions.len(),
{
    if actions.len() == 0 {
        Seq::empty()
    } else {
        match actions.last() {
            Action::Handle(message) => handled(actions.drop_last()).push(message),
            _ => handled(actions.drop_last()),
        }
    }
}

/// The errors that `actions` gives to `handle_err`, in order.
pub open spec fn faults<M, E>(actions: Seq<Action<M, E>>) -> Seq<E>
    decreases actions.len(),
{
    if actions.len() == 0 {
        Seq::empty()
    } else {
        match actions.last() {
            Action::HandleErr(error) => faults(actions.drop_last()).push(error),
            _ => faults(actions.drop_last()),
        }
    }
}

/// How many times `actions` asks for the next message.
pub open spec fn receive_requests<M, E>(actions: Seq<Action<M, E>>) -> nat
    decreases actions.len(),
{
    if actions.len() == 0 {
        0
    } else {
        match actions.last() {
            Action::Receive => receive_requests(actions.drop_last()) + 1,
            _ => receive_requests(actions.drop_last()),
        }
    }
}

/// The errors with which `actions` stops the loop, in order.
pub open spec fn stops<M, E>(actions: Seq<Action<M, E>>) -> Seq<E>
    decreases actions.len(),
{
    if actions.len() == 0 {
        Seq::empty()
    } else {
        match actions.last() {
            Action::Stop(error) => stops(actions.drop_last()).push(error),
            _ => stops(actions.drop_last()),
        }
    }
}

/// A run over `events` followed by `event` is the run over `events`, taken
/// one step further.
pub proof fn lemma_run_push<M, E>(phase: Phase, events: Seq<Event<M, E>>, event: Event<M, E>)
    ensures
        run_from(phase, events.push(event)) == (match transition(
            run_from(phase, events).phase,
            event,
        ) {
            Some((next, action)) => Run {
                phase: next,
                actions: run_from(phase, events).actions.push(action),
            },
            None => run_from(phase, events),
        }),
{
    assert(events.push(event).drop_last() =~= events);
}

/// A run over `first + second` is the run over `first`, continued over
/// `second` from the phase reached.
pub proof fn lemma_run_append<M, E>(
    phase: Phase,
    first: Seq<Event<M, E>>,
    second: Seq<Event<M, E>>,
)
    ensures
        run_from(phase, first + second).phase == run_from(
            run_from(phase, first).phase,
            second,
        ).phase,
        run_from(phase, first + second).actions == run_from(phase, first).actions + run_from(
            run_from(phase, first).phase,
            second,
        ).actions,
    decreases second.len(),
{
    let middle = run_from(phase, first);
    if second.len() == 0 {
        assert(first + second =~= first);
        assert(middle.actions + Seq::<Action<M, E>>::empty() =~= middle.actions);
    } else {
        let init = second.drop_last();
        lemma_run_append(phase, first, init);
        assert(first + second =~= (first + init).push(second.last()));
        lemma_run_push(phase, first + init, second.last());
        let rest = run_from(middle.phase, init);
        match transition(rest.phase, second.last()) {
            Some((next, action)) => {
                assert((middle.actions + rest.actions).push(action) =~= middle.actions
                    + rest.actions.push(action));
            },
            None => {},
        }
    }
}

/// Once the loop is terminated no event moves it, and it asks for nothing.
pub proof fn lemma_terminated_is_final<M, E>(events: Seq<Event<M, E>>)
    ensures
        run_from(Phase::Terminated, events) == (Run::<M, E> {
            phase: Phase::Terminated,
            actions: Seq::empty(),
        }),
    decreases events.len(),
{
    if events.len() > 0 {
        lemma_terminated_is_final(events.drop_last());
    }
}

/// From `Running`, the two events of a round bring the reply to that round,
/// and leave the loop running or terminated as the handler answered.
pub proof fn lemma_round<M, E>(round: Round<M, E>)
    ensures
        run_from(Phase::Running, events_of(round)).actions == reply(round),
        run_from(Phase::Running, events_of(round)).phase == (if round.verdict is Ok {
            Phase::Running
        } else {
            Phase::Terminated
        }),
{
    let first = Event::<M, E>::Received(round.received);
    let second = Event::<M, E>::Returned(round.verdict);
    let none = Seq::<Event<M, E>>::empty();
    assert(events_of(round) =~= none.push(first).push(second));
    lemma_run_push(Phase::Running, none, first);
    lemma_run_push(Phase::Running, none.push(first), second);
    assert(run_from(Phase::Running, events_of(round)).actions =~= reply(round));
}

/// The run of a loop that goes through the orderly sequence `rounds`: it
/// replies to each round in turn, and ends running unless the last round
/// ended in an escalated error.
pub proof fn lemma_orderly_run<M, E>(rounds: Seq<Round<M, E>>)
    requires
        orderly(rounds),
    ensures
        run(script(rounds)).phase == phase_after(rounds),
        run(script(rounds)).actions == replies(rounds),
    decreases rounds.len(),
{
    if rounds.len() > 0 {
        let init = rounds.drop_last();
        assert forall|i: int| 0 <= i < init.len() implies (#[trigger] init[i]).verdict is Ok by {
            assert(init[i] == rounds[i]);
        }
        lemma_orderly_run(init);
        assert(phase_after(init) == Phase::Running) by {
            if init.len() > 0 {
                assert(init.last() == init[init.len() - 1]);
            }
        }
        lemma_run_append(Phase::Running, script(init), events_of(rounds.last()));
        lemma_round(rounds.last());
    }
}

/// `handled` goes through a concatenation part by part.
pub proof fn lemma_handled_append<M, E>(first: Seq<Action<M, E>>, second: Seq<Action<M, E>>)
    ensures
        handled(first + second) == handled(first) + handled(second),
    decreases second.len(),
{
    if second.len() == 0 {
        assert(first + second =~= first);
        assert(handled(first) + handled(second) =~= handled(first));
    } else {
        lemma_handled_append(first, second.drop_last());
        assert((first + second).drop_last() =~= first + second.drop_last());
        assert(handled(first + second) =~= handled(first) + handled(second));
    }
}

/// `faults` goes through a concatenation part by part.
pub proof fn lemma_faults_append<M, E>(first: Seq<Action<M, E>>, second: Seq<Action<M, E>>)
    ensures
        faults(first + second) == faults(first) + faults(second),
    decreases second.len(),
{
    if second.len() == 0 {
        assert(first + second =~= first);
        assert(faults(first) + faults(second) =~= faults(first));
    } else {
        lemma_faults_append(first, second.drop_last());
        assert((first + second).drop_last() =~= first + second.drop_last());
        assert(faults(first + second) =~= faults(first) + faults(second));
    }
}

/// `stops` goes through a concatenation part by part.
pub proof fn lemma_stops_append<M, E>(first: Seq<Action<M, E>>, second: Seq<Action<M, E>>)
    ensures
        stops(first + second) == stops(first) + stops(second),
    decreases second.len(),
{
    if second.len() == 0 {
        assert(first + second =~= first);
        assert(stops(first) + stops(second) =~= stops(first));
    } else {
        lemma_stops_append(first, second.drop_last());
        assert((first + second).drop_last() =~= first + second.drop_last());
        assert(stops(first + second) =~= stops(first) + stops(second));
    }
}

/// `receive_requests` adds up over a concatenation.
pub proof fn lemma_receive_requests_append<M, E>(
    first: Seq<Action<M, E>>,
    second: Seq<Action<M, E>>,
)
    ensures
        receive_requests(first + second) == receive_requests(first) + receive_requests(second),
    decreases second.len(),
{
    if second.len() == 0 {
        assert(first + second =~= first);
    } else {
        lemma_receive_requests_append(first, second.drop_last());
        assert((first + second).drop_last() =~= first + second.drop_last());
    }
}

/// What the reply to one round holds: one call of the handler, with what was
/// received, and one request for the next message or one stop.
pub proof fn lemma_reply<M, E>(round: Round<M, E>)
    ensures
        handled(reply(round)) == (match round.received {
            Ok(message) => seq![message],
            Err(_) => Seq::empty(),
        }),
        faults(reply(round)) == (match round.received {
            Ok(_) => Seq::empty(),
            Err(error) => seq![error],
        }),
        stops(reply(round)) == (match round.verdict {
            Ok(_) => Seq::empty(),
            Err(error) => seq![error],
        }),
        receive_requests(reply(round)) == (if round.verdict is Ok {
            1nat
        } else {
            0nat
        }),
{
    let actions = reply(round);
    let head = actions.drop_last();
    assert(head.len() == 1);
    assert(head.drop_last().len() == 0);
    assert(head.last() == actions[0]);
    assert(actions.last() == actions[1]);
    reveal_with_fuel(handled, 3);
    reveal_with_fuel(faults, 3);
    reveal_with_fuel(stops, 3);
    reveal_with_fuel(receive_requests, 3);
    assert(handled(actions) =~= (match round.received {
        Ok(message) => seq![message],
        Err(_) => Seq::empty(),
    }));
    assert(faults(actions) =~= (match round.received {
        Ok(_) => Seq::empty(),
        Err(error) => seq![error],
    }));
    assert(stops(actions) =~= (match round.verdict {
        Ok(_) => Seq::empty(),
        Err(error) => seq![error],
    }));
}

/// What the replies to a sequence of rounds hold: the handler is called with
/// each thing received, in the order of receipt.
pub proof fn lemma_replies_calls<M, E>(rounds: Seq<Round<M, E>>)
    ensures
        handled(replies(rounds)) == delivered(rounds),
        faults(replies(rounds)) == failures(rounds),
    decreases rounds.len(),
{
    if rounds.len() > 0 {
        let init = rounds.drop_last();
        lemma_replies_calls(init);
        lemma_reply(rounds.last());
        lemma_handled_append(replies(init), reply(rounds.last()));
        lemma_faults_append(replies(init), reply(rounds.last()));
        assert(handled(replies(rounds)) =~= delivered(rounds));
        assert(faults(replies(rounds)) =~= failures(rounds));
    } else {
        assert(handled(replies(rounds)) =~= delivered(rounds));
        assert(faults(replies(rounds)) =~= failures(rounds));
    }
}

/// While the handler absorbs every round, each round is followed by one
/// request for the next message, and the loop is never stopped.
pub proof fn lemma_replies_uninterrupted<M, E>(rounds: Seq<Round<M, E>>)
    requires
        uninterrupted(rounds),
    ensures
        receive_requests(replies(rounds)) == rounds.len(),
        stops(replies(rounds)) == Seq::<E>::empty(),
    decreases rounds.len(),
{
    if rounds.len() > 0 {
        let init = rounds.drop_last();
        assert forall|i: int| 0 <= i < init.len() implies (#[trigger] init[i]).verdict is Ok by {
            assert(init[i] == rounds[i]);
        }
        lemma_replies_uninterrupted(init);
        assert(rounds.last() == rounds[rounds.len() - 1]);
        lemma_reply(rounds.last());
        lemma_receive_requests_append(replies(init), reply(rounds.last()));
        lemma_stops_append(replies(init), reply(rounds.last()));
        assert(stops(replies(rounds)) =~= Seq::<E>::empty());
    } else {
        assert(stops(replies(rounds)) =~= Seq::<E>::empty());
    }
}

/// `replies` goes through a concatenation part by part.
pub proof fn lemma_replies_append<M, E>(first: Seq<Round<M, E>>, second: Seq<Round<M, E>>)
    ensures
        replies(first + second) == replies(first) + replies(second),
    decreases second.len(),
{
    if second.len() == 0 {
        assert(first + second =~= first);
        assert(replies(first) + replies(second) =~= replies(first));
    } else {
        lemma_replies_append(first, second.drop_last());
        assert((first + second).drop_last() =~= first + second.drop_last());
        assert(replies(first + second) =~= replies(first) + replies(second));
    }
}

/// Where every receive gave a message, `delivered` holds the message of each
/// round, at the place of that round.
pub proof fn lemma_delivered_all<M, E>(rounds: Seq<Round<M, E>>)
    requires
        forall|i: int| 0 <= i < rounds.len() ==> (#[trigger] rounds[i]).received is Ok,
    ensures
        delivered(rounds).len() == rounds.len(),
        forall|i: int|
            0 <= i < rounds.len() ==> (#[trigger] rounds[i]).received == Ok::<M, E>(
                delivered(rounds)[i],
            ),
    decreases rounds.len(),
{
    if rounds.len() > 0 {
        let init = rounds.drop_last();
        assert forall|i: int| 0 <= i < init.len() implies (#[trigger] init[i]).received is Ok by {
            assert(init[i] == rounds[i]);
        }
        lemma_delivered_all(init);
        assert(rounds.last() == rounds[rounds.len() - 1]);
        assert forall|i: int| 0 <= i < rounds.len() implies (#[trigger] rounds[i]).received
            == Ok::<M, E>(delivered(rounds)[i]) by {
            if i < init.len() {
                assert(init[i] == rounds[i]);
            }
        }
    }
}

/// Where every receive failed, `failures` holds the error of each round, at
/// the place of that round, and nothing was delivered.
pub proof fn lemma_failures_all<M, E>(rounds: Seq<Round<M, E>>)
    requires
        forall|i: int| 0 <= i < rounds.len() ==> (#[trigger] rounds[i]).received is Err,
    ensures
        delivered(rounds) == Seq::<M>::empty(),
        failures(rounds).len() == rounds.len(),
        forall|i: int|
            0 <= i < rounds.len() ==> (#[trigger] rounds[i]).received == Err::<M, E>(
                failures(rounds)[i],
            ),
    decreases rounds.len(),
{
    if rounds.len() > 0 {
        let init = rounds.drop_last();
        assert forall|i: int| 0 <= i < init.len() implies (#[trigger] init[i]).received is Err by {
            assert(init[i] == rounds[i]);
        }
        lemma_failures_all(init);
        assert(rounds.last() == rounds[rounds.len() - 1]);
        assert forall|i: int| 0 <= i < rounds.len() implies (#[trigger] rounds[i]).received
            == Err::<M, E>(failures(rounds)[i]) by {
            if i < init.len() {
                assert(init[i] == rounds[i]);
            }
        }
    }
}

} // verus!
