//! What the dispatch loop guarantees, proved of every run of the machine.

use crate::machine::{Action, Event, Phase};
use crate::trace::{
    delivered, failures, faults, handled, lemma_delivered_all, lemma_failures_all,
    lemma_faults_append, lemma_handled_append, lemma_orderly_run, lemma_receive_requests_append,
    lemma_replies_append, lemma_replies_calls, lemma_replies_uninterrupted, lemma_reply,
    lemma_run_append, lemma_stops_append, lemma_terminated_is_final, orderly, receive_requests,
    replies, reply, run, script, stops, uninterrupted, Round,
};
use vstd::prelude::*;

verus! {

/// Every message that the loop receives is given to `handle` exactly once, and
/// the messages reach `handle` in the order in which they were received: none
/// is skipped, none comes twice. In particular, where each of `N` receives
/// gave a message, `handle` is called `N` times.
pub proof fn messages_are_handled_once_in_order<M, E>(rounds: Seq<Round<M, E>>)
    requires
        orderly(rounds),
    ensures
        handled(run(script(rounds)).actions) == delivered(rounds),
        (forall|i: int| 0 <= i < rounds.len() ==> (#[trigger] rounds[i]).received is Ok) ==> {
            &&& handled(run(script(rounds)).actions).len() == rounds.len()
            &&& forall|i: int|
                0 <= i < rounds.len() ==> (#[trigger] rounds[i]).received == Ok::<M, E>(
                    handled(run(script(rounds)).actions)[i],
                )
        },
{
    lemma_orderly_run(rounds);
    lemma_replies_calls(rounds);
    if forall|i: int| 0 <= i < rounds.len() ==> (#[trigger] rounds[i]).received is Ok {
        lemma_delivered_all(rounds);
    }
}

/// Every failure to receive or decode a message is given to `handle_err`
/// exactly once, in the order in which the failures occurred.
pub proof fn failures_are_reported_once_in_order<M, E>(rounds: Seq<Round<M, E>>)
    requires
        orderly(rounds),
    ensures
        faults(run(script(rounds)).actions) == failures(rounds),
{
    lemma_orderly_run(rounds);
    lemma_replies_calls(rounds);
}

/// Failures that the handler absorbs do not end the loop. Where `K` receives
/// in a row fail and `handle_err` answers `Ok` each time, the loop is still
/// running afterwards, has reported each failure, and has asked for the next
/// message `K` more times.
pub proof fn absorbed_failures_keep_the_loop_running<M, E>(
    before: Seq<Round<M, E>>,
    failing: Seq<Round<M, E>>,
)
    requires
        uninterrupted(before),
        forall|i: int|
            0 <= i < failing.len() ==> (#[trigger] failing[i]).received is Err
                && failing[i].verdict is Ok,
    ensures
        run(script(before + failing)).phase == Phase::Running,
        stops(run(script(before + failing)).actions) == Seq::<E>::empty(),
        receive_requests(run(script(before + failing)).actions) == receive_requests(
            run(script(before)).actions,
        ) + failing.len(),
        faults(run(script(before + failing)).actions) == faults(run(script(before)).actions)
            + failures(failing),
        failures(failing).len() == failing.len(),
        handled(run(script(before + failing)).actions) == handled(run(script(before)).actions),
{
    let all = before + failing;
    assert forall|i: int| 0 <= i < all.len() implies (#[trigger] all[i]).verdict is Ok by {
        if i < before.len() {
            assert(all[i] == before[i]);
        } else {
            assert(all[i] == failing[i - before.len()]);
        }
    }
    lemma_orderly_run(all);
    lemma_orderly_run(before);
    lemma_replies_uninterrupted(all);
    lemma_replies_uninterrupted(before);
    lemma_replies_append(before, failing);
    lemma_faults_append(replies(before), replies(failing));
    lemma_handled_append(replies(before), replies(failing));
    lemma_replies_calls(failing);
    lemma_failures_all(failing);
    assert(handled(replies(before)) + Seq::<M>::empty() =~= handled(replies(before)));
}

/// An escalated failure ends the loop. Where a receive fails and
/// `handle_err` answers with an error, the loop stops with that very error as
/// the next thing it does, and whatever comes later it asks for no further
/// message.
pub proof fn escalated_failure_ends_the_loop<M, E>(
    before: Seq<Round<M, E>>,
    failure: E,
    escalated: E,
    later: Seq<Event<M, E>>,
)
    requires
        uninterrupted(before),
    ensures
        ({
            let last = Round { received: Err::<M, E>(failure), verdict: Err(escalated) };
            let end = run(script(before.push(last)) + later);
            &&& end.phase == Phase::Terminated
            &&& end.actions == run(script(before)).actions.push(Action::HandleErr(failure)).push(
                Action::Stop(escalated),
            )
            &&& stops(end.actions) == seq![escalated]
            &&& receive_requests(end.actions) == receive_requests(run(script(before)).actions)
        }),
{
    let last = Round { received: Err::<M, E>(failure), verdict: Err(escalated) };
    lemma_fatal_round(before, last, later);
    assert(reply(last) =~= seq![Action::HandleErr(failure), Action::Stop(escalated)]);
    let start = run(script(before)).actions;
    assert(start + reply(last) =~= start.push(Action::HandleErr(failure)).push(
        Action::Stop(escalated),
    ));
}

/// Failures are absorbed until one is escalated. Where `K` receives in a
/// row fail and `handle_err` answers `Ok` each time, and the next receive
/// fails too and `handle_err` answers it with an error, the loop has asked
/// for the next message `K` times after its first receive, `K + 1` receives
/// in all. It has called `handle_err` `K + 1` times, with the failures in
/// their order, has never called `handle`, and stops with the escalated
/// error.
pub proof fn failures_are_absorbed_until_one_is_escalated<M, E>(
    failing: Seq<Round<M, E>>,
    failure: E,
    escalated: E,
)
    requires
        forall|i: int|
            0 <= i < failing.len() ==> (#[trigger] failing[i]).received is Err
                && failing[i].verdict is Ok,
    ensures
        ({
            let last = Round { received: Err::<M, E>(failure), verdict: Err(escalated) };
            let end = run(script(failing.push(last)));
            &&& end.phase == Phase::Terminated
            &&& receive_requests(end.actions) == failing.len()
            &&& faults(end.actions) == failures(failing).push(failure)
            &&& faults(end.actions).len() == failing.len() + 1
            &&& handled(end.actions) == Seq::<M>::empty()
            &&& stops(end.actions) == seq![escalated]
        }),
{
    let last = Round { received: Err::<M, E>(failure), verdict: Err(escalated) };
    let rounds = failing.push(last);
    let nothing = Seq::<Event<M, E>>::empty();
    assert(script(rounds) + nothing =~= script(rounds));
    escalated_failure_ends_the_loop(failing, failure, escalated, nothing);
    lemma_orderly_run(failing);
    lemma_replies_uninterrupted(failing);
    assert(rounds.drop_last() =~= failing);
    assert forall|i: int| 0 <= i < rounds.len() - 1 implies (#[trigger] rounds[i]).verdict is Ok by {
        assert(rounds[i] == failing[i]);
    }
    lemma_orderly_run(rounds);
    lemma_replies_calls(rounds);
    lemma_failures_all(failing);
}

/// A failure of `handle` ends the loop. Where `handle` answers a message with
/// an error, the loop stops with that very error as the next thing it does:
/// the error does not pass through `handle_err`, and whatever comes later no
/// further message is asked for.
pub proof fn failed_handling_ends_the_loop<M, E>(
    before: Seq<Round<M, E>>,
    message: M,
    error: E,
    later: Seq<Event<M, E>>,
)
    requires
        uninterrupted(before),
    ensures
        ({
            let last = Round { received: Ok::<M, E>(message), verdict: Err(error) };
            let end = run(script(before.push(last)) + later);
            &&& end.phase == Phase::Terminated
            &&& end.actions == run(script(before)).actions.push(Action::Handle(message)).push(
                Action::Stop(error),
            )
            &&& stops(end.actions) == seq![error]
            &&& faults(end.actions) == faults(run(script(before)).actions)
            &&& receive_requests(end.actions) == receive_requests(run(script(before)).actions)
        }),
{
    let last = Round { received: Ok::<M, E>(message), verdict: Err(error) };
    lemma_fatal_round(before, last, later);
    assert(reply(last) =~= seq![Action::Handle(message), Action::Stop(error)]);
    let start = run(script(before)).actions;
    assert(start + reply(last) =~= start.push(Action::Handle(message)).push(Action::Stop(error)));
    lemma_reply(last);
    lemma_faults_append(start, reply(last));
    assert(faults(start) + Seq::<E>::empty() =~= faults(start));
}

/// The run through `before`, a round that ends in an escalated error, and
/// anything after it: the loop replies to that round and does nothing more.
proof fn lemma_fatal_round<M, E>(
    before: Seq<Round<M, E>>,
    last: Round<M, E>,
    later: Seq<Event<M, E>>,
)
    requires
        uninterrupted(before),
        last.verdict is Err,
    ensures
        ({
            let end = run(script(before.push(last)) + later);
            &&& end.phase == Phase::Terminated
            &&& end.actions == run(script(before)).actions + reply(last)
            &&& stops(end.actions) == seq![last.verdict->Err_0]
            &&& receive_requests(end.actions) == receive_requests(run(script(before)).actions)
        }),
{
    let rounds = before.push(last);
    assert(rounds.drop_last() =~= before);
    assert forall|i: int| 0 <= i < rounds.len() - 1 implies (#[trigger] rounds[i]).verdict is Ok by {
        assert(rounds[i] == before[i]);
    }
    lemma_orderly_run(rounds);
    lemma_orderly_run(before);
    lemma_run_append(Phase::Running, script(rounds), later);
    lemma_terminated_is_final(later);
    let end = run(script(rounds) + later);
    assert(end.actions =~= replies(before) + reply(last));
    lemma_reply(last);
    lemma_replies_uninterrupted(before);
    lemma_stops_append(replies(before), reply(last));
    lemma_receive_requests_append(replies(before), reply(last));
    assert(stops(end.actions) =~= seq![last.verdict->Err_0]);
}

} // verus!
