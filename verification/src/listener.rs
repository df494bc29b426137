//! The loop bound to a handler.

use crate::handler::{passed_on, Handler};
use crate::machine::{step, Action, Event, Phase};
use crate::trace::{
    delivered, failures, faults, handled, lemma_orderly_run, lemma_receive_requests_append,
    lemma_replies_calls, lemma_replies_uninterrupted, lemma_reply, lemma_stops_append, orderly,
    phase_after, receive_requests, replies, reply, run, script, stops, uninterrupted, Round, Run,
};
use internet2::presentation::Error;
use vstd::pervasive::unreached;
use vstd::prelude::*;

verus! {

/// The dispatch loop of one connection: it owns the handler, takes what the
/// connection's receiver gives, one outcome at a time, and calls the handler
/// as the machine asks.
///
/// In proofs a listener carries its journal, the rounds it has gone through,
/// and the states that its handler has gone through with them.
pub struct Listener<H, M> where H: Handler<M> {
    handler: H,
    phase: Phase,
    journal: Ghost<Seq<Round<M, H::Error>>>,
    past: Ghost<Seq<H>>,
}

/// `round` is a call of the handler: called with what the round received,
/// the handler `before` became `after` and gave the round's verdict. A
/// message is a call of `handle`, an error a call of `handle_err`.
pub open spec fn answered<H: Handler<M>, M>(
    before: H,
    round: Round<M, H::Error>,
    after: H,
) -> bool {
    match round.received {
        Ok(message) => before.handles(message, &after, round.verdict),
        Err(error) => before.handles_err(error, &after, round.verdict),
    }
}

impl<H, M> Listener<H, M> where H: Handler<M> {
    /// The rounds that the listener has gone through, oldest first: what each
    /// receive gave, as it was passed to the handler, and what the handler
    /// answered.
    pub closed spec fn journal(&self) -> Seq<Round<M, H::Error>> {
        self.journal@
    }

    /// Where the loop stands.
    pub closed spec fn spec_phase(&self) -> Phase {
        self.phase
    }

    /// The handler that the listener calls.
    pub closed spec fn spec_handler(&self) -> H {
        self.handler
    }

    /// The states of the handler, oldest first: as it was given to the
    /// listener, and as each round of the journal left it. The last one is
    /// the handler as it is now.
    pub closed spec fn handlers(&self) -> Seq<H> {
        self.past@.push(self.handler)
    }

    /// The listener's invariant: it went through an orderly sequence of
    /// rounds, stands where that sequence leaves the loop, and each round
    /// is a call of the handler, made on the handler as the round before
    /// left it.
    pub open spec fn wf(&self) -> bool {
        &&& orderly(self.journal())
        &&& self.spec_phase() == phase_after(self.journal())
        &&& self.handlers().len() == self.journal().len() + 1
        &&& self.handlers().last() == self.spec_handler()
        &&& forall|i: int|
            0 <= i < self.journal().len() ==> answered(
                self.handlers()[i],
                #[trigger] self.journal()[i],
                self.handlers()[i + 1],
            )
    }

    /// A listener does what the machine does: its phase and its calls of the
    /// handler are those of the machine's run over the events of its journal.
    pub proof fn lemma_runs_as_the_machine(&self)
        requires
            self.wf(),
        ensures
            run(script(self.journal())) == (Run {
                phase: self.spec_phase(),
                actions: replies(self.journal()),
            }),
    {
        lemma_orderly_run(self.journal());
    }

    /// What a listener has done, read off its journal: it has given each
    /// message received to `handle` and each failure to `handle_err`, once
    /// and in order. While it runs it has asked for the next message after
    /// every round and has never stopped; once terminated it has asked
    /// after every round but the last, and has stopped with the error that
    /// the handler gave in the last round.
    pub proof fn lemma_calls_follow_the_journal(&self)
        requires
            self.wf(),
        ensures
            handled(replies(self.journal())) == delivered(self.journal()),
            faults(replies(self.journal())) == failures(self.journal()),
            self.spec_phase() == Phase::Running ==> {
                &&& uninterrupted(self.journal())
                &&& receive_requests(replies(self.journal())) == self.journal().len()
                &&& stops(replies(self.journal())) == Seq::<H::Error>::empty()
            },
            self.spec_phase() == Phase::Terminated ==> {
                &&& self.journal().len() > 0
                &&& self.journal().last().verdict is Err
                &&& receive_requests(replies(self.journal())) == self.journal().len() - 1
                &&& stops(replies(self.journal())) == seq![self.journal().last().verdict->Err_0]
            },
    {
        let rounds = self.journal();
        lemma_replies_calls(rounds);
        if self.spec_phase() == Phase::Running {
            assert forall|i: int| 0 <= i < rounds.len() implies (#[trigger] rounds[i]).verdict
                is Ok by {
                if i == rounds.len() - 1 {
                    assert(rounds.last() == rounds[i]);
                }
            }
            lemma_replies_uninterrupted(rounds);
        } else {
            let init = rounds.drop_last();
            assert forall|i: int| 0 <= i < init.len() implies (#[trigger] init[i]).verdict
                is Ok by {
                assert(init[i] == rounds[i]);
            }
            lemma_replies_uninterrupted(init);
            lemma_reply(rounds.last());
            lemma_receive_requests_append(replies(init), reply(rounds.last()));
            lemma_stops_append(replies(init), reply(rounds.last()));
            assert(stops(replies(rounds)) =~= seq![rounds.last().verdict->Err_0]);
        }
    }

    /// A listener at the start of its loop, with `handler` to call.
    pub fn with(handler: H) -> (listener: Self)
        ensures
            listener.wf(),
            listener.spec_handler() == handler,
            listener.spec_phase() == Phase::Running,
            listener.journal() == Seq::<Round<M, H::Error>>::empty(),
            listener.handlers() == seq![handler],
    {
        Listener {
            handler,
            phase: Phase::Running,
            journal: Ghost(Seq::empty()),
            past: Ghost(Seq::empty()),
        }
    }

    /// Where the loop stands.
    #[verifier::when_used_as_spec(spec_phase)]
    pub fn phase(&self) -> (phase: Phase)
        ensures
            phase == self.spec_phase(),
    {
        self.phase
    }

    /// The handler that the listener calls.
    pub fn handler(&self) -> (handler: &H)
        ensures
            *handler == self.spec_handler(),
    {
        &self.handler
    }

    /// Gives up the listener for its handler.
    pub fn into_handler(self) -> (handler: H)
        ensures
            handler == self.spec_handler(),
    {
        self.handler
    }

    /// One round of the loop, for one outcome of a receive. A message goes to
    /// `handle`; an error is converted into the handler's error type and goes
    /// to `handle_err`. That one call is all that happens to the handler.
    /// What the handler answers is returned as it is: `Ok` leaves the loop
    /// running, an error terminates it.
    pub fn run(&mut self, received: Result<M, Error>) -> (result: Result<(), H::Error>)
        requires
            old(self).wf(),
            old(self).spec_phase() == Phase::Running,
        ensures
            final(self).wf(),
            final(self).journal().len() == old(self).journal().len() + 1,
            final(self).journal().drop_last() == old(self).journal(),
            final(self).handlers() == old(self).handlers().push(final(self).spec_handler()),
            passed_on(received, final(self).journal().last().received),
            final(self).journal().last().verdict == result,
            answered(
                old(self).spec_handler(),
                final(self).journal().last(),
                final(self).spec_handler(),
            ),
            final(self).spec_phase() == (if result is Ok {
                Phase::Running
            } else {
                Phase::Terminated
            }),
    {
        let event = match received {
            Ok(message) => Event::Received(Ok(message)),
            Err(cause) => Event::Received(Err(H::Error::from(cause))),
        };
        let ghost passed = event->Received_0;
        let (phase, verdict) = match step(self.phase, event) {
            Some((phase, Action::Handle(message))) => (phase, self.handler.handle(message)),
            Some((phase, Action::HandleErr(error))) => (phase, self.handler.handle_err(error)),
            _ => unreached(),
        };
        let ghost round = Round { received: passed, verdict };
        assert(verdict is Ok ==> verdict->Ok_0 == ());
        let result = match step(phase, Event::<M, H::Error>::Returned(verdict)) {
            Some((next, Action::Receive)) => {
                self.phase = next;
                Ok(())
            },
            Some((next, Action::Stop(error))) => {
                self.phase = next;
                Err(error)
            },
            _ => unreached(),
        };
        proof {
            assert(old(self).journal().push(round).drop_last() =~= old(self).journal());
        }
        self.journal = Ghost(self.journal@.push(round));
        self.past = Ghost(old(self).handlers());
        proof {
            let before = old(self).handlers();
            let after = self.handlers();
            assert(after =~= before.push(self.handler));
            assert forall|i: int| 0 <= i < self.journal().len() implies answered(
                after[i],
                #[trigger] self.journal()[i],
                after[i + 1],
            ) by {
                if i < old(self).journal().len() {
                    assert(self.journal()[i] == old(self).journal()[i]);
                    assert(after[i] == before[i]);
                    assert(after[i + 1] == before[i + 1]);
                }
            }
        }
        result
    }

    /// Runs the loop over the outcomes in `inbox`, oldest first, for as long
    /// as the handler lets it: one round for each outcome, until the handler
    /// answers with an error. That error is returned at once and terminates
    /// the loop; the outcomes behind it are dropped unseen. `Ok` means that
    /// the inbox is used up and the loop still running.
    pub fn try_run_loop(&mut self, inbox: Vec<Result<M, Error>>) -> (result: Result<
        (),
        H::Error,
    >)
        requires
            old(self).wf(),
            old(self).spec_phase() == Phase::Running,
        ensures
            final(self).wf(),
            old(self).journal().len() <= final(self).journal().len() <= old(self).journal().len()
                + inbox.len(),
            final(self).journal().take(old(self).journal().len() as int) == old(self).journal(),
            final(self).handlers().take(old(self).handlers().len() as int) == old(
                self,
            ).handlers(),
            forall|i: int|
                old(self).journal().len() <= i < final(self).journal().len() ==> passed_on(
                    inbox@[i - old(self).journal().len()],
                    (#[trigger] final(self).journal()[i]).received,
                ),
            match result {
                Ok(_) => {
                    &&& final(self).spec_phase() == Phase::Running
                    &&& final(self).journal().len() == old(self).journal().len() + inbox.len()
                },
                Err(error) => {
                    &&& final(self).spec_phase() == Phase::Terminated
                    &&& final(self).journal().len() > old(self).journal().len()
                    &&& final(self).journal().last().verdict == Err::<(), H::Error>(error)
                },
            },
    {
        let ghost start = self.journal();
        let ghost states = self.handlers();
        proof {
            assert(start.take(start.len() as int) =~= start);
            assert(states.take(states.len() as int) =~= states);
        }
        for received in outcomes: inbox
            invariant
                self.wf(),
                self.spec_phase() == Phase::Running,
                outcomes.seq() == inbox@,
                start == old(self).journal(),
                states == old(self).handlers(),
                states.len() == start.len() + 1,
                self.handlers().take(states.len() as int) == states,
                self.journal().len() == start.len() + outcomes.index(),
                self.journal().take(start.len() as int) == start,
                forall|i: int|
                    start.len() <= i < self.journal().len() ==> passed_on(
                        inbox@[i - start.len()],
                        (#[trigger] self.journal()[i]).received,
                    ),
        {
            let ghost before = self.journal();
            let ghost known = self.handlers();
            let verdict = self.run(received);
            proof {
                let after = self.journal();
                assert(after =~= before.push(after.last()));
                assert(after.take(start.len() as int) =~= before.take(start.len() as int));
                assert(self.handlers().take(states.len() as int) =~= known.take(
                    states.len() as int,
                ));
                assert forall|i: int| start.len() <= i < after.len() implies passed_on(
                    inbox@[i - start.len()],
                    (#[trigger] after[i]).received,
                ) by {
                    if i < before.len() {
                        assert(after[i] == before[i]);
                    }
                }
            }
            if verdict.is_err() {
                return verdict;
            }
        }
        Ok(())
    }
}

} // verus!
