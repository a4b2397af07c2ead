//! Broadcast dispatcher: the wait/fire state machine that fans an
//! announcement out to every subscriber with per-recipient failure
//! isolation.
//!
//! The dispatcher itself performs no waiting and no sending.  A driver
//! owns the loop: it performs the action the dispatcher asks for (sleep
//! until an instant, send to one recipient, stop) and hands the outcome
//! back as the next event.  Every decision — whom to send to next, what a
//! failed delivery changes, when a round is over, how cancellation is
//! honoured — is taken here, under contract.
//!
//! A delivery failure only records the recipient as failed; the round goes
//! on to the remaining recipients.  A cancellation observed while waiting
//! stops the dispatcher at once; one observed while firing lets the round
//! finish and stops it before the next wait.

use vstd::prelude::*;

use crate::calendar::next_occurrence_of;
use crate::calendar::Rule;
use crate::calendar::MAX_TS;
use crate::chat::Chat;

verus! {

/// The dispatcher's state between events.
pub enum DispatcherState {
    /// Suspended until `until`, the next occurrence of the rule.
    Waiting { until: u64 },
    /// A firing round: `pending` still to attempt (the head is in flight),
    /// `attempted` already attempted, `failed` the attempted recipients
    /// whose delivery failed.
    Firing {
        pending: Vec<Chat>,
        attempted: Vec<Chat>,
        failed: Vec<Chat>,
        cancel_requested: bool,
    },
    /// Terminated; no further events are handled.
    Stopped,
}

/// What the driver reports to the dispatcher.
pub enum Event {
    /// The wait ended at `now`; `subscribers` is the store snapshot read
    /// for this round.
    Elapsed { now: u64, subscribers: Vec<Chat> },
    /// The in-flight send finished at `now`, successfully or not.
    Delivery { ok: bool, now: u64 },
    /// Cancellation was requested.
    Cancel,
}

/// What the dispatcher asks the driver to perform next.
pub enum Action {
    /// Suspend until `until` or until cancellation.
    Sleep { until: u64 },
    /// Submit the announcement to `chat`.
    Send { chat: Chat },
    /// Nothing to perform; report the next event when it comes.
    Continue,
    /// Terminate the loop.
    Stop,
}

/// Which events a state accepts: a waiting dispatcher hears the wait end
/// or a cancellation; a firing one hears the in-flight delivery's outcome
/// or a cancellation; a stopped one hears nothing.
pub open spec fn event_fits(state: DispatcherState, event: Event) -> bool {
    match (state, event) {
        (DispatcherState::Waiting { .. }, Event::Elapsed { .. }) => true,
        (DispatcherState::Waiting { .. }, Event::Cancel) => true,
        (DispatcherState::Firing { pending, .. }, Event::Delivery { .. }) => pending.len() >= 1,
        (DispatcherState::Firing { .. }, Event::Cancel) => true,
        _ => false,
    }
}

/// The instants an event carries stay within the calendar's range.
pub open spec fn event_in_range(event: Event, rule: Rule) -> bool {
    match event {
        Event::Elapsed { now, .. } => now <= MAX_TS && now + rule.offset >= 0,
        Event::Delivery { now, .. } => now <= MAX_TS && now + rule.offset >= 0,
        Event::Cancel => true,
    }
}

/// One event's worth of progress.
///
/// The round that `Elapsed` opens attempts exactly the snapshot it
/// carries; each `Delivery` moves the head of `pending` to `attempted`
/// (and to `failed` when it failed) and puts the next recipient in
/// flight; when the round is over, the dispatcher waits for the next
/// occurrence computed from the current instant — or stops, if
/// cancellation arrived during the round.
pub fn step(state: DispatcherState, event: Event, rule: &Rule) -> (r: (DispatcherState, Action))
    requires
        rule.wf(),
        event_fits(state, event),
        event_in_range(event, *rule),
    ensures
        state matches DispatcherState::Waiting { .. } ==> event matches Event::Cancel ==> r.0
            is Stopped && r.1 is Stop,
        state matches DispatcherState::Waiting { .. } ==> event matches Event::Elapsed {
            now,
            subscribers,
        } ==> subscribers.len() == 0 ==> (r.0 matches DispatcherState::Waiting { until } && r.1
            == (Action::Sleep { until }) && next_occurrence_of(*rule, now as int, until as int)),
        state matches DispatcherState::Waiting { .. } ==> event matches Event::Elapsed {
            now,
            subscribers,
        } ==> subscribers.len() > 0 ==> (r.0 matches DispatcherState::Firing {
            pending: p2,
            attempted: att2,
            failed: fl2,
            cancel_requested: c2,
        } && p2 == subscribers && att2@ == Seq::<Chat>::empty() && fl2@ == Seq::<Chat>::empty()
            && c2 == false && r.1 == (Action::Send { chat: subscribers[0] })),
        state matches DispatcherState::Firing { pending, attempted, failed, cancel_requested }
            ==> event matches Event::Cancel ==> r.0 == (DispatcherState::Firing {
            pending,
            attempted,
            failed,
            cancel_requested: true,
        }) && r.1 is Continue,
        state matches DispatcherState::Firing { pending, attempted, failed, cancel_requested }
            ==> event matches Event::Delivery { ok, now } ==> ({
            let a2 = attempted@.push(pending[0]);
            let f2 = if ok {
                failed@
            } else {
                failed@.push(pending[0])
            };
            if pending.len() > 1 {
                r.0 matches DispatcherState::Firing {
                    pending: p2,
                    attempted: att2,
                    failed: fl2,
                    cancel_requested: c2,
                } && p2@ == pending@.drop_first() && att2@ == a2 && fl2@ == f2 && c2
                    == cancel_requested && r.1 == (Action::Send { chat: pending[1] })
            } else if cancel_requested {
                r.0 is Stopped && r.1 is Stop
            } else {
                r.0 matches DispatcherState::Waiting { until } && r.1 == (Action::Sleep { until })
                    && next_occurrence_of(*rule, now as int, until as int)
            }
        }),
{
    match (state, event) {
        (DispatcherState::Waiting { until: _ }, Event::Cancel) => {
            (DispatcherState::Stopped, Action::Stop)
        },
        (DispatcherState::Waiting { until: _ }, Event::Elapsed { now, subscribers }) => {
            if subscribers.len() == 0 {
                let next = rule.next_occurrence(now);
                (DispatcherState::Waiting { until: next }, Action::Sleep { until: next })
            } else {
                let first = subscribers[0];
                let post = DispatcherState::Firing {
                    pending: subscribers,
                    attempted: Vec::new(),
                    failed: Vec::new(),
                    cancel_requested: false,
                };
                (post, Action::Send { chat: first })
            }
        },
        (
            DispatcherState::Firing { pending, attempted, failed, cancel_requested },
            Event::Cancel,
        ) => {
            let post = DispatcherState::Firing {
                pending,
                attempted,
                failed,
                cancel_requested: true,
            };
            (post, Action::Continue)
        },
        (
            DispatcherState::Firing { pending, attempted, failed, cancel_requested },
            Event::Delivery { ok, now },
        ) => {
            let mut pending = pending;
            let mut attempted = attempted;
            let mut failed = failed;
            let ghost orig = pending@;
            let done = pending.remove(0);
            attempted.push(done);
            if !ok {
                failed.push(done);
            }
            proof {
                assert(done == orig[0]);
                assert(pending@ =~= orig.drop_first());
            }
            if pending.len() > 0 {
                let next_chat = pending[0];
                let post = DispatcherState::Firing {
                    pending,
                    attempted,
                    failed,
                    cancel_requested,
                };
                (post, Action::Send { chat: next_chat })
            } else if cancel_requested {
                (DispatcherState::Stopped, Action::Stop)
            } else {
                let next = rule.next_occurrence(now);
                (DispatcherState::Waiting { until: next }, Action::Sleep { until: next })
            }
        },
        _ => {
            proof {
                assert(false);
            }
            (DispatcherState::Stopped, Action::Stop)
        },
    }
}

/// A firing round's progress, at the model level: what `step` does to the
/// three recipient lists of a `Firing` state.
pub struct Round {
    pub pending: Seq<Chat>,
    pub attempted: Seq<Chat>,
    pub failed: Seq<Chat>,
}

/// The recipients whose delivery fails, given the outcome of each attempt
/// in order.
pub open spec fn failed_of(pending: Seq<Chat>, outcomes: Seq<bool>) -> Seq<Chat>
    decreases outcomes.len(),
{
    if pending.len() == 0 || outcomes.len() == 0 {
        Seq::<Chat>::empty()
    } else {
        (if outcomes[0] {
            Seq::<Chat>::empty()
        } else {
            seq![pending[0]]
        }) + failed_of(pending.drop_first(), outcomes.drop_first())
    }
}

/// The round after the driver reports one delivery outcome per attempt:
/// exactly what repeated `Delivery` events make of a `Firing` state.
pub open spec fn round_after(
    pending: Seq<Chat>,
    attempted: Seq<Chat>,
    failed: Seq<Chat>,
    outcomes: Seq<bool>,
) -> Round
    decreases outcomes.len(),
{
    if pending.len() == 0 || outcomes.len() == 0 {
        Round { pending, attempted, failed }
    } else {
        round_after(
            pending.drop_first(),
            attempted.push(pending[0]),
            if outcomes[0] {
                failed
            } else {
                failed.push(pending[0])
            },
            outcomes.drop_first(),
        )
    }
}

/// Fan-out isolation: however the individual deliveries turn out, a round
/// attempts every pending recipient exactly once — a failure removes no
/// later recipient from the round — and records as failed exactly the
/// recipients whose delivery failed.
pub proof fn lemma_fanout_isolation(
    pending: Seq<Chat>,
    attempted: Seq<Chat>,
    failed: Seq<Chat>,
    outcomes: Seq<bool>,
)
    requires
        outcomes.len() == pending.len(),
    ensures
        round_after(pending, attempted, failed, outcomes).pending == Seq::<Chat>::empty(),
        round_after(pending, attempted, failed, outcomes).attempted == attempted + pending,
        round_after(pending, attempted, failed, outcomes).failed == failed + failed_of(
            pending,
            outcomes,
        ),
    decreases outcomes.len(),
{
    if pending.len() == 0 {
        assert(attempted + pending =~= attempted);
        assert(failed_of(pending, outcomes) =~= Seq::<Chat>::empty());
        assert(failed + failed_of(pending, outcomes) =~= failed);
    } else {
        let head = pending[0];
        let f2 = if outcomes[0] {
            failed
        } else {
            failed.push(head)
        };
        lemma_fanout_isolation(
            pending.drop_first(),
            attempted.push(head),
            f2,
            outcomes.drop_first(),
        );
        assert(attempted.push(head) + pending.drop_first() =~= attempted + pending);
        assert(f2 + failed_of(pending.drop_first(), outcomes.drop_first()) =~= failed + failed_of(
            pending,
            outcomes,
        ));
    }
}

/// The round a fresh firing opens over a subscriber snapshot attempts the
/// whole snapshot, in order, whatever fails along the way.
pub proof fn lemma_round_attempts_every_subscriber(subs: Seq<Chat>, outcomes: Seq<bool>)
    requires
        outcomes.len() == subs.len(),
    ensures
        round_after(subs, Seq::<Chat>::empty(), Seq::<Chat>::empty(), outcomes).attempted == subs,
        round_after(subs, Seq::<Chat>::empty(), Seq::<Chat>::empty(), outcomes).pending
            == Seq::<Chat>::empty(),
        round_after(subs, Seq::<Chat>::empty(), Seq::<Chat>::empty(), outcomes).failed
            == failed_of(subs, outcomes),
{
    lemma_fanout_isolation(subs, Seq::<Chat>::empty(), Seq::<Chat>::empty(), outcomes);
    assert(Seq::<Chat>::empty() + subs =~= subs);
    assert(Seq::<Chat>::empty() + failed_of(subs, outcomes) =~= failed_of(subs, outcomes));
}

} // verus!
