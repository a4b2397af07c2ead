use uzh_biomed_bot::calendar::Rule;
use uzh_biomed_bot::chat::Chat;
use uzh_biomed_bot::dispatcher::step;
use uzh_biomed_bot::dispatcher::Action;
use uzh_biomed_bot::dispatcher::DispatcherState;
use uzh_biomed_bot::dispatcher::Event;

const HOUR: u64 = 3600;
const DAY: u64 = 86400;

fn tue_thu_17_utc() -> Rule {
    let mut weekdays = [false; 7];
    weekdays[1] = true;
    weekdays[3] = true;
    Rule::new(weekdays, 17 * HOUR, 0).unwrap()
}

fn subscribers() -> Vec<Chat> {
    vec![Chat { id: 1 }, Chat { id: 2 }, Chat { id: 3 }]
}

#[test]
fn a_failed_delivery_does_not_stop_the_round() {
    let rule = tue_thu_17_utc();
    let now = 5 * DAY + 17 * HOUR;

    let waiting = DispatcherState::Waiting { until: now };
    let (state, action) = step(
        waiting,
        Event::Elapsed { now, subscribers: subscribers() },
        &rule,
    );
    assert!(matches!(action, Action::Send { chat: Chat { id: 1 } }));

    // Delivery to 1 succeeds; 2 is attempted next.
    let (state, action) = step(state, Event::Delivery { ok: true, now }, &rule);
    assert!(matches!(action, Action::Send { chat: Chat { id: 2 } }));

    // Delivery to 2 fails; 3 is still attempted.
    let (state, action) = step(state, Event::Delivery { ok: false, now }, &rule);
    assert!(matches!(action, Action::Send { chat: Chat { id: 3 } }));

    // The failure was recorded, and everyone before 3 was attempted.
    match &state {
        DispatcherState::Firing { pending, attempted, failed, cancel_requested } => {
            assert_eq!(pending, &vec![Chat { id: 3 }]);
            assert_eq!(attempted, &vec![Chat { id: 1 }, Chat { id: 2 }]);
            assert_eq!(failed, &vec![Chat { id: 2 }]);
            assert!(!cancel_requested);
        }
        _ => panic!("expected a firing state"),
    }

    // The round over, the dispatcher waits for the next occurrence,
    // computed from the current instant.
    let (state, action) = step(state, Event::Delivery { ok: true, now }, &rule);
    let thursday_17 = 7 * DAY + 17 * HOUR;
    assert!(matches!(state, DispatcherState::Waiting { until } if until == thursday_17));
    assert!(matches!(action, Action::Sleep { until } if until == thursday_17));
}

#[test]
fn an_empty_snapshot_goes_straight_back_to_waiting() {
    let rule = tue_thu_17_utc();
    let now = 5 * DAY + 17 * HOUR;
    let waiting = DispatcherState::Waiting { until: now };
    let (state, action) = step(
        waiting,
        Event::Elapsed { now, subscribers: vec![] },
        &rule,
    );
    let thursday_17 = 7 * DAY + 17 * HOUR;
    assert!(matches!(state, DispatcherState::Waiting { until } if until == thursday_17));
    assert!(matches!(action, Action::Sleep { until } if until == thursday_17));
}

#[test]
fn cancellation_while_waiting_stops_at_once() {
    let rule = tue_thu_17_utc();
    let waiting = DispatcherState::Waiting { until: 5 * DAY + 17 * HOUR };
    let (state, action) = step(waiting, Event::Cancel, &rule);
    assert!(matches!(state, DispatcherState::Stopped));
    assert!(matches!(action, Action::Stop));
}

#[test]
fn cancellation_while_firing_finishes_the_round_then_stops() {
    let rule = tue_thu_17_utc();
    let now = 5 * DAY + 17 * HOUR;
    let waiting = DispatcherState::Waiting { until: now };
    let (state, _) = step(
        waiting,
        Event::Elapsed { now, subscribers: subscribers() },
        &rule,
    );

    // Cancellation arrives mid-round: the round is not abandoned.
    let (state, action) = step(state, Event::Cancel, &rule);
    assert!(matches!(action, Action::Continue));

    let (state, action) = step(state, Event::Delivery { ok: true, now }, &rule);
    assert!(matches!(action, Action::Send { chat: Chat { id: 2 } }));
    let (state, action) = step(state, Event::Delivery { ok: true, now }, &rule);
    assert!(matches!(action, Action::Send { chat: Chat { id: 3 } }));

    // After the last delivery the dispatcher stops instead of waiting anew.
    let (state, action) = step(state, Event::Delivery { ok: true, now }, &rule);
    assert!(matches!(state, DispatcherState::Stopped));
    assert!(matches!(action, Action::Stop));
}
