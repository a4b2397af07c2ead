use uzh_biomed_bot::chat::Chat;
use uzh_biomed_bot::store::replay_history;
use uzh_biomed_bot::store::StoreOp;
use uzh_biomed_bot::store::SubscriberStore;

#[test]
fn append_then_append_is_idempotent() {
    let mut store = SubscriberStore::new();
    let c = Chat { id: 42 };
    assert_eq!(store.append(c), true);
    assert_eq!(store.append(c), false);
    let all = store.read_all();
    assert_eq!(all, vec![Chat { id: 42 }]);
}

#[test]
fn remove_absent_changes_nothing() {
    let mut store = SubscriberStore::new();
    store.append(Chat { id: 1 });
    store.append(Chat { id: 2 });
    assert_eq!(store.remove(Chat { id: 3 }), false);
    assert_eq!(store.read_all(), vec![Chat { id: 1 }, Chat { id: 2 }]);
}

#[test]
fn remove_present_deletes_exactly_it() {
    let mut store = SubscriberStore::new();
    store.append(Chat { id: 1 });
    store.append(Chat { id: 2 });
    store.append(Chat { id: 3 });
    assert_eq!(store.remove(Chat { id: 2 }), true);
    assert_eq!(store.read_all(), vec![Chat { id: 1 }, Chat { id: 3 }]);
    assert_eq!(store.remove(Chat { id: 2 }), false);
}

#[test]
fn replaying_a_history_predicts_read_all() {
    // append 1, append 2, append 1 (no-op), remove 2, append 3, remove 9 (no-op)
    let mut store = SubscriberStore::new();
    store.append(Chat { id: 1 });
    store.append(Chat { id: 2 });
    store.append(Chat { id: 1 });
    store.remove(Chat { id: 2 });
    store.append(Chat { id: 3 });
    store.remove(Chat { id: 9 });
    assert_eq!(store.read_all(), vec![Chat { id: 1 }, Chat { id: 3 }]);
}

#[test]
fn replay_history_agrees_with_step_by_step_mutation() {
    let ops = vec![
        StoreOp::Append(1),
        StoreOp::Append(2),
        StoreOp::Append(1),
        StoreOp::Remove(2),
        StoreOp::Append(3),
        StoreOp::Remove(9),
    ];
    let replayed = replay_history(&ops);
    let mut store = SubscriberStore::new();
    for op in &ops {
        match *op {
            StoreOp::Append(id) => {
                store.append(Chat { id });
            }
            StoreOp::Remove(id) => {
                store.remove(Chat { id });
            }
        }
    }
    assert_eq!(replayed.read_all(), store.read_all());
    assert_eq!(replayed.read_all(), vec![Chat { id: 1 }, Chat { id: 3 }]);
}

#[test]
fn contains_reports_membership() {
    let mut store = SubscriberStore::new();
    assert!(!store.contains(Chat { id: 7 }));
    store.append(Chat { id: 7 });
    assert!(store.contains(Chat { id: 7 }));
    store.remove(Chat { id: 7 });
    assert!(!store.contains(Chat { id: 7 }));
}

#[test]
fn from_chats_keeps_first_occurrence_of_each_identity() {
    let chats = vec![
        Chat { id: 5 },
        Chat { id: 6 },
        Chat { id: 5 },
        Chat { id: 7 },
        Chat { id: 6 },
    ];
    let store = SubscriberStore::from_chats(&chats);
    assert_eq!(
        store.read_all(),
        vec![Chat { id: 5 }, Chat { id: 6 }, Chat { id: 7 }]
    );
}

#[test]
fn negative_identities_are_ordinary_members() {
    let mut store = SubscriberStore::new();
    assert_eq!(store.append(Chat { id: -100200300 }), true);
    assert!(store.contains(Chat { id: -100200300 }));
    assert_eq!(store.remove(Chat { id: -100200300 }), true);
    assert_eq!(store.read_all(), vec![]);
}
