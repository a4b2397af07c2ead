//! Subscriber store: a deduplicated collection of chat identities with
//! idempotent append and remove.
//!
//! The store is the in-memory image of the persisted subscriber set.  The
//! caller loads it from the backing file (a missing file denotes the empty
//! set), mutates it, and rewrites the whole file after every successful
//! mutation.  `append` and `remove` report in their result whether they
//! changed anything, so the caller knows whether a rewrite is due.

use vstd::prelude::*;

use crate::chat::Chat;

verus! {

/// Error raised when the backing storage cannot be read, parsed or written.
/// The caller surfaces it; it is never silently swallowed.
#[derive(Clone, Copy, PartialEq, Eq, Structural, Debug)]
pub enum StorageError {
    /// The backing file exists but does not parse as a subscriber list.
    Parse,
    /// Reading or writing the backing file failed.
    Io,
}

/// What appending `id` does to the subscriber sequence: nothing when it is
/// already present, otherwise it is pushed at the end.
pub open spec fn spec_append(s: Seq<i64>, id: i64) -> Seq<i64> {
    if s.contains(id) {
        s
    } else {
        s.push(id)
    }
}

/// What removing `id` does to the subscriber sequence: nothing when it is
/// absent, otherwise its one occurrence is deleted.
pub open spec fn spec_remove(s: Seq<i64>, id: i64) -> Seq<i64> {
    if s.contains(id) {
        s.remove(s.index_of(id))
    } else {
        s
    }
}

/// How often `id` occurs in the sequence.
pub open spec fn count_of(s: Seq<i64>, id: i64) -> nat
    decreases s.len(),
{
    if s.len() == 0 {
        0
    } else {
        count_of(s.drop_last(), id) + if s.last() == id {
            1nat
        } else {
            0nat
        }
    }
}

/// One mutation of the subscriber store, for replaying a history.
#[derive(Clone, Copy, PartialEq, Eq, Structural, Debug)]
pub enum StoreOp {
    Append(i64),
    Remove(i64),
}

/// The subscriber sequence predicted by replaying a history of mutations
/// against the empty set with append-once / remove-once semantics.
pub open spec fn replay(ops: Seq<StoreOp>) -> Seq<i64>
    decreases ops.len(),
{
    if ops.len() == 0 {
        Seq::<i64>::empty()
    } else {
        let prev = replay(ops.drop_last());
        match ops.last() {
            StoreOp::Append(id) => spec_append(prev, id),
            StoreOp::Remove(id) => spec_remove(prev, id),
        }
    }
}

/// In-memory image of the persisted subscriber set.
///
/// The order of entries carries no meaning; the invariant is that no chat
/// identity occurs twice.
pub struct SubscriberStore {
    chats: Vec<Chat>,
}

impl View for SubscriberStore {
    type V = Seq<i64>;

    closed spec fn view(&self) -> Seq<i64> {
        self.chats@.map_values(|c: Chat| c.id)
    }
}

impl SubscriberStore {
    /// No chat identity occurs twice in the store.
    pub open spec fn wf(&self) -> bool {
        self@.no_duplicates()
    }

    /// The empty store: what a missing backing file denotes.
    pub fn new() -> (s: SubscriberStore)
        ensures
            s.wf(),
            s@ == Seq::<i64>::empty(),
    {
        let s = SubscriberStore { chats: Vec::new() };
        proof {
            assert(s@ =~= Seq::<i64>::empty());
        }
        s
    }

    /// Builds a store from a freshly parsed subscriber list, keeping the
    /// first occurrence of each identity.  A list that the store itself
    /// persisted never holds a duplicate, so replaying it leaves it as is.
    pub fn from_chats(chats: &Vec<Chat>) -> (s: SubscriberStore)
        ensures
            s.wf(),
            s@ == dedup_ids(chats@.map_values(|c: Chat| c.id)),
    {
        let ghost ids = chats@.map_values(|c: Chat| c.id);
        let mut s = SubscriberStore { chats: Vec::new() };
        proof {
            assert(s@ =~= Seq::<i64>::empty());
            assert(ids.take(0) =~= Seq::<i64>::empty());
        }
        let n = chats.len();
        for i in 0..n
            invariant
                n == chats.len(),
                ids == chats@.map_values(|c: Chat| c.id),
                s.wf(),
                s@ == dedup_ids(ids.take(i as int)),
        {
            let c = chats[i];
            proof {
                assert(ids.take(i + 1).drop_last() =~= ids.take(i as int));
                assert(ids.take(i + 1).last() == c.id);
            }
            s.append(c);
        }
        proof {
            assert(ids.take(n as int) =~= ids);
        }
        s
    }

    /// Whether `chat` is currently subscribed.
    pub fn contains(&self, chat: Chat) -> (r: bool)
        ensures
            r == self@.contains(chat.id),
    {
        let n = self.chats.len();
        for i in 0..n
            invariant
                n == self.chats.len(),
                forall|j: int| 0 <= j < i ==> self@[j] != chat.id,
        {
            if self.chats[i].id == chat.id {
                proof {
                    assert(self@[i as int] == chat.id);
                }
                return true;
            }
        }
        proof {
            assert(forall|j: int| 0 <= j < self@.len() ==> self@[j] != chat.id);
        }
        false
    }

    /// Snapshot of every subscriber, in storage order.
    pub fn read_all(&self) -> (r: Vec<Chat>)
        ensures
            r@.map_values(|c: Chat| c.id) == self@,
            r@.len() == self@.len(),
    {
        let mut out: Vec<Chat> = Vec::new();
        let n = self.chats.len();
        for i in 0..n
            invariant
                n == self.chats.len(),
                out@.map_values(|c: Chat| c.id) =~= self@.take(i as int),
                out@.len() == i,
        {
            out.push(self.chats[i]);
            proof {
                assert(out@.map_values(|c: Chat| c.id) =~= self@.take(i + 1));
            }
        }
        proof {
            assert(self@.take(n as int) =~= self@);
        }
        out
    }

    /// Inserts `chat` unless it is already present.  Returns whether the
    /// store changed: `true` exactly when `chat` was absent.
    pub fn append(&mut self, chat: Chat) -> (added: bool)
        requires
            old(self).wf(),
        ensures
            final(self).wf(),
            added == !old(self)@.contains(chat.id),
            final(self)@ == spec_append(old(self)@, chat.id),
    {
        if self.contains(chat) {
            false
        } else {
            self.chats.push(chat);
            proof {
                assert(self@ =~= old(self)@.push(chat.id));
            }
            true
        }
    }

    /// Deletes `chat` if it is present.  Returns whether the store changed:
    /// `true` exactly when `chat` was present.
    pub fn remove(&mut self, chat: Chat) -> (removed: bool)
        requires
            old(self).wf(),
        ensures
            final(self).wf(),
            removed == old(self)@.contains(chat.id),
            final(self)@ == spec_remove(old(self)@, chat.id),
    {
        let n = self.chats.len();
        for i in 0..n
            invariant
                n == self.chats.len(),
                self == old(self),
                self.wf(),
                forall|j: int| 0 <= j < i ==> self@[j] != chat.id,
        {
            if self.chats[i].id == chat.id {
                proof {
                    assert(self@[i as int] == chat.id);
                    assert(self@.contains(chat.id));
                    self@.index_of_first_ensures(chat.id);
                    lemma_index_of_unique(self@, chat.id, i as int);
                }
                self.chats.remove(i);
                proof {
                    assert(self@ =~= old(self)@.remove(i as int));
                    lemma_remove_no_duplicates(old(self)@, i as int);
                }
                return true;
            }
        }
        proof {
            assert(forall|j: int| 0 <= j < self@.len() ==> self@[j] != chat.id);
        }
        false
    }
}

/// Replays a history of mutations against a fresh store.  The result is
/// exactly the set `replay` predicts: what a read is owed after the
/// history, with append-once / remove-once semantics throughout.
pub fn replay_history(ops: &Vec<StoreOp>) -> (s: SubscriberStore)
    ensures
        s.wf(),
        s@ == replay(ops@),
{
    let mut s = SubscriberStore::new();
    proof {
        assert(ops@.take(0) =~= Seq::<StoreOp>::empty());
    }
    let n = ops.len();
    for i in 0..n
        invariant
            n == ops.len(),
            s.wf(),
            s@ == replay(ops@.take(i as int)),
    {
        proof {
            assert(ops@.take(i + 1).drop_last() =~= ops@.take(i as int));
            assert(ops@.take(i + 1).last() == ops@[i as int]);
        }
        match ops[i] {
            StoreOp::Append(id) => {
                s.append(Chat { id });
            },
            StoreOp::Remove(id) => {
                s.remove(Chat { id });
            },
        }
    }
    proof {
        assert(ops@.take(n as int) =~= ops@);
    }
    s
}

/// The first occurrence of each identity, in first-seen order.
pub open spec fn dedup_ids(ids: Seq<i64>) -> Seq<i64>
    decreases ids.len(),
{
    if ids.len() == 0 {
        Seq::<i64>::empty()
    } else {
        spec_append(dedup_ids(ids.drop_last()), ids.last())
    }
}

/// In a duplicate-free sequence that contains `id`, the chosen index of `id`
/// is the one position that holds it.
pub proof fn lemma_index_of_unique(s: Seq<i64>, id: i64, i: int)
    requires
        s.no_duplicates(),
        0 <= i < s.len(),
        s[i] == id,
    ensures
        s.contains(id),
        s.index_of(id) == i,
{
    assert(s.contains(id));
    let j = s.index_of(id);
    assert(s[j] == id);
    assert(j == i);
}

/// An identity absent from a sequence occurs zero times in it.
pub proof fn lemma_count_absent(s: Seq<i64>, id: i64)
    requires
        !s.contains(id),
    ensures
        count_of(s, id) == 0,
    decreases s.len(),
{
    if s.len() > 0 {
        assert(s.last() != id);
        assert forall|j: int| 0 <= j < s.drop_last().len() implies s.drop_last()[j] != id by {
            assert(s.drop_last()[j] == s[j]);
        }
        lemma_count_absent(s.drop_last(), id);
    }
}

/// In a duplicate-free sequence that contains `id`, `id` occurs exactly once.
pub proof fn lemma_count_unique(s: Seq<i64>, id: i64)
    requires
        s.no_duplicates(),
        s.contains(id),
    ensures
        count_of(s, id) == 1,
    decreases s.len(),
{
    let t = s.drop_last();
    if s.last() == id {
        assert forall|j: int| 0 <= j < t.len() implies t[j] != id by {
            assert(t[j] == s[j]);
        }
        lemma_count_absent(t, id);
    } else {
        let i = choose|i: int| 0 <= i < s.len() && s[i] == id;
        assert(t[i] == id);
        assert(t.contains(id));
        lemma_count_unique(t, id);
    }
}

/// Pushing `id` raises its count by one.
pub proof fn lemma_count_push(s: Seq<i64>, id: i64)
    ensures
        count_of(s.push(id), id) == count_of(s, id) + 1,
{
    assert(s.push(id).drop_last() =~= s);
    assert(s.push(id).last() == id);
}

/// Appending an identity twice in succession is the same as appending it
/// once: the first append makes it present, so the second is a no-op, and
/// the resulting sequence holds exactly one instance of it.
pub proof fn lemma_append_idempotent(s: Seq<i64>, id: i64)
    requires
        s.no_duplicates(),
    ensures
        spec_append(s, id).contains(id),
        spec_append(spec_append(s, id), id) == spec_append(s, id),
        count_of(spec_append(s, id), id) == 1,
{
    if s.contains(id) {
        lemma_count_unique(s, id);
    } else {
        let t = s.push(id);
        assert(t[s.len() as int] == id);
        assert(t.contains(id));
        lemma_count_absent(s, id);
        lemma_count_push(s, id);
    }
}

/// Removing an absent identity changes nothing.
pub proof fn lemma_remove_absent(s: Seq<i64>, id: i64)
    requires
        !s.contains(id),
    ensures
        spec_remove(s, id) == s,
{
}

/// Appending never loses a subscriber: afterwards the sequence holds exactly
/// the old identities plus the appended one.  Committed appends therefore
/// stay visible to every later read, whatever else is appended.
pub proof fn lemma_append_keeps_subscribers(s: Seq<i64>, id: i64)
    ensures
        forall|x: i64| #[trigger] spec_append(s, id).contains(x) <==> (s.contains(x) || x == id),
{
    assert forall|x: i64| #[trigger] spec_append(s, id).contains(x) <==> (s.contains(x) || x
        == id) by {
        if s.contains(id) {
        } else {
            let t = s.push(id);
            assert(t[s.len() as int] == id);
            if s.contains(x) {
                let i = choose|i: int| 0 <= i < s.len() && s[i] == x;
                assert(t[i] == x);
            }
            if t.contains(x) && x != id {
                let i = choose|i: int| 0 <= i < t.len() && t[i] == x;
                assert(s[i] == x);
            }
        }
    }
}

/// Appending keeps a duplicate-free sequence duplicate-free.
pub proof fn lemma_append_no_duplicates(s: Seq<i64>, id: i64)
    requires
        s.no_duplicates(),
    ensures
        spec_append(s, id).no_duplicates(),
{
    if !s.contains(id) {
        let t = s.push(id);
        assert forall|p: int, q: int| 0 <= p < q < t.len() implies t[p] != t[q] by {
            if q == s.len() {
                assert(t[p] == s[p]);
                assert(!s.contains(t[q]) ==> s[p] != t[q]);
            }
        }
    }
}

/// Removing keeps a duplicate-free sequence duplicate-free.
pub proof fn lemma_spec_remove_no_duplicates(s: Seq<i64>, id: i64)
    requires
        s.no_duplicates(),
    ensures
        spec_remove(s, id).no_duplicates(),
{
    if s.contains(id) {
        let i = s.index_of(id);
        assert(s[i] == id);
        lemma_remove_no_duplicates(s, i);
    }
}

/// Replaying any history of appends and removes against the empty set yields
/// a duplicate-free subscriber sequence: the set a read is owed to equal.
pub proof fn lemma_replay_no_duplicates(ops: Seq<StoreOp>)
    ensures
        replay(ops).no_duplicates(),
    decreases ops.len(),
{
    if ops.len() > 0 {
        let prev = replay(ops.drop_last());
        lemma_replay_no_duplicates(ops.drop_last());
        match ops.last() {
            StoreOp::Append(id) => lemma_append_no_duplicates(prev, id),
            StoreOp::Remove(id) => lemma_spec_remove_no_duplicates(prev, id),
        }
    }
}

/// Removing `id` from a duplicate-free sequence deletes exactly `id`: every
/// other identity stays, and `id` itself is gone.
pub proof fn lemma_remove_membership(s: Seq<i64>, id: i64)
    requires
        s.no_duplicates(),
    ensures
        forall|x: i64| #[trigger] spec_remove(s, id).contains(x) <==> (s.contains(x) && x != id),
{
    assert forall|x: i64| #[trigger] spec_remove(s, id).contains(x) <==> (s.contains(x) && x
        != id) by {
        if s.contains(id) {
            let i = s.index_of(id);
            assert(s[i] == id);
            let t = s.remove(i);
            if t.contains(x) {
                let k = choose|k: int| 0 <= k < t.len() && t[k] == x;
                let sk: int = if k < i {
                    k
                } else {
                    k + 1
                };
                assert(s[sk] == x);
                assert(x != id);
            }
            if s.contains(x) && x != id {
                let j = choose|j: int| 0 <= j < s.len() && s[j] == x;
                assert(j != i);
                let tk: int = if j < i {
                    j
                } else {
                    j - 1
                };
                assert(t[tk] == x);
            }
        } else {
            if s.contains(x) && x == id {
                assert(false);
            }
        }
    }
}

/// Whether a history leaves `id` subscribed: it was appended at some point
/// and not removed since.
pub open spec fn subscribed_after(ops: Seq<StoreOp>, id: i64) -> bool
    decreases ops.len(),
{
    if ops.len() == 0 {
        false
    } else {
        match ops.last() {
            StoreOp::Append(id2) => id2 == id || subscribed_after(ops.drop_last(), id),
            StoreOp::Remove(id2) => id2 != id && subscribed_after(ops.drop_last(), id),
        }
    }
}

/// Replaying a history subscribes exactly the identities appended and not
/// removed since: a read after the history is owed each committed append
/// that no later remove undid, and owes nothing else.
pub proof fn lemma_replay_membership(ops: Seq<StoreOp>)
    ensures
        forall|id: i64| #[trigger] replay(ops).contains(id) <==> subscribed_after(ops, id),
    decreases ops.len(),
{
    if ops.len() > 0 {
        let prev = replay(ops.drop_last());
        lemma_replay_membership(ops.drop_last());
        lemma_replay_no_duplicates(ops.drop_last());
        match ops.last() {
            StoreOp::Append(id2) => {
                lemma_append_keeps_subscribers(prev, id2);
            },
            StoreOp::Remove(id2) => {
                lemma_remove_membership(prev, id2);
            },
        }
    }
}

/// Removing one position from a duplicate-free sequence leaves it
/// duplicate-free.
pub proof fn lemma_remove_no_duplicates(s: Seq<i64>, i: int)
    requires
        s.no_duplicates(),
        0 <= i < s.len(),
    ensures
        s.remove(i).no_duplicates(),
{
    let t = s.remove(i);
    assert forall|p: int, q: int| 0 <= p < q < t.len() implies t[p] != t[q] by {
        let sp: int = if p < i {
            p
        } else {
            p + 1
        };
        let sq: int = if q < i {
            q
        } else {
            q + 1
        };
        assert(t[p] == s[sp]);
        assert(t[q] == s[sq]);
    }
}

} // verus!
