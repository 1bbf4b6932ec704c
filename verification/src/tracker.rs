//! The record of lock activity: which thread holds which lock, which lock a
//! thread waits for, and the lock-order graph built from those waits.
use vstd::prelude::*;

use crate::collections::{
    held_lock_entries, held_locks_as_slice, held_locks_new, held_locks_push, held_locks_retain_other,
    is_other_lock, lock_event_entries, lock_events_insert, lock_events_new, lock_events_remove,
    lock_graph_entries, lock_graph_get, lock_graph_insert, lock_graph_new, thread_key_entries,
    thread_keys_get, thread_keys_insert, thread_keys_new, thread_state_entries, ThreadKeyTable,
    thread_states_insert, thread_states_new, thread_states_remove, HeldLocks, LockEventTable,
    LockGraphTable, ThreadStateTable,
};
use crate::runtime::{capture_backtrace, frame_window, instant_now, law_frame_window_keeps_the_frames};

verus! {

pub type ThreadId = usize;

pub type LockId = usize;

/// Number of stack frames that a lock event skips: the two of the capture
/// itself ([`crate::runtime::backtrace_frames`] and
/// [`crate::runtime::capture_backtrace`]), then [`GlobalTracker::record_lock_acquire`]
/// and the two frames of the locking call above it.
pub const LOCK_EVENT_SKIP: usize = 5;

/// Number of stack frames that a lock event keeps.
pub const LOCK_EVENT_FRAMES: usize = 10;

#[derive(Debug, Clone, Copy, PartialEq, Eq, Hash, Structural)]
pub struct LockInfo {
    pub lock_id: LockId,
    pub lock_type: LockType,
}

#[derive(Debug, Clone, Copy, PartialEq, Eq, Hash, Structural)]
pub enum LockType {
    Mutex,
    RwLockRead,
    RwLockWrite,
}

#[derive(Debug)]
pub struct LockEvent {
    pub lock_id: LockId,
    pub lock_type: LockType,
    pub thread_id: ThreadId,
    pub acquired_at: std::time::Instant,
    pub backtrace: Vec<String>,
}

impl LockEvent {
    /// Equal field by field, the backtrace by its frames.
    pub open spec fn same_as(self, other: LockEvent) -> bool {
        &&& self.lock_id == other.lock_id
        &&& self.lock_type == other.lock_type
        &&& self.thread_id == other.thread_id
        &&& self.acquired_at == other.acquired_at
        &&& self.backtrace@ == other.backtrace@
    }
}

impl Clone for LockEvent {
    fn clone(&self) -> (r: Self)
        ensures
            r.same_as(*self),
    {
        let backtrace = self.backtrace.clone();
        proof {
            assert forall|i: int| 0 <= i < backtrace@.len() implies backtrace@[i] == self.backtrace@[i] by {
                assert(cloned::<String>(self.backtrace[i], backtrace[i]));
            }
            assert(backtrace@ =~= self.backtrace@);
        }
        LockEvent {
            lock_id: self.lock_id,
            lock_type: self.lock_type,
            thread_id: self.thread_id,
            acquired_at: self.acquired_at,
            backtrace,
        }
    }
}

#[derive(Debug)]
pub struct ThreadLockState {
    pub held_locks: HeldLocks,
    pub waiting_for: Option<(LockId, LockType)>,
}

impl ThreadLockState {
    /// The locks held, in the order of acquisition.
    pub open spec fn held(self) -> Seq<(LockId, LockType)> {
        held_lock_entries(self.held_locks)
    }

    /// The locks held, in the order of acquisition.
    pub fn held_list(&self) -> (r: &[(LockId, LockType)])
        ensures
            r@ == self.held(),
    {
        held_locks_as_slice(&self.held_locks)
    }
}

/// How many entries of `held` are for the lock `lock_id`.
pub open spec fn held_count(held: Seq<(LockId, LockType)>, lock_id: LockId) -> nat
    decreases held.len(),
{
    if held.len() == 0 {
        0
    } else {
        held_count(held.drop_last(), lock_id) + (if held.last().0 == lock_id { 1nat } else { 0nat })
    }
}

/// `post` is `pre` after `thread_id` acquired `lock_id` at `acquired_at`
/// from the call stack `backtrace`: the lock's event is replaced, the lock is
/// appended to the thread's held locks and the thread waits for nothing.
pub open spec fn acquire_recorded_at(
    pre: GlobalTracker,
    post: GlobalTracker,
    lock_id: LockId,
    lock_type: LockType,
    thread_id: ThreadId,
    acquired_at: std::time::Instant,
    backtrace: Vec<String>,
) -> bool {
    &&& post.events() == pre.events().insert(
        lock_id,
        LockEvent { lock_id, lock_type, thread_id, acquired_at, backtrace },
    )
    &&& post.threads().dom() == pre.threads().dom().insert(thread_id)
    &&& post.held_by(thread_id) == pre.held_by(thread_id).push((lock_id, lock_type))
    &&& post.threads()[thread_id].waiting_for is None
    &&& forall|t: ThreadId|
        t != thread_id && #[trigger] pre.threads().contains_key(t)
            ==> post.threads()[t] == pre.threads()[t]
    &&& post.edges() == pre.edges()
}

/// `post` is `pre` after `thread_id` acquired `lock_id`, stamped with some
/// time and at most [`LOCK_EVENT_FRAMES`] frames of backtrace.
pub open spec fn acquire_recorded(
    pre: GlobalTracker,
    post: GlobalTracker,
    lock_id: LockId,
    lock_type: LockType,
    thread_id: ThreadId,
) -> bool {
    &&& post.events().dom() == pre.events().dom().insert(lock_id)
    &&& forall|l: LockId|
        l != lock_id && #[trigger] pre.events().contains_key(l)
            ==> post.events()[l] == pre.events()[l]
    &&& post.events()[lock_id].lock_id == lock_id
    &&& post.events()[lock_id].lock_type == lock_type
    &&& post.events()[lock_id].thread_id == thread_id
    &&& post.events()[lock_id].backtrace@.len() <= LOCK_EVENT_FRAMES
    &&& post.threads().dom() == pre.threads().dom().insert(thread_id)
    &&& post.held_by(thread_id) == pre.held_by(thread_id).push((lock_id, lock_type))
    &&& post.threads()[thread_id].waiting_for is None
    &&& forall|t: ThreadId|
        t != thread_id && #[trigger] pre.threads().contains_key(t)
            ==> post.threads()[t] == pre.threads()[t]
    &&& post.edges() == pre.edges()
}

/// `post` is `pre` after `thread_id` released `lock_id`: the lock's event is
/// gone and the thread holds no entry of the lock any more.
pub open spec fn release_recorded(pre: GlobalTracker, post: GlobalTracker, lock_id: LockId, thread_id: ThreadId) -> bool {
    &&& post.events() == pre.events().remove(lock_id)
    &&& post.threads().dom() == pre.threads().dom()
    &&& pre.threads().contains_key(thread_id) ==> {
        &&& post.threads()[thread_id].held() == pre.threads()[thread_id].held().filter(
            |e: (LockId, LockType)| is_other_lock(e, lock_id),
        )
        &&& post.threads()[thread_id].waiting_for == pre.threads()[thread_id].waiting_for
    }
    &&& forall|t: ThreadId|
        t != thread_id && #[trigger] pre.threads().contains_key(t)
            ==> post.threads()[t] == pre.threads()[t]
    &&& post.edges() == pre.edges()
}

/// `post` is `pre` after `thread_id` started to wait for `lock_id`: the thread
/// waits for the lock, and each entry of its held locks adds one to the count
/// of the edge from that lock to `lock_id`.
pub open spec fn wait_recorded(
    pre: GlobalTracker,
    post: GlobalTracker,
    lock_id: LockId,
    lock_type: LockType,
    thread_id: ThreadId,
) -> bool {
    &&& post.threads().dom() == pre.threads().dom().insert(thread_id)
    &&& post.held_by(thread_id) == pre.held_by(thread_id)
    &&& post.threads()[thread_id].waiting_for == Some((lock_id, lock_type))
    &&& forall|t: ThreadId|
        t != thread_id && #[trigger] pre.threads().contains_key(t)
            ==> post.threads()[t] == pre.threads()[t]
    &&& forall|from: LockId, to: LockId|
        #[trigger] post.edge_count(from, to) == pre.edge_count(from, to) + (if to == lock_id {
            held_count(pre.held_by(thread_id), from)
        } else {
            0
        })
    &&& forall|from: LockId, to: LockId|
        #[trigger] post.edges().contains_key((from, to)) <==> (pre.edges().contains_key((from, to)) || (
        to == lock_id && held_count(pre.held_by(thread_id), from) > 0))
    &&& post.events() == pre.events()
}

/// `post` is `pre` after the thread with identity `key` was given the thread
/// id `id`: the id it had, or the next one, which it then keeps.
pub open spec fn thread_id_given(pre: GlobalTracker, post: GlobalTracker, key: Seq<char>, id: ThreadId) -> bool {
    &&& id == pre.thread_id_for(key)
    &&& if pre.thread_keys().contains_key(key) {
        &&& post.thread_keys() == pre.thread_keys()
        &&& post.next_thread() == pre.next_thread()
    } else {
        &&& post.thread_keys() == pre.thread_keys().insert(key, id)
        &&& post.next_thread() == pre.next_thread() + 1
    }
    &&& post.next_lock() == pre.next_lock()
}

/// Every id given to a thread identity in `keys` is at least 1 and below
/// `next`, and no two identities share an id.
pub open spec fn ids_distinct(keys: Map<Seq<char>, ThreadId>, next: usize) -> bool {
    &&& next >= 1
    &&& forall|k: Seq<char>| #[trigger] keys.contains_key(k) ==> 1 <= keys[k] < next
    &&& forall|k1: Seq<char>, k2: Seq<char>|
        #[trigger] keys.contains_key(k1) && #[trigger] keys.contains_key(k2) && k1 != k2 ==> keys[k1]
            != keys[k2]
}

/// Giving the next id to an identity without one keeps the ids distinct.
proof fn lemma_ids_distinct_insert(keys: Map<Seq<char>, ThreadId>, next: usize, key: Seq<char>)
    requires
        ids_distinct(keys, next),
        !keys.contains_key(key),
        next < usize::MAX,
    ensures
        ids_distinct(keys.insert(key, next), (next + 1) as usize),
{
    let post = keys.insert(key, next);
    assert forall|k: Seq<char>| #[trigger] post.contains_key(k) implies 1 <= post[k] < next + 1 by {
        if k != key {
            assert(keys.contains_key(k));
        }
    }
    assert forall|k1: Seq<char>, k2: Seq<char>|
        #[trigger] post.contains_key(k1) && #[trigger] post.contains_key(k2) && k1 != k2 implies post[k1]
            != post[k2] by {
        if k1 != key {
            assert(keys.contains_key(k1));
        }
        if k2 != key {
            assert(keys.contains_key(k2));
        }
    }
}

/// The thread ids given so far, by thread identity, and the next one. No two
/// identities ever share an id.
pub struct ThreadIds {
    table: ThreadKeyTable,
    next: usize,
}

impl ThreadIds {
    #[verifier::type_invariant]
    spec fn distinct(self) -> bool {
        ids_distinct(thread_key_entries(self.table), self.next)
    }

    /// Thread identity to the id given to it.
    pub closed spec fn keys(&self) -> Map<Seq<char>, ThreadId> {
        thread_key_entries(self.table)
    }

    /// The id that the next identity gets.
    pub closed spec fn next(&self) -> usize {
        self.next
    }

    /// No id given yet; the first will be 1.
    pub fn new() -> (r: Self)
        ensures
            r.keys().dom() == Set::<Seq<char>>::empty(),
            r.next() == 1,
    {
        let table = thread_keys_new();
        proof {
            assert(thread_key_entries(table) =~= Map::<Seq<char>, ThreadId>::empty());
        }
        ThreadIds { table, next: 1 }
    }

    /// The id given to the identity `key`, if any.
    pub fn get(&self, key: &String) -> (r: Option<ThreadId>)
        ensures
            r is Some <==> self.keys().contains_key(key@),
            r matches Some(id) ==> id == self.keys()[key@],
    {
        thread_keys_get(&self.table, key)
    }

    /// The id that the next identity gets.
    pub fn next_id(&self) -> (r: usize)
        ensures
            r == self.next(),
    {
        self.next
    }

    /// The ids are distinct.
    fn show_distinct(&self)
        ensures
            ids_distinct(self.keys(), self.next()),
    {
        proof {
            use_type_invariant(self);
        }
    }

    /// The id of the identity `key`: the one it has, else the next one, which
    /// it keeps from then on.
    fn give(&mut self, key: &String) -> (r: ThreadId)
        requires
            old(self).keys().contains_key(key@) || old(self).next() < usize::MAX,
        ensures
            old(self).keys().contains_key(key@) ==> {
                &&& r == old(self).keys()[key@]
                &&& final(self).keys() == old(self).keys()
                &&& final(self).next() == old(self).next()
            },
            !old(self).keys().contains_key(key@) ==> {
                &&& r == old(self).next()
                &&& final(self).keys() == old(self).keys().insert(key@, r)
                &&& final(self).next() == old(self).next() + 1
            },
    {
        proof {
            use_type_invariant(&*self);
        }
        match thread_keys_get(&self.table, key) {
            Some(id) => id,
            None => {
                let id = self.next;
                let mut taken = ThreadIds::new();
                core::mem::swap(&mut taken, self);
                proof {
                    use_type_invariant(&taken);
                }
                let ThreadIds { table, next } = taken;
                let mut table = table;
                thread_keys_insert(&mut table, key.clone(), id);
                proof {
                    lemma_ids_distinct_insert(old(self).keys(), id, key@);
                }
                *self = ThreadIds { table, next: id + 1 };
                id
            },
        }
    }
}

pub struct GlobalTracker {
    pub lock_events: LockEventTable,
    pub thread_states: ThreadStateTable,
    pub lock_graph: LockGraphTable,
    pub thread_ids: ThreadIds,
    pub next_lock_id: usize,
    pub stack: Ghost<Seq<String>>,
}

impl GlobalTracker {
    /// The call stack captured by the latest acquisition recorded with
    /// [`Self::record_lock_acquire`], innermost frame first.
    pub open spec fn captured_stack(&self) -> Seq<String> {
        self.stack@
    }

    /// Lock id to the event of the lock's current acquisition.
    pub open spec fn events(&self) -> Map<LockId, LockEvent> {
        lock_event_entries(self.lock_events)
    }

    /// Thread id to the thread's lock state.
    pub open spec fn threads(&self) -> Map<ThreadId, ThreadLockState> {
        thread_state_entries(self.thread_states)
    }

    /// Edge of the lock-order graph to its count.
    pub open spec fn edges(&self) -> Map<(LockId, LockId), usize> {
        lock_graph_entries(self.lock_graph)
    }

    /// Thread identity to the thread id given to it.
    pub open spec fn thread_keys(&self) -> Map<Seq<char>, ThreadId> {
        self.thread_ids.keys()
    }

    /// The thread id that the thread with identity `key` has, or gets next.
    pub open spec fn thread_id_for(&self, key: Seq<char>) -> ThreadId {
        if self.thread_keys().contains_key(key) {
            self.thread_keys()[key]
        } else {
            self.next_thread()
        }
    }

    /// Every id given to a thread identity is at least 1 and below the next
    /// one, and no two identities share an id.
    pub open spec fn thread_ids_distinct(&self) -> bool {
        ids_distinct(self.thread_keys(), self.next_thread())
    }

    /// Whether a thread id is left for the thread with identity `key`.
    pub open spec fn thread_id_available(&self, key: Seq<char>) -> bool {
        self.thread_keys().contains_key(key) || self.next_thread() < usize::MAX
    }

    /// The id that the next allocated lock gets.
    pub open spec fn next_lock(&self) -> usize {
        self.next_lock_id
    }

    /// The id that the next allocated thread gets.
    pub open spec fn next_thread(&self) -> usize {
        self.thread_ids.next()
    }

    /// The locks that thread `thread_id` holds; none if it has no state.
    pub open spec fn held_by(&self, thread_id: ThreadId) -> Seq<(LockId, LockType)> {
        if self.threads().contains_key(thread_id) {
            self.threads()[thread_id].held()
        } else {
            Seq::empty()
        }
    }

    /// The count of the edge `(from, to)`; zero where there is none.
    pub open spec fn edge_count(&self, from: LockId, to: LockId) -> nat {
        if self.edges().contains_key((from, to)) {
            self.edges()[(from, to)] as nat
        } else {
            0
        }
    }

    /// Whether every count that a wait of `thread_id` for `lock_id` raises
    /// stays within `usize`.
    pub open spec fn wait_fits(&self, thread_id: ThreadId, lock_id: LockId) -> bool {
        forall|h: LockId|
            #![trigger held_count(self.held_by(thread_id), h)]
            held_count(self.held_by(thread_id), h) > 0 ==> self.edge_count(h, lock_id)
                + held_count(self.held_by(thread_id), h) <= usize::MAX
    }

    pub fn new() -> (r: Self)
        ensures
            r.events().dom() == Set::<LockId>::empty(),
            r.threads().dom() == Set::<ThreadId>::empty(),
            r.edges().dom() == Set::<(LockId, LockId)>::empty(),
            r.thread_keys().dom() == Set::<Seq<char>>::empty(),
            r.thread_ids_distinct(),
            r.next_lock() == 1,
            r.next_thread() == 1,
    {
        GlobalTracker {
            lock_events: lock_events_new(),
            thread_states: thread_states_new(),
            lock_graph: lock_graph_new(),
            thread_ids: ThreadIds::new(),
            next_lock_id: 1,
            stack: Ghost(Seq::empty()),
        }
    }

    /// Hands out a fresh lock id: ids are given in increasing order from 1.
    pub fn allocate_lock_id(&mut self) -> (r: LockId)
        requires
            old(self).next_lock() < usize::MAX,
        ensures
            r == old(self).next_lock(),
            final(self).next_lock() == old(self).next_lock() + 1,
            final(self).next_thread() == old(self).next_thread(),
            final(self).thread_keys() == old(self).thread_keys(),
            old(self).thread_ids_distinct() ==> final(self).thread_ids_distinct(),
            final(self).events() == old(self).events(),
            final(self).threads() == old(self).threads(),
            final(self).edges() == old(self).edges(),
    {
        let lock_id = self.next_lock_id;
        self.next_lock_id = self.next_lock_id + 1;
        proof {
            lemma_ids_kept(*old(self), *self);
        }
        lock_id
    }

    /// The thread id of the thread with identity `thread_key`: the one it was
    /// given before, else a fresh one, in increasing order from 1, which it
    /// keeps from then on.
    pub fn get_or_allocate_thread_id(&mut self, thread_key: &String) -> (r: ThreadId)
        requires
            old(self).thread_id_available(thread_key@),
        ensures
            thread_id_given(*old(self), *final(self), thread_key@, r),
            final(self).thread_ids_distinct(),
            final(self).events() == old(self).events(),
            final(self).threads() == old(self).threads(),
            final(self).edges() == old(self).edges(),
    {
        let r = self.thread_ids.give(thread_key);
        self.thread_ids.show_distinct();
        r
    }

    /// Records that `thread_id` acquired `lock_id`, with the time and the call
    /// stack of the acquisition given.
    pub fn record_lock_acquire_at(
        &mut self,
        lock_id: LockId,
        lock_type: LockType,
        thread_id: ThreadId,
        acquired_at: std::time::Instant,
        backtrace: Vec<String>,
    )
        ensures
            acquire_recorded_at(*old(self), *final(self), lock_id, lock_type, thread_id, acquired_at, backtrace),
            final(self).next_lock() == old(self).next_lock(),
            final(self).next_thread() == old(self).next_thread(),
            final(self).thread_keys() == old(self).thread_keys(),
            old(self).thread_ids_distinct() ==> final(self).thread_ids_distinct(),
    {
        let event = LockEvent { lock_id, lock_type, thread_id, acquired_at, backtrace };
        lock_events_insert(&mut self.lock_events, lock_id, event);

        let state = match thread_states_remove(&mut self.thread_states, thread_id) {
            Some(state) => {
                let mut state = state;
                held_locks_push(&mut state.held_locks, (lock_id, lock_type));
                state.waiting_for = None;
                state
            },
            None => {
                let mut held = held_locks_new();
                held_locks_push(&mut held, (lock_id, lock_type));
                ThreadLockState { held_locks: held, waiting_for: None }
            },
        };
        thread_states_insert(&mut self.thread_states, thread_id, state);
        assert(self.held_by(thread_id) =~= old(self).held_by(thread_id).push((lock_id, lock_type)));
        assert(self.threads().dom() =~= old(self).threads().dom().insert(thread_id));
        proof {
            lemma_ids_kept(*old(self), *self);
        }
    }

    /// Records that `thread_id` acquired `lock_id`, stamped with the current
    /// time and the call stack.
    pub fn record_lock_acquire(&mut self, lock_id: LockId, lock_type: LockType, thread_id: ThreadId)
        ensures
            acquire_recorded(*old(self), *final(self), lock_id, lock_type, thread_id),
            final(self).events()[lock_id].backtrace@ == frame_window(
                final(self).captured_stack(),
                LOCK_EVENT_SKIP as nat,
                LOCK_EVENT_FRAMES as nat,
            ),
            final(self).next_lock() == old(self).next_lock(),
            final(self).next_thread() == old(self).next_thread(),
            final(self).thread_keys() == old(self).thread_keys(),
            old(self).thread_ids_distinct() ==> final(self).thread_ids_distinct(),
    {
        let (backtrace, stack) = capture_backtrace(LOCK_EVENT_SKIP, LOCK_EVENT_FRAMES);
        let acquired_at = instant_now();
        self.record_lock_acquire_at(lock_id, lock_type, thread_id, acquired_at, backtrace);
        self.stack = stack;
    }

    /// Records that `thread_id` released `lock_id`: the lock's event is gone
    /// and the thread no longer holds the lock.
    pub fn record_lock_release(&mut self, lock_id: LockId, thread_id: ThreadId)
        ensures
            release_recorded(*old(self), *final(self), lock_id, thread_id),
            final(self).next_lock() == old(self).next_lock(),
            final(self).next_thread() == old(self).next_thread(),
            final(self).thread_keys() == old(self).thread_keys(),
            old(self).thread_ids_distinct() ==> final(self).thread_ids_distinct(),
    {
        lock_events_remove(&mut self.lock_events, lock_id);
        match thread_states_remove(&mut self.thread_states, thread_id) {
            Some(state) => {
                let mut state = state;
                held_locks_retain_other(&mut state.held_locks, lock_id);
                thread_states_insert(&mut self.thread_states, thread_id, state);
                assert(self.threads().dom() =~= old(self).threads().dom());
            },
            None => {
                assert(self.threads() =~= old(self).threads());
            },
        }
    }

    /// Records that `thread_id` waits for `lock_id`: the thread's state says so,
    /// and each lock that the thread holds gets an edge to `lock_id` in the
    /// lock-order graph, counted once per entry of the held list.
    pub fn record_lock_wait(&mut self, lock_id: LockId, lock_type: LockType, thread_id: ThreadId)
        requires
            old(self).wait_fits(thread_id, lock_id),
        ensures
            wait_recorded(*old(self), *final(self), lock_id, lock_type, thread_id),
            final(self).next_lock() == old(self).next_lock(),
            final(self).next_thread() == old(self).next_thread(),
            final(self).thread_keys() == old(self).thread_keys(),
            old(self).thread_ids_distinct() ==> final(self).thread_ids_distinct(),
    {
        let state = match thread_states_remove(&mut self.thread_states, thread_id) {
            Some(state) => {
                let mut state = state;
                state.waiting_for = Some((lock_id, lock_type));
                state
            },
            None => ThreadLockState { held_locks: held_locks_new(), waiting_for: Some((lock_id, lock_type)) },
        };
        let ghost held = old(self).held_by(thread_id);
        assert(state.held() == held);
        let held_slice = held_locks_as_slice(&state.held_locks);
        let n = held_slice.len();
        let mut i: usize = 0;
        while i < n
            invariant
                0 <= i <= n,
                n == held.len(),
                held_slice@ == held,
                held == old(self).held_by(thread_id),
                old(self).wait_fits(thread_id, lock_id),
                self.events() == old(self).events(),
                self.next_lock() == old(self).next_lock(),
                self.next_thread() == old(self).next_thread(),
                self.thread_keys() == old(self).thread_keys(),
                self.threads() == old(self).threads().remove(thread_id),
                forall|from: LockId, to: LockId|
                    #[trigger] self.edge_count(from, to) == old(self).edge_count(from, to) + (
                    if to == lock_id {
                        held_count(held.take(i as int), from)
                    } else {
                        0
                    }),
                forall|from: LockId, to: LockId|
                    #[trigger] self.edges().contains_key((from, to)) <==> (
                    old(self).edges().contains_key((from, to)) || (to == lock_id && held_count(
                        held.take(i as int),
                        from,
                    ) > 0)),
            decreases n - i,
        {
            let held_id = held_slice[i].0;
            proof {
                assert(held.take(i + 1).drop_last() =~= held.take(i as int));
                lemma_held_count_prefix(held, i + 1, held_id);
                assert(held_count(held.take(i + 1), held_id) == held_count(held.take(i as int), held_id) + 1);
                assert(held_count(held, held_id) > 0);
            }
            assert(self.edge_count(held_id, lock_id) == old(self).edge_count(held_id, lock_id) + held_count(
                held.take(i as int),
                held_id,
            ));
            let ghost before = self.edges();
            let ghost pre = *self;
            match lock_graph_get(&self.lock_graph, (held_id, lock_id)) {
                Some(count) => {
                    lock_graph_insert(&mut self.lock_graph, (held_id, lock_id), count + 1);
                },
                None => {
                    lock_graph_insert(&mut self.lock_graph, (held_id, lock_id), 1);
                },
            }
            i = i + 1;
            proof {
                assert forall|from: LockId, to: LockId|
                    #[trigger] self.edge_count(from, to) == old(self).edge_count(from, to) + (
                    if to == lock_id {
                        held_count(held.take(i as int), from)
                    } else {
                        0
                    }) by {
                    assert(held.take(i as int).drop_last() =~= held.take(i - 1));
                    assert(held.take(i as int).last() == held[i - 1]);
                    assert(pre.edge_count(from, to) == old(self).edge_count(from, to) + (if to == lock_id {
                        held_count(held.take(i - 1), from)
                    } else {
                        0
                    }));
                    if (from, to) != (held_id, lock_id) {
                        assert(self.edges().contains_key((from, to)) == before.contains_key((from, to)));
                    }
                }
                assert forall|from: LockId, to: LockId|
                    #[trigger] self.edges().contains_key((from, to)) <==> (
                    old(self).edges().contains_key((from, to)) || (to == lock_id && held_count(
                        held.take(i as int),
                        from,
                    ) > 0)) by {
                    assert(held.take(i as int).drop_last() =~= held.take(i - 1));
                    assert(pre.edges().contains_key((from, to)) <==> (old(self).edges().contains_key((from, to))
                        || (to == lock_id && held_count(held.take(i - 1), from) > 0)));
                }
            }
        }
        proof {
            assert(held.take(n as int) =~= held);
        }
        let ghost after_loop = *self;
        thread_states_insert(&mut self.thread_states, thread_id, state);
        assert(self.threads().dom() =~= old(self).threads().dom().insert(thread_id));
        assert forall|from: LockId, to: LockId|
            #[trigger] self.edge_count(from, to) == old(self).edge_count(from, to) + (if to == lock_id {
                held_count(old(self).held_by(thread_id), from)
            } else {
                0
            }) by {
            assert(after_loop.edge_count(from, to) == self.edge_count(from, to));
        }
        assert forall|from: LockId, to: LockId|
            #[trigger] self.edges().contains_key((from, to)) <==> (old(self).edges().contains_key((from, to))
                || (to == lock_id && held_count(old(self).held_by(thread_id), from) > 0)) by {
            assert(after_loop.edges().contains_key((from, to)) == self.edges().contains_key((from, to)));
        }
    }
}

impl GlobalTracker {
    /// The thread id that the thread with identity `thread_key` has, or gets
    /// next.
    pub fn thread_id_of(&self, thread_key: &String) -> (r: ThreadId)
        ensures
            r == self.thread_id_for(thread_key@),
    {
        match self.thread_ids.get(thread_key) {
            Some(id) => id,
            None => self.thread_ids.next_id(),
        }
    }

    /// The ids given to thread identities are distinct, each at least 1 and
    /// below the next one: [`ThreadIds`] keeps them so.
    pub fn thread_ids_are_distinct(&self)
        ensures
            self.thread_ids_distinct(),
    {
        self.thread_ids.show_distinct();
    }

    /// Whether a thread id is left for the thread with identity `thread_key`.
    pub fn thread_id_left(&self, thread_key: &String) -> (r: bool)
        ensures
            r == self.thread_id_available(thread_key@),
    {
        match self.thread_ids.get(thread_key) {
            Some(_) => true,
            None => self.thread_ids.next_id() < usize::MAX,
        }
    }

    /// Whether every count that a wait of `thread_id` for `lock_id` would
    /// raise stays within `usize`. The tracker is handed back as it was.
    pub fn wait_would_fit(&mut self, thread_id: ThreadId, lock_id: LockId) -> (r: bool)
        ensures
            r == old(self).wait_fits(thread_id, lock_id),
            final(self).events() == old(self).events(),
            final(self).threads() == old(self).threads(),
            final(self).edges() == old(self).edges(),
            final(self).thread_keys() == old(self).thread_keys(),
            final(self).next_lock() == old(self).next_lock(),
            final(self).next_thread() == old(self).next_thread(),
    {
        match thread_states_remove(&mut self.thread_states, thread_id) {
            None => {
                proof {
                    assert(self.threads() =~= old(self).threads());
                    assert(old(self).held_by(thread_id) =~= Seq::<(LockId, LockType)>::empty());
                }
                true
            },
            Some(state) => {
                let ghost held = state.held();
                assert(held == old(self).held_by(thread_id));
                let held_slice = held_locks_as_slice(&state.held_locks);
                let n = held_slice.len();
                let mut fits = true;
                let mut j: usize = 0;
                while j < n
                    invariant
                        0 <= j <= n,
                        n == held.len(),
                        held_slice@ == held,
                        held == old(self).held_by(thread_id),
                        lock_graph_entries(self.lock_graph) == old(self).edges(),
                        fits == forall|jj: int|
                            0 <= jj < j ==> old(self).edge_count(#[trigger] held[jj].0, lock_id) + held_count(
                                held,
                                held[jj].0,
                            ) <= usize::MAX,
                    decreases n - j,
                {
                    let h = held_slice[j].0;
                    let mut cnt: usize = 0;
                    let mut k: usize = 0;
                    while k < n
                        invariant
                            0 <= k <= n,
                            n == held.len(),
                            held_slice@ == held,
                            cnt == held_count(held.take(k as int), h),
                            cnt <= k,
                        decreases n - k,
                    {
                        proof {
                            assert(held.take(k + 1).drop_last() =~= held.take(k as int));
                            assert(held.take(k + 1).last() == held[k as int]);
                        }
                        if held_slice[k].0 == h {
                            cnt = cnt + 1;
                        }
                        k = k + 1;
                    }
                    proof {
                        assert(held.take(n as int) =~= held);
                    }
                    let edge = match lock_graph_get(&self.lock_graph, (h, lock_id)) {
                        Some(c) => c,
                        None => 0,
                    };
                    if edge > usize::MAX - cnt {
                        fits = false;
                    }
                    j = j + 1;
                }
                proof {
                    if fits {
                        assert forall|x: LockId|
                            #![trigger held_count(old(self).held_by(thread_id), x)]
                            held_count(old(self).held_by(thread_id), x) > 0 implies old(self).edge_count(x, lock_id)
                                + held_count(old(self).held_by(thread_id), x) <= usize::MAX by {
                            lemma_held_count_witness(held, x);
                            let jj = choose|jj: int| 0 <= jj < held.len() && #[trigger] held[jj].0 == x;
                            assert(old(self).edge_count(held[jj].0, lock_id) + held_count(held, held[jj].0)
                                <= usize::MAX);
                        }
                    }
                    if !fits {
                        let jj = choose|jj: int|
                            0 <= jj < n && !(old(self).edge_count(#[trigger] held[jj].0, lock_id) + held_count(
                                held,
                                held[jj].0,
                            ) <= usize::MAX);
                        lemma_held_count_positive(held, jj);
                        assert(!old(self).wait_fits(thread_id, lock_id));
                    }
                }
                thread_states_insert(&mut self.thread_states, thread_id, state);
                proof {
                    assert(self.threads() =~= old(self).threads());
                }
                fits
            },
        }
    }
}

/// A lock counted in a held list appears in it.
proof fn lemma_held_count_witness(held: Seq<(LockId, LockType)>, lock_id: LockId)
    requires
        held_count(held, lock_id) > 0,
    ensures
        exists|j: int| 0 <= j < held.len() && #[trigger] held[j].0 == lock_id,
    decreases held.len(),
{
    if held.last().0 != lock_id {
        lemma_held_count_witness(held.drop_last(), lock_id);
        let j = choose|j: int| 0 <= j < held.drop_last().len() && #[trigger] held.drop_last()[j].0 == lock_id;
        assert(held[j] == held.drop_last()[j]);
    } else {
        assert(held[held.len() - 1].0 == lock_id);
    }
}

/// A tracker with the same thread ids and the same next one keeps their
/// distinctness.
proof fn lemma_ids_kept(pre: GlobalTracker, post: GlobalTracker)
    requires
        post.thread_keys() == pre.thread_keys(),
        post.next_thread() == pre.next_thread(),
    ensures
        pre.thread_ids_distinct() ==> post.thread_ids_distinct(),
{
}

/// A prefix of a held list counts a lock at most as often as the whole list.
proof fn lemma_held_count_prefix(held: Seq<(LockId, LockType)>, j: int, lock_id: LockId)
    requires
        0 <= j <= held.len(),
    ensures
        held_count(held.take(j), lock_id) <= held_count(held, lock_id),
    decreases held.len(),
{
    if j < held.len() {
        lemma_held_count_prefix(held.drop_last(), j, lock_id);
        assert(held.drop_last().take(j) =~= held.take(j));
    } else {
        assert(held.take(j) =~= held);
    }
}

/// A held list without an entry of `lock_id` is kept whole by dropping the
/// entries of `lock_id`.
proof fn lemma_filter_other_keeps(held: Seq<(LockId, LockType)>, lock_id: LockId)
    requires
        forall|k: int| 0 <= k < held.len() ==> (#[trigger] held[k]).0 != lock_id,
    ensures
        held.filter(|e: (LockId, LockType)| is_other_lock(e, lock_id)) == held,
    decreases held.len(),
{
    reveal(Seq::filter);
    if held.len() > 0 {
        lemma_filter_other_keeps(held.drop_last(), lock_id);
        assert(held.drop_last().push(held.last()) =~= held);
    }
}

/// A lock that appears in a held list is counted there.
proof fn lemma_held_count_positive(held: Seq<(LockId, LockType)>, k: int)
    requires
        0 <= k < held.len(),
    ensures
        held_count(held, held[k].0) > 0,
    decreases held.len(),
{
    if k < held.len() - 1 {
        lemma_held_count_positive(held.drop_last(), k);
    }
}

/// Releasing a lock undoes acquiring it: a thread that held no entry of the
/// lock before holds the same locks again, and the lock has no event.
pub proof fn law_release_undoes_acquire(
    s0: GlobalTracker,
    s1: GlobalTracker,
    s2: GlobalTracker,
    lock_id: LockId,
    lock_type: LockType,
    thread_id: ThreadId,
)
    requires
        acquire_recorded(s0, s1, lock_id, lock_type, thread_id),
        release_recorded(s1, s2, lock_id, thread_id),
        forall|k: int|
            0 <= k < s0.held_by(thread_id).len() ==> (#[trigger] s0.held_by(thread_id)[k]).0 != lock_id,
    ensures
        s2.held_by(thread_id) == s0.held_by(thread_id),
        s2.events() == s0.events().remove(lock_id),
        s2.edges() == s0.edges(),
{
    let held = s0.held_by(thread_id);
    let pushed = held.push((lock_id, lock_type));
    assert(s1.threads().contains_key(thread_id));
    assert(pushed.drop_last() =~= held);
    lemma_filter_other_keeps(held, lock_id);
    assert(pushed.filter(|e: (LockId, LockType)| is_other_lock(e, lock_id)) == held) by {
        reveal(Seq::filter);
    }
    assert(s2.events() =~= s0.events().remove(lock_id));
}

/// Waiting while holding a lock puts the edge from the held lock to the
/// awaited one into the lock-order graph.
pub proof fn law_wait_adds_edge(
    pre: GlobalTracker,
    post: GlobalTracker,
    lock_id: LockId,
    lock_type: LockType,
    thread_id: ThreadId,
    k: int,
)
    requires
        wait_recorded(pre, post, lock_id, lock_type, thread_id),
        0 <= k < pre.held_by(thread_id).len(),
    ensures
        post.edges().contains_key((pre.held_by(thread_id)[k].0, lock_id)),
{
    lemma_held_count_positive(pre.held_by(thread_id), k);
    assert(post.edges().contains_key((pre.held_by(thread_id)[k].0, lock_id)));
}

/// A wait keeps every edge of the lock-order graph.
pub proof fn law_wait_keeps_edges(
    pre: GlobalTracker,
    post: GlobalTracker,
    lock_id: LockId,
    lock_type: LockType,
    thread_id: ThreadId,
)
    requires
        wait_recorded(pre, post, lock_id, lock_type, thread_id),
    ensures
        pre.edges().dom().subset_of(post.edges().dom()),
{
    assert forall|e: (LockId, LockId)| pre.edges().dom().contains(e) implies post.edges().dom().contains(e) by {
        assert(post.edges().contains_key((e.0, e.1)));
    }
}

/// A thread keeps its thread id: asked twice for the same identity, with only
/// operations in between that keep the identities' ids, the tracker gives the
/// same id, and the second time it hands out nothing new.
pub proof fn law_thread_id_stable(
    s0: GlobalTracker,
    s1: GlobalTracker,
    s2: GlobalTracker,
    s3: GlobalTracker,
    key: Seq<char>,
    first: ThreadId,
    second: ThreadId,
)
    requires
        thread_id_given(s0, s1, key, first),
        s2.thread_keys() == s1.thread_keys(),
        thread_id_given(s2, s3, key, second),
    ensures
        second == first,
        s3.thread_keys() == s2.thread_keys(),
        s3.next_thread() == s2.next_thread(),
{
}

/// Different threads get different ids: where every id given so far is below
/// the next one and no two identities share an id, giving an id to a thread
/// keeps it so.
pub proof fn law_thread_ids_distinct(pre: GlobalTracker, post: GlobalTracker, key: Seq<char>, id: ThreadId)
    requires
        pre.thread_ids_distinct(),
        thread_id_given(pre, post, key, id),
    ensures
        post.thread_ids_distinct(),
{
    if !pre.thread_keys().contains_key(key) {
        let keys = post.thread_keys();
        assert forall|k: Seq<char>| #[trigger] keys.contains_key(k) implies 1 <= keys[k] < post.next_thread() by {
            if k != key {
                assert(pre.thread_keys().contains_key(k));
            }
        }
        assert forall|k1: Seq<char>, k2: Seq<char>|
            #[trigger] keys.contains_key(k1) && #[trigger] keys.contains_key(k2) && k1 != k2
                implies keys[k1] != keys[k2] by {
            if k1 != key {
                assert(pre.thread_keys().contains_key(k1));
            }
            if k2 != key {
                assert(pre.thread_keys().contains_key(k2));
            }
        }
    }
}

/// Different threads get different ids: starting from a tracker whose ids are
/// distinct (as the ids of every tracker are, see
/// [`GlobalTracker::thread_ids_are_distinct`]), two threads with different
/// identities, asked for in turn with only operations in between that keep
/// the ids and the next one, get different ids.
pub proof fn law_thread_ids_differ(
    s0: GlobalTracker,
    s1: GlobalTracker,
    s2: GlobalTracker,
    s3: GlobalTracker,
    first_key: Seq<char>,
    second_key: Seq<char>,
    first: ThreadId,
    second: ThreadId,
)
    requires
        s0.thread_ids_distinct(),
        thread_id_given(s0, s1, first_key, first),
        s2.thread_keys() == s1.thread_keys(),
        s2.next_thread() == s1.next_thread(),
        thread_id_given(s2, s3, second_key, second),
        first_key != second_key,
    ensures
        first != second,
{
    law_thread_ids_distinct(s0, s1, first_key, first);
    lemma_ids_kept(s1, s2);
    assert(s2.thread_keys().contains_key(first_key));
    assert(s2.thread_keys()[first_key] == first);
}

/// Lock ids never repeat: an id handed out by [`GlobalTracker::allocate_lock_id`]
/// is below the next one, and no operation lowers the next one, so a later
/// allocation hands out another id.
pub proof fn law_lock_ids_distinct(
    s0: GlobalTracker,
    s1: GlobalTracker,
    s2: GlobalTracker,
    first: LockId,
    second: LockId,
)
    requires
        first == s0.next_lock(),
        s1.next_lock() == s0.next_lock() + 1,
        s1.next_lock() <= s2.next_lock(),
        second == s2.next_lock(),
    ensures
        first != second,
{
}

/// An acquisition keeps the frames of the code that took the lock: the
/// event's backtrace is the captured stack from frame [`LOCK_EVENT_SKIP`] on,
/// [`LOCK_EVENT_FRAMES`] frames at most, in order, and it is empty only where
/// the stack has no frame past the skipped ones.
pub proof fn law_event_backtrace_kept(post: GlobalTracker, lock_id: LockId)
    requires
        post.events()[lock_id].backtrace@ == frame_window(
            post.captured_stack(),
            LOCK_EVENT_SKIP as nat,
            LOCK_EVENT_FRAMES as nat,
        ),
    ensures
        forall|i: int|
            0 <= i < post.events()[lock_id].backtrace@.len() ==> #[trigger] post.events()[lock_id].backtrace@[i]
                == post.captured_stack()[LOCK_EVENT_SKIP + i],
        post.events()[lock_id].backtrace@.len() <= LOCK_EVENT_FRAMES,
        post.captured_stack().len() > LOCK_EVENT_SKIP ==> post.events()[lock_id].backtrace@.len() > 0,
        post.captured_stack().len() >= LOCK_EVENT_SKIP + LOCK_EVENT_FRAMES ==> post.events()[lock_id].backtrace@.len()
            == LOCK_EVENT_FRAMES,
{
    law_frame_window_keeps_the_frames(post.captured_stack(), LOCK_EVENT_SKIP as nat, LOCK_EVENT_FRAMES as nat);
}

} // verus!
