use vstd::prelude::*;

use crate::collections::{
    access_entries, access_list_as_slice, access_list_entries, access_list_new, access_list_push,
    access_list_remove_first, accesses_insert, accesses_new, accesses_remove, race_key_entries,
    race_keys_contains, race_keys_insert, race_keys_new, AccessList, AccessTable, RaceKey, RaceKeyTable,
};
use crate::runtime::{capture_backtrace, frame_window, instant_now, law_frame_window_keeps_the_frames};
use crate::tracker::ThreadId;

verus! {

#[derive(Debug, Clone, Copy, PartialEq, Eq, Structural)]
pub enum AccessType {
    Read,
    Write,
}

#[derive(Debug)]
pub struct MemoryAccess {
    pub thread_id: ThreadId,
    pub access_type: AccessType,
    pub lock_held: Option<usize>,
    pub backtrace: Vec<String>,
    pub timestamp: std::time::Instant,
    pub data_size: usize,
}

impl MemoryAccess {
    /// Equal field by field, the backtrace by its frames.
    pub open spec fn same_as(self, other: MemoryAccess) -> bool {
        &&& self.thread_id == other.thread_id
        &&& self.access_type == other.access_type
        &&& self.lock_held == other.lock_held
        &&& self.backtrace@ == other.backtrace@
        &&& self.timestamp == other.timestamp
        &&& self.data_size == other.data_size
    }
}

impl Clone for MemoryAccess {
    fn clone(&self) -> (r: Self)
        ensures
            r.same_as(*self),
    {
        let backtrace = self.backtrace.clone();
        proof {
            assert forall|i: int| 0 <= i < backtrace@.len() implies backtrace@[i] == self.backtrace@[i] by {
                assert(cloned::<String>(self.backtrace[i], backtrace[i]));
            }
            assert(backtrace@ =~= self.backtrace@);
        }
        MemoryAccess {
            thread_id: self.thread_id,
            access_type: self.access_type,
            lock_held: self.lock_held,
            backtrace,
            timestamp: self.timestamp,
            data_size: self.data_size,
        }
    }
}

#[derive(Debug)]
pub struct MemoryAccessRecord {
    pub address: usize,
    pub accesses: AccessList,
}


#[derive(Debug, Clone)]
pub struct RaceReport {
    pub address: usize,
    pub access1: MemoryAccess,
    pub access2: MemoryAccess,
}

/// Number of stack frames that an access skips: the two of the capture itself
/// ([`crate::runtime::backtrace_frames`] and
/// [`crate::runtime::capture_backtrace`]), then [`RaceDetector::record_access`]
/// and the two frames of the accessing call above it.
pub const ACCESS_SKIP: usize = 5;

/// Number of stack frames that an access keeps.
pub const ACCESS_FRAMES: usize = 8;

/// Number of accesses kept per address: once an address has this many, the
/// oldest one makes room for the next. It is the number that an address's
/// list holds without allocating.
pub const ACCESS_HISTORY_LIMIT: usize = 8;

/// The latest [`ACCESS_HISTORY_LIMIT`] accesses of `history`.
pub open spec fn latest(history: Seq<MemoryAccess>) -> Seq<MemoryAccess> {
    if history.len() > ACCESS_HISTORY_LIMIT {
        history.subrange(history.len() - ACCESS_HISTORY_LIMIT, history.len() as int)
    } else {
        history
    }
}

/// Whether an access by `thread_id` of kind `access_type`, made holding
/// `lock_held`, races with the `earlier` access to the same address: the two
/// come from different threads, at least one of them writes, and they are not
/// both made under one and the same lock.
pub open spec fn conflicts(
    earlier: MemoryAccess,
    thread_id: ThreadId,
    access_type: AccessType,
    lock_held: Option<usize>,
) -> bool {
    &&& earlier.thread_id != thread_id
    &&& !(earlier.access_type == AccessType::Read && access_type == AccessType::Read)
    &&& !(earlier.lock_held is Some && lock_held is Some && earlier.lock_held == lock_held)
}

/// Whether two accesses to the same address race.
pub open spec fn races(a1: MemoryAccess, a2: MemoryAccess) -> bool {
    conflicts(a1, a2.thread_id, a2.access_type, a2.lock_held)
}

/// The key under which a race between an earlier access by `earlier_thread`
/// and a new access by `thread_id` at `address` is reported once.
pub open spec fn race_key(earlier_thread: ThreadId, thread_id: ThreadId, address: usize) -> RaceKey {
    ((earlier_thread, thread_id), address)
}

/// Whether the race of a new access with `history[j]` is reported: it
/// conflicts, its key was not reported before, and no earlier access of the
/// history by the same thread conflicts too.
pub open spec fn is_fresh_race(
    history: Seq<MemoryAccess>,
    j: int,
    thread_id: ThreadId,
    access_type: AccessType,
    lock_held: Option<usize>,
    address: usize,
    reported: Set<RaceKey>,
) -> bool {
    &&& 0 <= j < history.len()
    &&& conflicts(history[j], thread_id, access_type, lock_held)
    &&& !reported.contains(race_key(history[j].thread_id, thread_id, address))
    &&& forall|i: int|
        #![trigger history[i]]
        0 <= i < j && conflicts(history[i], thread_id, access_type, lock_held) ==> history[i].thread_id
            != history[j].thread_id
}

/// Whether some race of a new access with the accesses of `history` is fresh.
pub open spec fn has_fresh_race(
    history: Seq<MemoryAccess>,
    thread_id: ThreadId,
    access_type: AccessType,
    lock_held: Option<usize>,
    address: usize,
    reported: Set<RaceKey>,
) -> bool {
    exists|j: int| is_fresh_race(history, j, thread_id, access_type, lock_held, address, reported)
}

/// Whether `report` is the race that recording `new` at `address` reports:
/// it pairs `new` with the last access of `history` whose race is fresh.
pub open spec fn is_reported_race(
    report: RaceReport,
    history: Seq<MemoryAccess>,
    new: MemoryAccess,
    address: usize,
    reported: Set<RaceKey>,
) -> bool {
    &&& report.address == address
    &&& report.access2.same_as(new)
    &&& exists|j: int|
        {
            &&& is_fresh_race(history, j, new.thread_id, new.access_type, new.lock_held, address, reported)
            &&& report.access1.same_as(history[j])
            &&& forall|k: int|
                j < k ==> !is_fresh_race(
                    history,
                    k,
                    new.thread_id,
                    new.access_type,
                    new.lock_held,
                    address,
                    reported,
                )
        }
}

/// The keys of all races of a new access with the accesses of `history`.
pub open spec fn race_keys_of(
    history: Seq<MemoryAccess>,
    thread_id: ThreadId,
    access_type: AccessType,
    lock_held: Option<usize>,
    address: usize,
) -> Set<RaceKey> {
    Set::new(
        |k: RaceKey|
            exists|j: int|
                #![trigger history[j]]
                0 <= j < history.len() && conflicts(history[j], thread_id, access_type, lock_held) && k
                    == race_key(history[j].thread_id, thread_id, address),
    )
}

/// `post` is `pre` with an access at `address` recorded: by `thread_id`, of
/// kind `access_type`, under `lock_held`, of `data_size` bytes, with at most
/// [`ACCESS_FRAMES`] frames of backtrace, appended to the address's history,
/// of which the latest [`ACCESS_HISTORY_LIMIT`] accesses are kept; the keys of all its races are marked
/// as reported, and `report` is the race it reports, if any (see
/// [`RaceDetector::record_access_at`]).
pub open spec fn access_recorded(
    pre: RaceDetector,
    post: RaceDetector,
    address: usize,
    thread_id: ThreadId,
    access_type: AccessType,
    lock_held: Option<usize>,
    data_size: usize,
    report: Option<RaceReport>,
) -> bool {
    &&& post.wf()
    &&& post.addresses() == pre.addresses().insert(address)
    &&& post.history(address) == latest(pre.history(address).push(post.history(address).last()))
    &&& post.history(address).last().thread_id == thread_id
    &&& post.history(address).last().access_type == access_type
    &&& post.history(address).last().lock_held == lock_held
    &&& post.history(address).last().data_size == data_size
    &&& post.history(address).last().backtrace@.len() <= ACCESS_FRAMES
    &&& forall|a: usize| a != address ==> #[trigger] post.history(a) == pre.history(a)
    &&& post.reported_keys() == pre.reported_keys().union(
        race_keys_of(pre.history(address), thread_id, access_type, lock_held, address),
    )
    &&& report is None <==> !has_fresh_race(
        pre.history(address),
        thread_id,
        access_type,
        lock_held,
        address,
        pre.reported_keys(),
    )
    &&& report matches Some(rep) ==> is_reported_race(
        rep,
        pre.history(address),
        post.history(address).last(),
        address,
        pre.reported_keys(),
    )
}

/// The latest access recorded at `address` keeps the frames of the code that
/// made it: the captured stack from frame [`ACCESS_SKIP`] on, at most
/// [`ACCESS_FRAMES`] of them.
pub open spec fn backtrace_captured(detector: RaceDetector, address: usize) -> bool {
    detector.history(address).last().backtrace@ == frame_window(
        detector.captured_stack(),
        ACCESS_SKIP as nat,
        ACCESS_FRAMES as nat,
    )
}

pub struct RaceDetector {
    memory_access: AccessTable,
    reported: RaceKeyTable,
    stack: Ghost<Seq<String>>,
}

impl RaceDetector {
    /// Every record is filed under its own address and holds at least one
    /// and at most [`ACCESS_HISTORY_LIMIT`] accesses; every reported race is
    /// at an address with a record.
    pub closed spec fn wf(&self) -> bool {
        &&& forall|a: usize|
            #[trigger] access_entries(self.memory_access).contains_key(a) ==> {
                &&& access_entries(self.memory_access)[a].address == a
                &&& 0 < access_list_entries(access_entries(self.memory_access)[a].accesses).len()
                    <= ACCESS_HISTORY_LIMIT
            }
        &&& forall|k: RaceKey|
            #[trigger] race_key_entries(self.reported).contains_key(k) ==> access_entries(
                self.memory_access,
            ).contains_key(k.1)
    }

    /// The call stack captured by the latest access recorded with
    /// [`Self::record_access`], innermost frame first.
    pub closed spec fn captured_stack(&self) -> Seq<String> {
        self.stack@
    }

    /// The accesses recorded at `address`, oldest first.
    pub closed spec fn history(&self, address: usize) -> Seq<MemoryAccess> {
        if access_entries(self.memory_access).contains_key(address) {
            access_list_entries(access_entries(self.memory_access)[address].accesses)
        } else {
            Seq::empty()
        }
    }

    /// The addresses with at least one recorded access.
    pub closed spec fn addresses(&self) -> Set<usize> {
        access_entries(self.memory_access).dom()
    }

    /// The keys of the races reported so far.
    pub closed spec fn reported_keys(&self) -> Set<RaceKey> {
        race_key_entries(self.reported).dom()
    }

    pub fn new() -> (r: Self)
        ensures
            r.wf(),
            r.addresses() == Set::<usize>::empty(),
            forall|a: usize| #[trigger] r.history(a) == Seq::<MemoryAccess>::empty(),
            r.reported_keys() == Set::<RaceKey>::empty(),
    {
        RaceDetector { memory_access: accesses_new(), reported: race_keys_new(), stack: Ghost(Seq::empty()) }
    }

    fn is_race(&self, a1: &MemoryAccess, a2: &MemoryAccess) -> (r: bool)
        ensures
            r == races(*a1, *a2),
    {
        // Accesses of one thread happen in sequence.
        if a1.thread_id == a2.thread_id {
            return false;
        }
        // Concurrent reads do not interfere.
        if a1.access_type == AccessType::Read && a2.access_type == AccessType::Read {
            return false;
        }
        // One lock held by both accesses excludes them from each other.
        if a1.lock_held.is_some() && a2.lock_held.is_some() && a1.lock_held == a2.lock_held {
            return false;
        }
        true
    }

    /// Records an access at `address`, made at `timestamp` from the call stack
    /// `backtrace`, checks it against the accesses kept there, and returns the
    /// race to report, if any. Of the address's accesses, the latest
    /// [`ACCESS_HISTORY_LIMIT`] are kept.
    ///
    /// Each earlier access that races with the new one has the key of the race
    /// marked as reported. The race returned pairs the new access with the last
    /// earlier access whose race was not reported before this call (nor by an
    /// earlier access of the same thread in this call); there is none when no
    /// such access exists.
    pub fn record_access_at(
        &mut self,
        address: usize,
        thread_id: ThreadId,
        access_type: AccessType,
        lock_held: Option<usize>,
        data_size: usize,
        backtrace: Vec<String>,
        timestamp: std::time::Instant,
    ) -> (r: Option<RaceReport>)
        requires
            old(self).wf(),
        ensures
            final(self).wf(),
            final(self).addresses() == old(self).addresses().insert(address),
            final(self).history(address) == latest(
                old(self).history(address).push(
                    (MemoryAccess { thread_id, access_type, lock_held, backtrace, timestamp, data_size }),
                ),
            ),
            forall|a: usize| a != address ==> #[trigger] final(self).history(a) == old(self).history(a),
            final(self).reported_keys() == old(self).reported_keys().union(
                race_keys_of(old(self).history(address), thread_id, access_type, lock_held, address),
            ),
            r is None <==> !has_fresh_race(
                old(self).history(address),
                thread_id,
                access_type,
                lock_held,
                address,
                old(self).reported_keys(),
            ),
            r matches Some(report) ==> is_reported_race(
                report,
                old(self).history(address),
                (MemoryAccess { thread_id, access_type, lock_held, backtrace, timestamp, data_size }),
                address,
                old(self).reported_keys(),
            ),
    {
        let ghost history = old(self).history(address);
        let ghost reported0 = old(self).reported_keys();
        let new_access = MemoryAccess { thread_id, access_type, lock_held, backtrace, timestamp, data_size };
        let mut race_detected: Option<RaceReport> = None;
        match accesses_remove(&mut self.memory_access, address) {
            Some(record) => {
                let mut record = record;
                assert(record.address == address);
                let existing_list = access_list_as_slice(&record.accesses);
                let n = existing_list.len();
                let mut i: usize = 0;
                while i < n
                    invariant
                        0 <= i <= n,
                        n == history.len(),
                        existing_list@ == history,
                        access_entries(self.memory_access) == access_entries(old(self).memory_access).remove(
                            address,
                        ),
                        new_access == (MemoryAccess {
                            thread_id,
                            access_type,
                            lock_held,
                            backtrace,
                            timestamp,
                            data_size,
                        }),
                        race_key_entries(self.reported).dom() == reported0.union(
                            race_keys_of(history.take(i as int), thread_id, access_type, lock_held, address),
                        ),
                        race_detected is None <==> forall|j: int|
                            j < i ==> !is_fresh_race(
                                history,
                                j,
                                thread_id,
                                access_type,
                                lock_held,
                                address,
                                reported0,
                            ),
                        race_detected matches Some(report) ==> {
                            &&& report.address == address
                            &&& report.access2.same_as(new_access)
                            &&& exists|j: int|
                                {
                                    &&& j < i
                                    &&& is_fresh_race(
                                        history,
                                        j,
                                        thread_id,
                                        access_type,
                                        lock_held,
                                        address,
                                        reported0,
                                    )
                                    &&& report.access1.same_as(history[j])
                                    &&& forall|k: int|
                                        j < k < i ==> !is_fresh_race(
                                            history,
                                            k,
                                            thread_id,
                                            access_type,
                                            lock_held,
                                            address,
                                            reported0,
                                        )
                                }
                        },
                    decreases n - i,
                {
                    let existing = &existing_list[i];
                    proof {
                        lemma_race_keys_step(history, i as int, thread_id, access_type, lock_held, address);
                    }
                    if self.is_race(existing, &new_access) {
                        let key = ((existing.thread_id, thread_id), address);
                        proof {
                            lemma_race_key_hit(
                                history,
                                i as int,
                                thread_id,
                                access_type,
                                lock_held,
                                address,
                                reported0,
                            );
                        }
                        if !race_keys_contains(&self.reported, key) {
                            race_keys_insert(&mut self.reported, key, true);
                            race_detected = Some(
                                RaceReport { address, access1: existing.clone(), access2: new_access.clone() },
                            );
                        }
                    }
                    i = i + 1;
                }
                proof {
                    assert(history.take(n as int) =~= history);
                }
                let ghost pushed = history.push(new_access);
                if n >= ACCESS_HISTORY_LIMIT {
                    access_list_remove_first(&mut record.accesses);
                }
                access_list_push(&mut record.accesses, new_access);
                proof {
                    assert(access_list_entries(record.accesses) =~= latest(pushed));
                }
                accesses_insert(&mut self.memory_access, address, record);
            },
            None => {
                let mut accesses = access_list_new();
                access_list_push(&mut accesses, new_access);
                accesses_insert(&mut self.memory_access, address, MemoryAccessRecord { address, accesses });
                proof {
                    assert(access_list_entries(accesses) =~= latest(history.push(new_access)));
                    assert(race_keys_of(history, thread_id, access_type, lock_held, address)
                        =~= Set::<RaceKey>::empty());
                    assert(self.reported_keys() =~= reported0.union(
                        race_keys_of(history, thread_id, access_type, lock_held, address),
                    ));
                }
            },
        }
        proof {
            assert(self.addresses() =~= old(self).addresses().insert(address));
        }
        race_detected
    }
}

impl RaceDetector {
    /// Records an access at `address`, stamped with the current time and the
    /// call stack, checks it against the accesses recorded there before, and
    /// returns the race to report, if any; see [`Self::record_access_at`].
    pub fn record_access(
        &mut self,
        address: usize,
        thread_id: ThreadId,
        access_type: AccessType,
        lock_held: Option<usize>,
        data_size: usize,
    ) -> (r: Option<RaceReport>)
        requires
            old(self).wf(),
        ensures
            access_recorded(*old(self), *final(self), address, thread_id, access_type, lock_held, data_size, r),
            backtrace_captured(*final(self), address),
    {
        let (backtrace, stack) = capture_backtrace(ACCESS_SKIP, ACCESS_FRAMES);
        let timestamp = instant_now();
        let r = self.record_access_at(address, thread_id, access_type, lock_held, data_size, backtrace, timestamp);
        let ghost recorded = *self;
        self.stack = stack;
        proof {
            assert(self.wf() == recorded.wf());
            assert(self.addresses() == recorded.addresses());
            assert(self.reported_keys() == recorded.reported_keys());
            assert forall|a: usize| #[trigger] self.history(a) == recorded.history(a) by {}
            assert(recorded.history(address).last().backtrace@.len() <= ACCESS_FRAMES);
        }
        r
    }
}

/// The race keys of a prefix one longer add the key of its last access, if it
/// conflicts.
proof fn lemma_race_keys_step(
    history: Seq<MemoryAccess>,
    i: int,
    thread_id: ThreadId,
    access_type: AccessType,
    lock_held: Option<usize>,
    address: usize,
)
    requires
        0 <= i < history.len(),
    ensures
        race_keys_of(history.take(i + 1), thread_id, access_type, lock_held, address) == (if conflicts(
            history[i],
            thread_id,
            access_type,
            lock_held,
        ) {
            race_keys_of(history.take(i), thread_id, access_type, lock_held, address).insert(
                race_key(history[i].thread_id, thread_id, address),
            )
        } else {
            race_keys_of(history.take(i), thread_id, access_type, lock_held, address)
        }),
{
    let a = race_keys_of(history.take(i + 1), thread_id, access_type, lock_held, address);
    let b = race_keys_of(history.take(i), thread_id, access_type, lock_held, address);
    let pre = history.take(i);
    let post = history.take(i + 1);
    assert forall|k: RaceKey| #[trigger] b.contains(k) implies a.contains(k) by {
        let j = choose|j: int|
            #![trigger pre[j]]
            0 <= j < pre.len() && conflicts(pre[j], thread_id, access_type, lock_held) && k == race_key(
                pre[j].thread_id,
                thread_id,
                address,
            );
        assert(post[j] == pre[j]);
    }
    if conflicts(history[i], thread_id, access_type, lock_held) {
        assert(post[i] == history[i]);
        assert(a.contains(race_key(history[i].thread_id, thread_id, address)));
        assert forall|k: RaceKey| #[trigger] a.contains(k) implies b.insert(
            race_key(history[i].thread_id, thread_id, address),
        ).contains(k) by {
            let j = choose|j: int|
                #![trigger post[j]]
                0 <= j < post.len() && conflicts(post[j], thread_id, access_type, lock_held) && k == race_key(
                    post[j].thread_id,
                    thread_id,
                    address,
                );
            if j < i {
                assert(pre[j] == post[j]);
            }
        }
        assert(a =~= b.insert(race_key(history[i].thread_id, thread_id, address)));
    } else {
        assert forall|k: RaceKey| #[trigger] a.contains(k) implies b.contains(k) by {
            let j = choose|j: int|
                #![trigger post[j]]
                0 <= j < post.len() && conflicts(post[j], thread_id, access_type, lock_held) && k == race_key(
                    post[j].thread_id,
                    thread_id,
                    address,
                );
            assert(j != i);
            assert(pre[j] == post[j]);
        }
        assert(a =~= b);
    }
}

/// When the access `history[i]` conflicts, its race key was reported before
/// or by the prefix exactly when the race is not fresh.
proof fn lemma_race_key_hit(
    history: Seq<MemoryAccess>,
    i: int,
    thread_id: ThreadId,
    access_type: AccessType,
    lock_held: Option<usize>,
    address: usize,
    reported0: Set<RaceKey>,
)
    requires
        0 <= i < history.len(),
        conflicts(history[i], thread_id, access_type, lock_held),
    ensures
        reported0.union(race_keys_of(history.take(i), thread_id, access_type, lock_held, address)).contains(
            race_key(history[i].thread_id, thread_id, address),
        ) <==> !is_fresh_race(history, i, thread_id, access_type, lock_held, address, reported0),
{
    let key = race_key(history[i].thread_id, thread_id, address);
    let pre = history.take(i);
    let keys = race_keys_of(pre, thread_id, access_type, lock_held, address);
    if keys.contains(key) {
        let j = choose|j: int|
            #![trigger pre[j]]
            0 <= j < pre.len() && conflicts(pre[j], thread_id, access_type, lock_held) && key == race_key(
                pre[j].thread_id,
                thread_id,
                address,
            );
        assert(pre[j] == history[j]);
    }
    if !is_fresh_race(history, i, thread_id, access_type, lock_held, address, reported0) && !reported0.contains(key) {
        let j = choose|j: int|
            #![trigger history[j]]
            0 <= j < i && conflicts(history[j], thread_id, access_type, lock_held) && history[j].thread_id
                == history[i].thread_id;
        assert(pre[j] == history[j]);
        assert(keys.contains(key));
    }
}

/// Whether two accesses race does not depend on which came first.
pub proof fn law_races_symmetric(a1: MemoryAccess, a2: MemoryAccess)
    ensures
        races(a1, a2) == races(a2, a1),
{
}

/// The rules of race detection: accesses of one thread never race, two reads
/// never race, two accesses under one and the same lock never race, and any
/// other pair of accesses by different threads races.
pub proof fn law_race_rules(a1: MemoryAccess, a2: MemoryAccess)
    ensures
        a1.thread_id == a2.thread_id ==> !races(a1, a2),
        a1.access_type == AccessType::Read && a2.access_type == AccessType::Read ==> !races(a1, a2),
        a1.lock_held is Some && a1.lock_held == a2.lock_held ==> !races(a1, a2),
        a1.thread_id != a2.thread_id && (a1.access_type == AccessType::Write || a2.access_type
            == AccessType::Write) && !(a1.lock_held is Some && a1.lock_held == a2.lock_held) ==> races(
            a1,
            a2,
        ),
{
}

/// Data that every access reaches under one and the same lock is never
/// reported as raced: an access under that lock finds no fresh race among
/// accesses made under it.
pub proof fn law_same_lock_no_report(
    history: Seq<MemoryAccess>,
    thread_id: ThreadId,
    access_type: AccessType,
    lock_id: usize,
    address: usize,
    reported: Set<RaceKey>,
)
    requires
        forall|j: int| 0 <= j < history.len() ==> #[trigger] history[j].lock_held == Some(lock_id),
    ensures
        !has_fresh_race(history, thread_id, access_type, Some(lock_id), address, reported),
{
    assert forall|j: int|
        !is_fresh_race(history, j, thread_id, access_type, Some(lock_id), address, reported) by {
        if 0 <= j < history.len() {
            assert(history[j].lock_held == Some(lock_id));
        }
    }
}

/// Recording an access only adds to the keys of the reported races.
pub proof fn law_reported_keys_grow(
    pre: RaceDetector,
    post: RaceDetector,
    address: usize,
    thread_id: ThreadId,
    access_type: AccessType,
    lock_held: Option<usize>,
    data_size: usize,
    report: Option<RaceReport>,
)
    requires
        access_recorded(pre, post, address, thread_id, access_type, lock_held, data_size, report),
    ensures
        pre.reported_keys().subset_of(post.reported_keys()),
{
}

/// A race is reported once: after a recording reports a race between an
/// access of thread `a` and a new access of thread `b` at an address, no
/// later recording of an access of `b` there reports a race with an access of
/// `a` again, however many recordings came in between (they only add to the
/// reported keys, see [`law_reported_keys_grow`]).
pub proof fn law_race_reported_once(
    pre: RaceDetector,
    post: RaceDetector,
    address: usize,
    thread_id: ThreadId,
    access_type: AccessType,
    lock_held: Option<usize>,
    data_size: usize,
    report: RaceReport,
    later_keys: Set<RaceKey>,
    later: Seq<MemoryAccess>,
    j: int,
    later_type: AccessType,
    later_lock: Option<usize>,
)
    requires
        access_recorded(pre, post, address, thread_id, access_type, lock_held, data_size, Some(report)),
        post.reported_keys().subset_of(later_keys),
        0 <= j < later.len(),
        later[j].thread_id == report.access1.thread_id,
    ensures
        !is_fresh_race(later, j, report.access2.thread_id, later_type, later_lock, address, later_keys),
{
    let history = pre.history(address);
    let i = choose|i: int|
        {
            &&& is_fresh_race(history, i, thread_id, access_type, lock_held, address, pre.reported_keys())
            &&& report.access1.same_as(history[i])
            &&& forall|k: int|
                i < k ==> !is_fresh_race(history, k, thread_id, access_type, lock_held, address, pre.reported_keys())
        };
    assert(race_keys_of(history, thread_id, access_type, lock_held, address).contains(
        race_key(history[i].thread_id, thread_id, address),
    ));
}

/// An address without recorded accesses has no reported race: the first race
/// found there is fresh.
pub proof fn law_no_reported_race_without_history(
    detector: RaceDetector,
    address: usize,
    earlier: ThreadId,
    later: ThreadId,
)
    requires
        detector.wf(),
        detector.history(address).len() == 0,
    ensures
        !detector.reported_keys().contains(race_key(earlier, later, address)),
{
    if detector.reported_keys().contains(race_key(earlier, later, address)) {
        assert(race_key_entries(detector.reported).contains_key(race_key(earlier, later, address)));
        assert(access_entries(detector.memory_access).contains_key(address));
    }
}

/// A recorded access keeps the frames of the code that made it, and so does
/// the race reported for it: its backtrace is the captured stack from frame
/// [`ACCESS_SKIP`] on, [`ACCESS_FRAMES`] frames at most, in order, and it is
/// empty only where the stack has no frame past the skipped ones.
pub proof fn law_access_backtrace_kept(
    pre: RaceDetector,
    post: RaceDetector,
    address: usize,
    thread_id: ThreadId,
    access_type: AccessType,
    lock_held: Option<usize>,
    data_size: usize,
    report: Option<RaceReport>,
)
    requires
        access_recorded(pre, post, address, thread_id, access_type, lock_held, data_size, report),
        backtrace_captured(post, address),
    ensures
        forall|i: int|
            0 <= i < post.history(address).last().backtrace@.len() ==> #[trigger] post.history(
                address,
            ).last().backtrace@[i] == post.captured_stack()[ACCESS_SKIP + i],
        post.captured_stack().len() > ACCESS_SKIP ==> post.history(address).last().backtrace@.len() > 0,
        post.captured_stack().len() >= ACCESS_SKIP + ACCESS_FRAMES ==> post.history(
            address,
        ).last().backtrace@.len() == ACCESS_FRAMES,
        report matches Some(rep) ==> rep.access2.backtrace@ == post.history(address).last().backtrace@,
{
    law_frame_window_keeps_the_frames(post.captured_stack(), ACCESS_SKIP as nat, ACCESS_FRAMES as nat);
}

} // verus!
