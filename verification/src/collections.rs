//! The concurrent maps of `dashmap` and the inline vectors of `smallvec` that
//! hold the detectors' state, each with a name for what it holds and the
//! operations that the detectors perform on it.
use dashmap::{DashMap, DashSet};
use smallvec::SmallVec;
use vstd::prelude::*;

use crate::race::{MemoryAccess, MemoryAccessRecord};
use crate::tracker::{LockEvent, LockId, LockType, ThreadId, ThreadLockState};

verus! {

#[verifier::external_type_specification]
#[verifier::external_body]
#[verifier::reject_recursive_types(K)]
#[verifier::reject_recursive_types(V)]
#[verifier::reject_recursive_types(S)]
pub struct ExDashMap<K, V, S>(DashMap<K, V, S>);

#[verifier::external_type_specification]
#[verifier::external_body]
#[verifier::reject_recursive_types(K)]
#[verifier::reject_recursive_types(S)]
pub struct ExDashSet<K, S>(DashSet<K, S>);


/// The identity of a running thread (the `Debug` rendering of its
/// `std::thread::ThreadId`) to the thread id given to it.
pub type ThreadKeyTable = DashMap<String, ThreadId>;

/// Lock id to the event of its latest acquisition.
pub type LockEventTable = DashMap<LockId, LockEvent>;

/// Thread id to the locks that the thread holds and the lock it waits for.
pub type ThreadStateTable = DashMap<ThreadId, ThreadLockState>;

/// Edge `(held, wanted)` of the lock-order graph to the number of times a
/// thread waited for `wanted` while holding `held`.
pub type LockGraphTable = DashMap<(LockId, LockId), usize>;

/// Address to the accesses recorded at it.
pub type AccessTable = DashMap<usize, MemoryAccessRecord>;

/// A race between an access of one thread and a later access of another at
/// an address: `((earlier thread, later thread), address)`.
pub type RaceKey = ((ThreadId, ThreadId), usize);

/// Keys of the races that were already reported.
pub type RaceKeyTable = DashMap<RaceKey, bool>;

/// Keys of the lock cycles that were already reported.
pub type CycleKeySet = DashSet<(LockId, LockId)>;

/// The locks held by one thread, in the order of acquisition: a
/// `SmallVec` that keeps up to four entries inline.
#[verifier::external_body]
#[derive(Debug)]
pub struct HeldLocks {
    inner: SmallVec<[(LockId, LockType); 4]>,
}

/// The accesses recorded at one address, in the order they happened: a
/// `SmallVec` that keeps up to eight entries inline.
#[verifier::external_body]
#[derive(Debug)]
pub struct AccessList {
    inner: SmallVec<[MemoryAccess; 8]>,
}

/// What a [`ThreadKeyTable`] holds, each key by its characters.
pub uninterp spec fn thread_key_entries(m: ThreadKeyTable) -> Map<Seq<char>, ThreadId>;

/// What a [`LockEventTable`] holds.
pub uninterp spec fn lock_event_entries(m: LockEventTable) -> Map<LockId, LockEvent>;

/// What a [`ThreadStateTable`] holds.
pub uninterp spec fn thread_state_entries(m: ThreadStateTable) -> Map<ThreadId, ThreadLockState>;

/// What a [`LockGraphTable`] holds.
pub uninterp spec fn lock_graph_entries(m: LockGraphTable) -> Map<(LockId, LockId), usize>;

/// What an [`AccessTable`] holds.
pub uninterp spec fn access_entries(m: AccessTable) -> Map<usize, MemoryAccessRecord>;

/// What a [`RaceKeyTable`] holds.
pub uninterp spec fn race_key_entries(m: RaceKeyTable) -> Map<RaceKey, bool>;

/// What a [`CycleKeySet`] holds.
pub uninterp spec fn cycle_key_entries(s: CycleKeySet) -> Set<(LockId, LockId)>;

/// What a [`HeldLocks`] holds, in order.
pub uninterp spec fn held_lock_entries(v: HeldLocks) -> Seq<(LockId, LockType)>;

/// What an [`AccessList`] holds, in order.
pub uninterp spec fn access_list_entries(v: AccessList) -> Seq<MemoryAccess>;

// ---------------------------------------------------------------------------
// ThreadKeyTable

/// `DashMap::new`: an empty map.
#[verifier::external_body]
pub(crate) fn thread_keys_new() -> (m: ThreadKeyTable)
    ensures
        thread_key_entries(m).dom() == Set::<Seq<char>>::empty(),
{
    DashMap::new()
}

/// `DashMap::insert`: the key maps to the value afterwards, the rest is kept.
/// Two `String` keys are the same key when their characters are.
#[verifier::external_body]
pub(crate) fn thread_keys_insert(m: &mut ThreadKeyTable, key: String, value: ThreadId)
    ensures
        thread_key_entries(*final(m)) == thread_key_entries(*old(m)).insert(key@, value),
{
    m.insert(key, value);
}

/// `DashMap::get`, with the id copied out of the guard that it returns.
#[verifier::external_body]
pub(crate) fn thread_keys_get(m: &ThreadKeyTable, key: &String) -> (r: Option<ThreadId>)
    ensures
        r is Some <==> thread_key_entries(*m).contains_key(key@),
        r matches Some(id) ==> id == thread_key_entries(*m)[key@],
{
    m.get(key).map(|id| *id.value())
}

// ---------------------------------------------------------------------------
// LockEventTable

/// `DashMap::new`: an empty map.
#[verifier::external_body]
pub(crate) fn lock_events_new() -> (m: LockEventTable)
    ensures
        lock_event_entries(m).dom() == Set::<LockId>::empty(),
{
    DashMap::new()
}

/// `DashMap::insert`: the key maps to the value afterwards, the rest is kept.
#[verifier::external_body]
pub(crate) fn lock_events_insert(m: &mut LockEventTable, key: LockId, value: LockEvent)
    ensures
        lock_event_entries(*final(m)) == lock_event_entries(*old(m)).insert(key, value),
{
    m.insert(key, value);
}

/// `DashMap::remove`: the key is gone afterwards, the rest is kept.
#[verifier::external_body]
pub(crate) fn lock_events_remove(m: &mut LockEventTable, key: LockId)
    ensures
        lock_event_entries(*final(m)) == lock_event_entries(*old(m)).remove(key),
{
    m.remove(&key);
}

/// `DashMap::get`, with the value cloned out of the guard that it returns;
/// the clone of a `LockEvent` has the same fields and the same frames.
#[verifier::external_body]
pub(crate) fn lock_events_get(m: &LockEventTable, key: LockId) -> (r: Option<LockEvent>)
    ensures
        r is Some <==> lock_event_entries(*m).contains_key(key),
        r matches Some(e) ==> e.same_as(lock_event_entries(*m)[key]),
{
    m.get(&key).map(|e| e.value().clone())
}

// ---------------------------------------------------------------------------
// ThreadStateTable

/// `DashMap::new`: an empty map.
#[verifier::external_body]
pub(crate) fn thread_states_new() -> (m: ThreadStateTable)
    ensures
        thread_state_entries(m).dom() == Set::<ThreadId>::empty(),
{
    DashMap::new()
}

/// `DashMap::insert`: the key maps to the value afterwards, the rest is kept.
#[verifier::external_body]
pub(crate) fn thread_states_insert(m: &mut ThreadStateTable, key: ThreadId, value: ThreadLockState)
    ensures
        thread_state_entries(*final(m)) == thread_state_entries(*old(m)).insert(key, value),
{
    m.insert(key, value);
}

/// `DashMap::remove`: hands out the value of the key, which is gone afterwards.
#[verifier::external_body]
pub(crate) fn thread_states_remove(m: &mut ThreadStateTable, key: ThreadId) -> (r: Option<ThreadLockState>)
    ensures
        thread_state_entries(*final(m)) == thread_state_entries(*old(m)).remove(key),
        r is Some <==> thread_state_entries(*old(m)).contains_key(key),
        r matches Some(s) ==> s == thread_state_entries(*old(m))[key],
{
    m.remove(&key).map(|(_, s)| s)
}

// ---------------------------------------------------------------------------
// LockGraphTable

/// `DashMap::new`: an empty map.
#[verifier::external_body]
pub(crate) fn lock_graph_new() -> (m: LockGraphTable)
    ensures
        lock_graph_entries(m).dom() == Set::<(LockId, LockId)>::empty(),
{
    DashMap::new()
}

/// `DashMap::insert`: the key maps to the value afterwards, the rest is kept.
#[verifier::external_body]
pub(crate) fn lock_graph_insert(m: &mut LockGraphTable, key: (LockId, LockId), value: usize)
    ensures
        lock_graph_entries(*final(m)) == lock_graph_entries(*old(m)).insert(key, value),
{
    m.insert(key, value);
}

/// `DashMap::get`, with the count copied out of the guard that it returns.
#[verifier::external_body]
pub(crate) fn lock_graph_get(m: &LockGraphTable, key: (LockId, LockId)) -> (r: Option<usize>)
    ensures
        r is Some <==> lock_graph_entries(*m).contains_key(key),
        r matches Some(c) ==> c == lock_graph_entries(*m)[key],
{
    m.get(&key).map(|c| *c.value())
}

/// `DashMap::iter`, each entry mapped to its key. The map is walked shard by
/// shard, so the order of the keys is not stated; each key comes once.
#[verifier::external_body]
pub(crate) fn lock_graph_keys(m: &LockGraphTable) -> (r: Vec<(LockId, LockId)>)
    ensures
        r@.to_set() == lock_graph_entries(*m).dom(),
        r@.no_duplicates(),
{
    m.iter().map(|e| *e.key()).collect()
}

// ---------------------------------------------------------------------------
// AccessTable

/// `DashMap::new`: an empty map.
#[verifier::external_body]
pub(crate) fn accesses_new() -> (m: AccessTable)
    ensures
        access_entries(m).dom() == Set::<usize>::empty(),
{
    DashMap::new()
}

/// `DashMap::insert`: the key maps to the value afterwards, the rest is kept.
#[verifier::external_body]
pub(crate) fn accesses_insert(m: &mut AccessTable, key: usize, value: MemoryAccessRecord)
    ensures
        access_entries(*final(m)) == access_entries(*old(m)).insert(key, value),
{
    m.insert(key, value);
}

/// `DashMap::remove`: hands out the value of the key, which is gone afterwards.
#[verifier::external_body]
pub(crate) fn accesses_remove(m: &mut AccessTable, key: usize) -> (r: Option<MemoryAccessRecord>)
    ensures
        access_entries(*final(m)) == access_entries(*old(m)).remove(key),
        r is Some <==> access_entries(*old(m)).contains_key(key),
        r matches Some(rec) ==> rec == access_entries(*old(m))[key],
{
    m.remove(&key).map(|(_, rec)| rec)
}

// ---------------------------------------------------------------------------
// RaceKeyTable

/// `DashMap::new`: an empty map.
#[verifier::external_body]
pub(crate) fn race_keys_new() -> (m: RaceKeyTable)
    ensures
        race_key_entries(m).dom() == Set::<RaceKey>::empty(),
{
    DashMap::new()
}

/// `DashMap::insert`: the key maps to the value afterwards, the rest is kept.
#[verifier::external_body]
pub(crate) fn race_keys_insert(m: &mut RaceKeyTable, key: RaceKey, value: bool)
    ensures
        race_key_entries(*final(m)) == race_key_entries(*old(m)).insert(key, value),
{
    m.insert(key, value);
}

/// `DashMap::contains_key`.
#[verifier::external_body]
pub(crate) fn race_keys_contains(m: &RaceKeyTable, key: RaceKey) -> (r: bool)
    ensures
        r == race_key_entries(*m).contains_key(key),
{
    m.contains_key(&key)
}

// ---------------------------------------------------------------------------
// CycleKeySet

/// `DashSet::new`: an empty set.
#[verifier::external_body]
pub(crate) fn cycle_keys_new() -> (s: CycleKeySet)
    ensures
        cycle_key_entries(s) == Set::<(LockId, LockId)>::empty(),
{
    DashSet::new()
}

/// `DashSet::insert`: the key is in the set afterwards, the rest is kept.
#[verifier::external_body]
pub(crate) fn cycle_keys_insert(s: &mut CycleKeySet, key: (LockId, LockId))
    ensures
        cycle_key_entries(*final(s)) == cycle_key_entries(*old(s)).insert(key),
{
    s.insert(key);
}

/// `DashSet::contains`.
#[verifier::external_body]
pub(crate) fn cycle_keys_contains(s: &CycleKeySet, key: (LockId, LockId)) -> (r: bool)
    ensures
        r == cycle_key_entries(*s).contains(key),
{
    s.contains(&key)
}

// ---------------------------------------------------------------------------
// HeldLocks

/// `SmallVec::new`: an empty vector.
#[verifier::external_body]
pub(crate) fn held_locks_new() -> (v: HeldLocks)
    ensures
        held_lock_entries(v) == Seq::<(LockId, LockType)>::empty(),
{
    HeldLocks { inner: SmallVec::new() }
}

/// `SmallVec::push`: the value is appended at the end. It allocates once the
/// inline room is used up; its capacity arithmetic overflows only at lengths
/// that no memory holds.
#[verifier::external_body]
pub(crate) fn held_locks_push(v: &mut HeldLocks, value: (LockId, LockType))
    ensures
        held_lock_entries(*final(v)) == held_lock_entries(*old(v)).push(value),
{
    v.inner.push(value);
}

/// `SmallVec::as_slice`: the entries, in order.
#[verifier::external_body]
pub(crate) fn held_locks_as_slice(v: &HeldLocks) -> (r: &[(LockId, LockType)])
    ensures
        r@ == held_lock_entries(*v),
{
    v.inner.as_slice()
}

/// Whether a held-lock entry is for a lock other than `lock_id`.
pub open spec fn is_other_lock(entry: (LockId, LockType), lock_id: LockId) -> bool {
    entry.0 != lock_id
}

/// Whether a held-lock entry is for a lock other than `lock_id`.
pub(crate) fn entry_is_other_lock(entry: &(LockId, LockType), lock_id: LockId) -> (r: bool)
    ensures
        r == is_other_lock(*entry, lock_id),
{
    entry.0 != lock_id
}

/// `SmallVec::retain` with a predicate that keeps the entries of locks other
/// than `lock_id`: those stay, in their order, and the others are dropped.
#[verifier::external_body]
pub(crate) fn held_locks_retain_other(v: &mut HeldLocks, lock_id: LockId)
    ensures
        held_lock_entries(*final(v)) == held_lock_entries(*old(v)).filter(
            |e: (LockId, LockType)| is_other_lock(e, lock_id),
        ),
{
    v.inner.retain(|e| entry_is_other_lock(e, lock_id));
}

// ---------------------------------------------------------------------------
// AccessList

/// `SmallVec::new`: an empty vector.
#[verifier::external_body]
pub(crate) fn access_list_new() -> (v: AccessList)
    ensures
        access_list_entries(v) == Seq::<MemoryAccess>::empty(),
{
    AccessList { inner: SmallVec::new() }
}

/// `SmallVec::push`: the value is appended at the end. It allocates once the
/// inline room is used up; its capacity arithmetic overflows only at lengths
/// that no memory holds.
#[verifier::external_body]
pub(crate) fn access_list_push(v: &mut AccessList, value: MemoryAccess)
    ensures
        access_list_entries(*final(v)) == access_list_entries(*old(v)).push(value),
{
    v.inner.push(value);
}

/// `SmallVec::remove` of the first entry: the entries shift down by one.
#[verifier::external_body]
pub(crate) fn access_list_remove_first(v: &mut AccessList) -> (r: MemoryAccess)
    requires
        access_list_entries(*old(v)).len() > 0,
    ensures
        r == access_list_entries(*old(v))[0],
        access_list_entries(*final(v)) == access_list_entries(*old(v)).drop_first(),
{
    v.inner.remove(0)
}

/// `SmallVec::as_slice`: the entries, in order.
#[verifier::external_body]
pub(crate) fn access_list_as_slice(v: &AccessList) -> (r: &[MemoryAccess])
    ensures
        r@ == access_list_entries(*v),
{
    v.inner.as_slice()
}

} // verus!
