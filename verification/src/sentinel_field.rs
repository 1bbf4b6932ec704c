//! A field whose every read and write is checked for races.
use vstd::prelude::*;

use crate::race::{access_recorded, backtrace_captured, AccessType, RaceDetector, RaceReport};
use crate::tls::{get_current_lock, get_current_thread_id, ThreadContext};
use crate::tracker::{thread_id_given, GlobalTracker, ThreadId};

verus! {

pub struct SentryField<T> {
    inner: T,
}

pub struct SentryFieldGuard<'a, T> {
    inner: &'a T,
    address: usize,
    thread_id: usize,
    lock_id: Option<usize>,
}

/// The write access to a field: the place of its value, which the field
/// holds once the guard is gone, and what the write was recorded with.
pub struct SentryFieldMutGuard<'a, T> {
    pub inner: &'a mut T,
    pub address: usize,
    pub thread_id: usize,
    pub lock_id: Option<usize>,
}


/// The thread that an access is attributed to: the one in the thread's slot,
/// else the thread id that the tracker has, or gives next, for the thread's
/// identity.
pub open spec fn attributed_thread(context: ThreadContext, tracker: GlobalTracker) -> ThreadId {
    match context.current_thread_id {
        Some(t) => t,
        None => tracker.thread_id_for(context.thread_key@),
    }
}

/// `post` is the tracker `pre` after an access was attributed: the tracker
/// was asked for the thread's id exactly when the thread's slot held none.
pub open spec fn attribution_done(context: ThreadContext, pre: GlobalTracker, post: GlobalTracker) -> bool {
    if context.current_thread_id is Some {
        post == pre
    } else {
        &&& thread_id_given(pre, post, context.thread_key@, attributed_thread(context, pre))
        &&& post.events() == pre.events()
        &&& post.threads() == pre.threads()
        &&& post.edges() == pre.edges()
    }
}

/// Whether an access made by the thread whose slots are `context` can be
/// attributed and recorded: a thread id is left for the thread where one is
/// needed, and the detector is well formed.
pub open spec fn access_allowed(context: ThreadContext, tracker: GlobalTracker, detector: RaceDetector) -> bool {
    &&& context.current_thread_id is None ==> tracker.thread_id_available(context.thread_key@)
    &&& detector.wf()
}

/// The thread and the lock that an access is attributed to: the thread in the
/// thread's slot, or the one the tracker has for the thread's identity; the
/// lock in the thread's slot.
fn attribute_access(context: &ThreadContext, tracker: &mut GlobalTracker) -> (r: (ThreadId, Option<usize>))
    requires
        context.current_thread_id is None ==> old(tracker).thread_id_available(context.thread_key@),
    ensures
        r.0 == attributed_thread(*context, *old(tracker)),
        r.1 == context.current_lock,
        attribution_done(*context, *old(tracker), *final(tracker)),
{
    let thread_id = match get_current_thread_id(context) {
        Some(t) => t,
        None => tracker.get_or_allocate_thread_id(&context.thread_key),
    };
    let lock_id = get_current_lock(context);
    (thread_id, lock_id)
}

impl<T> SentryField<T> {
    /// The value held.
    pub closed spec fn value(&self) -> T {
        self.inner
    }

    pub fn new(value: T) -> (r: Self)
        ensures
            r.value() == value,
    {
        SentryField { inner: value }
    }

    /// The place of the value, whose address identifies the field to the race
    /// detector. Reading through it is not recorded.
    pub fn location(&self) -> (r: &T)
        ensures
            *r == self.value(),
    {
        &self.inner
    }

    /// Reads the field: the read at `address` is attributed to the thread and
    /// lock of `context` (asking `tracker` for the thread's id where the slot
    /// is empty) and recorded; the race that the recording reports comes back
    /// with the guard.
    pub fn get(
        &self,
        address: usize,
        context: &ThreadContext,
        tracker: &mut GlobalTracker,
        detector: &mut RaceDetector,
    ) -> (r: (SentryFieldGuard<'_, T>, Option<RaceReport>))
        requires
            access_allowed(*context, *old(tracker), *old(detector)),
        ensures
            attribution_done(*context, *old(tracker), *final(tracker)),
            access_recorded(
                *old(detector),
                *final(detector),
                address,
                attributed_thread(*context, *old(tracker)),
                AccessType::Read,
                context.current_lock,
                vstd::layout::size_of::<T>() as usize,
                r.1,
            ),
            backtrace_captured(*final(detector), address),
            r.0.target() == self.value(),
            r.0.address() == address,
            r.0.thread() == attributed_thread(*context, *old(tracker)),
            r.0.lock() == context.current_lock,
    {
        let (thread_id, lock_id) = attribute_access(context, tracker);
        let report = detector.record_access(
            address,
            thread_id,
            AccessType::Read,
            lock_id,
            core::mem::size_of::<T>(),
        );
        (SentryFieldGuard { inner: &self.inner, address, thread_id, lock_id }, report)
    }

    /// Writes the field: the write at `address` is attributed and recorded as
    /// for [`Self::get`], then the field holds `value`; the race that the
    /// recording reports comes back.
    pub fn set(
        &mut self,
        value: T,
        address: usize,
        context: &ThreadContext,
        tracker: &mut GlobalTracker,
        detector: &mut RaceDetector,
    ) -> (r: Option<RaceReport>)
        requires
            access_allowed(*context, *old(tracker), *old(detector)),
        ensures
            attribution_done(*context, *old(tracker), *final(tracker)),
            access_recorded(
                *old(detector),
                *final(detector),
                address,
                attributed_thread(*context, *old(tracker)),
                AccessType::Write,
                context.current_lock,
                vstd::layout::size_of::<T>() as usize,
                r,
            ),
            backtrace_captured(*final(detector), address),
            final(self).value() == value,
    {
        let (thread_id, lock_id) = attribute_access(context, tracker);
        let report = detector.record_access(
            address,
            thread_id,
            AccessType::Write,
            lock_id,
            core::mem::size_of::<T>(),
        );
        self.inner = value;
        report
    }

    /// Borrows the field for writing: the write at `address` is attributed and
    /// recorded as for [`Self::set`]; the guard hands out the value.
    pub fn get_mut(
        &mut self,
        address: usize,
        context: &ThreadContext,
        tracker: &mut GlobalTracker,
        detector: &mut RaceDetector,
    ) -> (r: (SentryFieldMutGuard<'_, T>, Option<RaceReport>))
        requires
            access_allowed(*context, *old(tracker), *old(detector)),
        ensures
            attribution_done(*context, *old(tracker), *final(tracker)),
            access_recorded(
                *old(detector),
                *final(detector),
                address,
                attributed_thread(*context, *old(tracker)),
                AccessType::Write,
                context.current_lock,
                vstd::layout::size_of::<T>() as usize,
                r.1,
            ),
            backtrace_captured(*final(detector), address),
            r.0.target() == old(self).value(),
            final(self).value() == *final(r.0.inner),
            r.0.address() == address,
            r.0.thread() == attributed_thread(*context, *old(tracker)),
            r.0.lock() == context.current_lock,
    {
        let (thread_id, lock_id) = attribute_access(context, tracker);
        let report = detector.record_access(
            address,
            thread_id,
            AccessType::Write,
            lock_id,
            core::mem::size_of::<T>(),
        );
        (SentryFieldMutGuard { inner: &mut self.inner, address, thread_id, lock_id }, report)
    }
}

impl<'a, T> SentryFieldGuard<'a, T> {
    /// The value read.
    pub closed spec fn target(&self) -> T {
        *self.inner
    }

    /// The address the read was recorded at.
    pub closed spec fn address(&self) -> usize {
        self.address
    }

    /// The thread the read was attributed to.
    pub closed spec fn thread(&self) -> usize {
        self.thread_id
    }

    /// The lock the read was attributed to.
    pub closed spec fn lock(&self) -> Option<usize> {
        self.lock_id
    }

    /// The value read.
    pub fn value(&self) -> (r: &T)
        ensures
            *r == self.target(),
    {
        self.inner
    }
}

impl<'a, T> SentryFieldMutGuard<'a, T> {
    /// The value as it stands in the guard.
    pub closed spec fn target(&self) -> T {
        *self.inner
    }

    /// The address the write was recorded at.
    pub closed spec fn address(&self) -> usize {
        self.address
    }

    /// The thread the write was attributed to.
    pub closed spec fn thread(&self) -> usize {
        self.thread_id
    }

    /// The lock the write was attributed to.
    pub closed spec fn lock(&self) -> Option<usize> {
        self.lock_id
    }

    /// The value, to read.
    pub fn value(&self) -> (r: &T)
        ensures
            *r == self.target(),
    {
        self.inner
    }
}

impl<'a, T> core::ops::Deref for SentryFieldGuard<'a, T> {
    type Target = T;

    fn deref(&self) -> (r: &T)
        ensures
            *r == self.target(),
    {
        self.inner
    }
}

impl<'a, T> core::ops::Deref for SentryFieldMutGuard<'a, T> {
    type Target = T;

    fn deref(&self) -> (r: &T)
        ensures
            *r == self.target(),
    {
        self.inner
    }
}

impl<T: Default> Default for SentryField<T> {
    fn default() -> (r: Self)
        ensures
            call_ensures(T::default, (), r.value()),
    {
        SentryField::new(T::default())
    }
}

/// An access made while the thread holds a monitored mutex is attributed to
/// that mutex and to the thread that took it: the slots that taking the mutex
/// filled decide the attribution, and the tracker is not asked for a thread id.
pub proof fn law_access_under_guard(
    context: ThreadContext,
    tracker: GlobalTracker,
    post: GlobalTracker,
    lock_id: usize,
    thread_id: ThreadId,
)
    requires
        context.current_lock == Some(lock_id),
        context.current_thread_id == Some(thread_id),
        attribution_done(context, tracker, post),
    ensures
        attributed_thread(context, tracker) == thread_id,
        post == tracker,
{
}

} // verus!
