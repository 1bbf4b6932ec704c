//! The per-thread slots that tie an access to the lock guard it happens under:
//! the lock a guard of the thread currently holds, and the thread's id; beside
//! them, the thread's identity, by which the tracker finds its thread id.
use vstd::prelude::*;

verus! {

/// The slots of one thread.
pub struct ThreadContext {
    pub current_lock: Option<usize>,
    pub current_thread_id: Option<usize>,
    pub thread_key: String,
}

impl ThreadContext {
    /// Both slots empty, for the thread with identity `thread_key`.
    pub fn new(thread_key: String) -> (r: Self)
        ensures
            r.current_lock is None,
            r.current_thread_id is None,
            r.thread_key == thread_key,
    {
        ThreadContext { current_lock: None, current_thread_id: None, thread_key }
    }
}

pub fn set_current_lock(context: &mut ThreadContext, lock_id: usize)
    ensures
        final(context).current_lock == Some(lock_id),
        final(context).current_thread_id == old(context).current_thread_id,
        final(context).thread_key == old(context).thread_key,
{
    context.current_lock = Some(lock_id);
}

pub fn clear_current_lock(context: &mut ThreadContext)
    ensures
        final(context).current_lock is None,
        final(context).current_thread_id == old(context).current_thread_id,
        final(context).thread_key == old(context).thread_key,
{
    context.current_lock = None;
}

pub fn get_current_lock(context: &ThreadContext) -> (r: Option<usize>)
    ensures
        r == context.current_lock,
{
    context.current_lock
}

pub fn set_current_thread_id(context: &mut ThreadContext, thread_id: usize)
    ensures
        final(context).current_thread_id == Some(thread_id),
        final(context).current_lock == old(context).current_lock,
        final(context).thread_key == old(context).thread_key,
{
    context.current_thread_id = Some(thread_id);
}

pub fn clear_current_thread_id(context: &mut ThreadContext)
    ensures
        final(context).current_thread_id is None,
        final(context).current_lock == old(context).current_lock,
        final(context).thread_key == old(context).thread_key,
{
    context.current_thread_id = None;
}

pub fn get_current_thread_id(context: &ThreadContext) -> (r: Option<usize>)
    ensures
        r == context.current_thread_id,
{
    context.current_thread_id
}

} // verus!
