//! Facts of the running process that the detectors record but never decide
//! on: the moment of an event and the call stack that led to it.
use vstd::prelude::*;

verus! {

/// `std::time::Instant`, carried through the detectors as an opaque timestamp.
#[verifier::external_type_specification]
#[verifier::external_body]
pub struct ExInstant(std::time::Instant);

/// Calls `std::time::Instant::now`. The clock is read, so nothing is stated
/// of the value that comes back.
#[verifier::external_body]
pub(crate) fn instant_now() -> std::time::Instant {
    std::time::Instant::now()
}

/// Calls `backtrace::Backtrace::new` and renders each of its frames with
/// `Debug`, innermost frame first. What the frames say depends on the call
/// stack and on the debug information of the binary, so nothing is stated of
/// them.
#[verifier::external_body]
#[inline(never)]
pub(crate) fn backtrace_frames() -> Vec<String> {
    backtrace::Backtrace::new().frames().iter().map(|f| format!("{:?}", f)).collect()
}

/// The frames `skip .. skip + take` of a captured stack, as far as they exist.
pub open spec fn frame_window(frames: Seq<String>, skip: nat, take: nat) -> Seq<String> {
    let start = if skip <= frames.len() { skip } else { frames.len() };
    let end = if start + take <= frames.len() { start + take } else { frames.len() };
    frames.subrange(start as int, end as int)
}

/// Keeps the frames `skip .. skip + take` of `frames`: the frames of the
/// recording machinery are dropped and at most `take` frames are kept.
pub fn select_frames(frames: Vec<String>, skip: usize, take: usize) -> (r: Vec<String>)
    ensures
        r@ == frame_window(frames@, skip as nat, take as nat),
        r@.len() <= take,
{
    let len = frames.len();
    let start = if skip <= len { skip } else { len };
    let end = if take <= len - start { start + take } else { len };
    let mut r: Vec<String> = Vec::new();
    let mut i = start;
    while i < end
        invariant
            start <= i <= end <= len,
            len == frames@.len(),
            r@ == frames@.subrange(start as int, i as int),
        decreases end - i,
    {
        r.push(frames[i].clone());
        i = i + 1;
    }
    r
}

/// Captures the current call stack and keeps the frames `skip .. skip + take`;
/// the stack starts with the frame of the capture and then this function's.
/// Hands back the frames kept and, as a ghost, the whole stack they were cut
/// from.
#[inline(never)]
pub fn capture_backtrace(skip: usize, take: usize) -> (r: (Vec<String>, Ghost<Seq<String>>))
    ensures
        r.0@ == frame_window(r.1@, skip as nat, take as nat),
        r.0@.len() <= take,
{
    let frames = backtrace_frames();
    let ghost stack = frames@;
    (select_frames(frames, skip, take), Ghost(stack))
}

/// The frames kept from a stack are the stack's frames from position `skip`
/// on, in order, as many as `take` allows and the stack holds: none only
/// where the stack has no frame past `skip` or nothing is to be kept.
pub proof fn law_frame_window_keeps_the_frames(frames: Seq<String>, skip: nat, take: nat)
    ensures
        frame_window(frames, skip, take).len() == (if frames.len() <= skip {
            0
        } else if frames.len() - skip <= take {
            (frames.len() - skip) as nat
        } else {
            take
        }),
        forall|i: int|
            0 <= i < frame_window(frames, skip, take).len() ==> #[trigger] frame_window(frames, skip, take)[i]
                == frames[skip + i],
        frames.len() > skip && take > 0 ==> frame_window(frames, skip, take).len() > 0,
{
}


} // verus!
