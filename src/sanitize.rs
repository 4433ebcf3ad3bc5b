//! The descriptor table that the process starts from: standard input,
//! output and error on the discard device, and nothing else open.
use vstd::prelude::*;

verus! {

/// One step of the sanitization, performed by the kernel.
#[derive(PartialEq, Eq, Structural, Clone, Copy, Debug)]
pub enum FdStep {
    /// Open the discard device for reading and writing.
    OpenNull,
    /// Point this descriptor at the discard device.
    Redirect(i32),
    /// Close every descriptor from this number on.
    CloseFrom(i32),
}

/// The first descriptor that is not a standard stream.
pub const FIRST_EXTRA_FD: i32 = 3;

/// Exit status where the discard device cannot be opened.
pub const STATUS_NO_NULL_DEVICE: i32 = 2;

/// Exit status where a redirection or the closing fails.
pub const STATUS_FD_SETUP_FAILED: i32 = 3;

/// Exit status of every other failure; a message always goes with it.
pub const STATUS_FATAL: i32 = 1;

/// The sanitization steps, in order.
pub open spec fn sanitize_spec() -> Seq<FdStep> {
    seq![FdStep::OpenNull, FdStep::Redirect(0), FdStep::Redirect(1), FdStep::Redirect(2),
        FdStep::CloseFrom(FIRST_EXTRA_FD)]
}

/// The sanitization steps: open the discard device, point descriptors 0, 1
/// and 2 at it, and close everything from 3 on, which closes the device's
/// own descriptor too.
pub fn sanitize_steps() -> (r: Vec<FdStep>)
    ensures
        r@ == sanitize_spec(),
{
    let mut r: Vec<FdStep> = Vec::new();
    r.push(FdStep::OpenNull);
    r.push(FdStep::Redirect(0));
    r.push(FdStep::Redirect(1));
    r.push(FdStep::Redirect(2));
    r.push(FdStep::CloseFrom(FIRST_EXTRA_FD));
    assert(r@ =~= sanitize_spec());
    r
}

/// The exit status when `step` fails. Nothing else is reported: no stream
/// can be trusted yet.
pub fn failure_status(step: FdStep) -> (r: i32)
    ensures
        r == (if step == FdStep::OpenNull { STATUS_NO_NULL_DEVICE } else { STATUS_FD_SETUP_FAILED }),
        r != STATUS_FATAL,
{
    match step {
        FdStep::OpenNull => STATUS_NO_NULL_DEVICE,
        _ => STATUS_FD_SETUP_FAILED,
    }
}

/// What an open descriptor refers to.
pub enum FdTarget {
    /// The discard device.
    Null,
    /// Anything else: a file, a pipe, a socket, told apart by a number.
    Other(int),
}

/// The descriptor table after `step` succeeds; `null_fd` is the descriptor
/// that opening the discard device gives.
pub open spec fn fd_step(t: Map<int, FdTarget>, step: FdStep, null_fd: int) -> Map<int, FdTarget> {
    match step {
        FdStep::OpenNull => t.insert(null_fd, FdTarget::Null),
        FdStep::Redirect(fd) => t.insert(fd as int, FdTarget::Null),
        FdStep::CloseFrom(lo) => t.restrict(t.dom().filter(|fd: int| fd < lo)),
    }
}

/// The descriptor table after the steps `steps` all succeed, in order.
pub open spec fn fd_run(t: Map<int, FdTarget>, steps: Seq<FdStep>, null_fd: int) -> Map<int, FdTarget>
    decreases steps.len(),
{
    if steps.len() == 0 {
        t
    } else {
        fd_step(fd_run(t, steps.drop_last(), null_fd), steps.last(), null_fd)
    }
}

/// Whatever descriptors were open before, and wherever they pointed, once
/// the sanitization has run exactly 0, 1 and 2 are open, each on the discard
/// device.
pub proof fn lemma_sanitized_table(t: Map<int, FdTarget>, null_fd: int)
    requires
        null_fd >= 0,
        !t.dom().contains(null_fd),
        forall|fd: int| #[trigger] t.dom().contains(fd) ==> fd >= 0,
    ensures
        fd_run(t, sanitize_spec(), null_fd) == map![0int => FdTarget::Null, 1int => FdTarget::Null, 2int => FdTarget::Null],
{
    let s = sanitize_spec();
    let s4 = s.drop_last();
    let s3 = s4.drop_last();
    let s2 = s3.drop_last();
    let s1 = s2.drop_last();
    assert(s1.drop_last() =~= Seq::<FdStep>::empty());
    assert(fd_run(t, s1.drop_last(), null_fd) == t);
    assert(s1.last() == FdStep::OpenNull);
    assert(s2.last() == FdStep::Redirect(0));
    assert(s3.last() == FdStep::Redirect(1));
    assert(s4.last() == FdStep::Redirect(2));
    assert(s.last() == FdStep::CloseFrom(3));
    assert(fd_run(t, s1, null_fd) == fd_step(t, FdStep::OpenNull, null_fd));
    let t4 = fd_run(t, s4, null_fd);
    assert(t4 == fd_run(t, s3, null_fd).insert(2, FdTarget::Null));
    assert(fd_run(t, s3, null_fd) == fd_run(t, s2, null_fd).insert(1, FdTarget::Null));
    assert(fd_run(t, s2, null_fd) == fd_run(t, s1, null_fd).insert(0, FdTarget::Null));
    let r = fd_run(t, s, null_fd);
    assert(r == t4.restrict(t4.dom().filter(|fd: int| fd < 3)));
    assert forall|fd: int| t4.dom().contains(fd) implies fd >= 0 by {}
    assert(r =~= map![0int => FdTarget::Null, 1int => FdTarget::Null, 2int => FdTarget::Null]);
}

} // verus!
