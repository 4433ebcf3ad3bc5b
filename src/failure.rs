//! Every way the gatekeeper can stop, and the exit status of each.
use vstd::prelude::*;
use crate::launch::Action;
use crate::sanitize::{failure_status, FdStep, STATUS_FATAL};

verus! {

/// Why the process stops instead of becoming the helper.
pub enum Failure {
    /// A sanitization step failed.
    Descriptors(FdStep),
    /// The configuration could not be read or understood.
    Config,
    /// No helper admits the invocation.
    UnknownHelper,
    /// The kernel refused a step of the restriction.
    Kernel(Action),
    /// The kernel refused to replace the process image.
    Exec,
}

/// The exit status for `f`: the sanitization has statuses of its own, every
/// other failure shares the generic one.
pub fn exit_status(f: &Failure) -> (r: i32)
    ensures
        match f {
            Failure::Descriptors(step) => r == (if *step == FdStep::OpenNull { 2i32 } else { 3i32 }),
            _ => r == STATUS_FATAL,
        },
{
    match f {
        Failure::Descriptors(step) => failure_status(*step),
        _ => STATUS_FATAL,
    }
}

} // verus!
