//! A gatekeeper for kernel usermode helpers: an allowlist of helper
//! programs, the capability sets they may keep, and the ordered steps that
//! restrict a process before it replaces itself with the chosen helper.
pub mod capability;
pub mod registry;
pub mod launch;
pub mod sanitize;
pub mod failure;
