use vstd::prelude::*;

verus! {

/// Relies on libc_strftime::strftime_local: renders an epoch-second instant
/// with a strftime pattern in the process's local time zone (set up by the
/// caller of the library through the TZ environment).  The text depends on
/// that time zone and on the C library's tables, so nothing is claimed about
/// it; callers treat the bytes as opaque.  The callee builds a CString from
/// the pattern and would panic on an interior NUL byte, and takes the instant
/// as a signed 64-bit count, so both are excluded here.
#[verifier::external_body]
pub fn format_instant(pattern: &str, epoch_secs: u64) -> (r: Vec<u8>)
    requires
        epoch_secs <= i64::MAX as u64,
        forall|i: int| 0 <= i < pattern@.len() ==> pattern@[i] != '\0',
{
    libc_strftime::strftime_local(pattern, epoch_secs as i64).into_bytes()
}

} // verus!
