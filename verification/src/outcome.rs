//! Classification of a single register probe.
//!
//! One probe issues a positioned read of exactly eight bytes at a candidate
//! address.  The raw result of that read — a byte count or an errno — is
//! handed to [`classify_read`], which sorts it into one of three semantic
//! outcomes: the register exists, the register is absent, or something is
//! wrong with the environment and the whole scan must stop.

use vstd::prelude::*;

verus! {

/// The errno with which the register interface reports the anticipated
/// "this register is not implemented on this core" condition (`EIO`).
pub const ERRNO_UNIMPLEMENTED: i32 = 5;

/// The errno for a permission failure when acquiring the per-core handle
/// (`EACCES`).
pub const ERRNO_PERMISSION: i32 = 13;

/// Why a probe failed in a way the scan does not anticipate.  Any such
/// failure is fatal for the whole scan: it signals a broken precondition
/// (bad handle, missing permission, broken mechanism), not an absent
/// register.
#[derive(Clone, Copy, PartialEq, Eq, Structural, Debug)]
pub enum ProbeFailure {
    /// The read returned, but with a byte count other than the eight
    /// requested.
    ShortRead(usize),
    /// The read failed with an errno other than the expected-absence one.
    Os(i32),
}

/// The three-way classification of one probe of one candidate address.
#[derive(Clone, Copy, PartialEq, Eq, Structural, Debug)]
pub enum ProbeOutcome {
    /// The register exists and yielded this value (the eight bytes read,
    /// taken little-endian).
    Success(u64),
    /// The distinguished "register does not exist" condition: the address
    /// is silently skipped.
    ExpectedFailure,
    /// Any other failure mode; aborts the scan.
    UnexpectedFailure(ProbeFailure),
}

pub open spec fn is_success(o: ProbeOutcome) -> bool {
    match o {
        ProbeOutcome::Success(_) => true,
        _ => false,
    }
}

pub open spec fn success_value(o: ProbeOutcome) -> u64
    recommends
        is_success(o),
{
    match o {
        ProbeOutcome::Success(v) => v,
        _ => 0,
    }
}

pub open spec fn is_expected_failure(o: ProbeOutcome) -> bool {
    match o {
        ProbeOutcome::ExpectedFailure => true,
        _ => false,
    }
}

pub open spec fn is_unexpected_failure(o: ProbeOutcome) -> bool {
    match o {
        ProbeOutcome::UnexpectedFailure(_) => true,
        _ => false,
    }
}

pub open spec fn failure_detail(o: ProbeOutcome) -> ProbeFailure
    recommends
        is_unexpected_failure(o),
{
    match o {
        ProbeOutcome::UnexpectedFailure(d) => d,
        _ => ProbeFailure::Os(0),
    }
}

/// Every probe outcome falls under exactly one of the three
/// classifications, so the scan routes it to exactly one of
/// {insert, skip, abort}.
pub proof fn lemma_classification_exclusive(o: ProbeOutcome)
    ensures
        is_success(o) || is_expected_failure(o) || is_unexpected_failure(o),
        is_success(o) ==> !is_expected_failure(o) && !is_unexpected_failure(o),
        is_expected_failure(o) ==> !is_success(o) && !is_unexpected_failure(o),
        is_unexpected_failure(o) ==> !is_success(o) && !is_expected_failure(o),
{
}

/// The value of eight bytes read little-endian: the byte at index 0 is the
/// least significant.
pub open spec fn le_bytes_value(b: Seq<u8>) -> int
    recommends
        b.len() == 8,
{
    b[0] + b[1] * 0x100 + b[2] * 0x1_0000 + b[3] * 0x100_0000 + b[4] * 0x1_0000_0000
        + b[5] * 0x100_0000_0000 + b[6] * 0x1_0000_0000_0000 + b[7] * 0x100_0000_0000_0000
}

/// Assemble the eight bytes of a read buffer into the register's value,
/// little-endian.
pub fn u64_from_le_bytes(b: &[u8; 8]) -> (v: u64)
    ensures
        v as int == le_bytes_value(b@),
{
    (b[0] as u64) + (b[1] as u64) * 0x100 + (b[2] as u64) * 0x1_0000 + (b[3] as u64) * 0x100_0000
        + (b[4] as u64) * 0x1_0000_0000 + (b[5] as u64) * 0x100_0000_0000
        + (b[6] as u64) * 0x1_0000_0000_0000 + (b[7] as u64) * 0x100_0000_0000_0000
}

/// What [`classify_read`] must say of a raw read result: a clean eight-byte
/// read is a success carrying the little-endian value; a short read or any
/// errno other than [`ERRNO_UNIMPLEMENTED`] is unexpected and fatal; exactly
/// that errno is the anticipated absence of the register.
pub open spec fn read_classification(raw: Result<usize, i32>, buf: Seq<u8>) -> ProbeOutcome {
    match raw {
        Ok(n) => if n == 8 {
            ProbeOutcome::Success(le_bytes_value(buf) as u64)
        } else {
            ProbeOutcome::UnexpectedFailure(ProbeFailure::ShortRead(n))
        },
        Err(e) => if e == ERRNO_UNIMPLEMENTED {
            ProbeOutcome::ExpectedFailure
        } else {
            ProbeOutcome::UnexpectedFailure(ProbeFailure::Os(e))
        },
    }
}

/// Classify the raw result of one positioned read: `raw` is the byte count
/// or errno the read primitive reported, `buf` the eight-byte buffer it
/// filled.
pub fn classify_read(raw: Result<usize, i32>, buf: &[u8; 8]) -> (o: ProbeOutcome)
    ensures
        o == read_classification(raw, buf@),
{
    match raw {
        Ok(n) => {
            if n == 8 {
                let v = u64_from_le_bytes(buf);
                proof {
                    lemma_le_bytes_value_in_range(buf@);
                }
                ProbeOutcome::Success(v)
            } else {
                ProbeOutcome::UnexpectedFailure(ProbeFailure::ShortRead(n))
            }
        },
        Err(e) => {
            if e == ERRNO_UNIMPLEMENTED {
                ProbeOutcome::ExpectedFailure
            } else {
                ProbeOutcome::UnexpectedFailure(ProbeFailure::Os(e))
            }
        },
    }
}

/// The little-endian value of eight bytes fits in a `u64`.
pub proof fn lemma_le_bytes_value_in_range(b: Seq<u8>)
    requires
        b.len() == 8,
    ensures
        0 <= le_bytes_value(b) <= u64::MAX,
{
}

/// An error acquiring the per-core handle.  A permission failure is
/// recoverable at the boundary and reported cleanly; anything else is
/// fatal.
#[derive(Clone, Copy, PartialEq, Eq, Structural, Debug)]
pub enum HandleError {
    PermissionDenied,
    Fatal(i32),
}

/// Classify the errno of a failed attempt to open the per-core handle.
pub fn classify_open_error(errno: i32) -> (e: HandleError)
    ensures
        errno == ERRNO_PERMISSION ==> e == HandleError::PermissionDenied,
        errno != ERRNO_PERMISSION ==> e == HandleError::Fatal(errno),
{
    if errno == ERRNO_PERMISSION {
        HandleError::PermissionDenied
    } else {
        HandleError::Fatal(errno)
    }
}

} // verus!
