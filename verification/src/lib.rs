//! Verified core of an MSR-enumeration tool.
//!
//! The library owns everything with a design decision in it: classifying the
//! outcome of one register read, walking a configured candidate address
//! space, accumulating the discovered registers in an ordered map, and
//! formatting the final report.  The thin OS glue (opening the per-core
//! device, pinning to the core, issuing the `pread`) lives outside and feeds
//! this library plain values.

pub mod outcome;
pub mod report;
pub mod results;
pub mod scan;
pub mod space;
