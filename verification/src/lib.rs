//! Tracking of reported validator offences.
//!
//! Reports are deduplicated by a digest of (kind, time slot, offender), grouped
//! by (kind, time slot), and kept only for a retention window counted in
//! sessions. The three tables and the engine that keeps them consistent are
//! verified; the digest and the byte encoding under it are taken on trust.

pub mod types;
pub mod bytes;
pub mod report_id;
pub mod report_store;
pub mod concurrency_index;
pub mod retention_log;
pub mod model;
pub mod retention;
pub mod pallet;
pub mod laws;

pub use concurrency_index::ConcurrencyIndex;
pub use pallet::{Admission, OnOffence, Pallet, TriageOutcome};
pub use report_store::ReportStore;
pub use retention_log::{LogEntry, RetentionLog};
pub use types::{
    Config, DisableStrategy, EraIndex, Event, Identity, Kind, OffenceDetails, OffenceError,
    OpaqueTimeSlot, ReportId, SessionIndex,
};
