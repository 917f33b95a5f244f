//! Per-process memory-field reporting: parsing of kernel rollup files,
//! command-line sanitization, result collection, ordering and totals,
//! and human-readable byte-size rendering.

pub mod cmdline;
pub mod field;
pub mod format;
pub mod scan;

pub use cmdline::chop_null;
pub use field::field_display_name;
pub use field::normalize_field;
pub use field::read_field;
pub use field::FieldError;
pub use format::filesize;
pub use scan::collect_outcomes;
pub use scan::parse_pid;
pub use scan::record_for;
pub use scan::total_usage;
pub use scan::ProcessRecord;
pub use scan::ScanResult;
