//! Segment lifecycle coordination for an index built out of immutable
//! segments.
//!
//! The crate tracks which segments make up the searchable index, which are
//! still uncommitted, and which carry delete state newer than the last hard
//! commit, and it provides the atomic transitions between those states:
//! commit, soft commit, merge begin/end, and garbage collection of empty
//! segments.

pub mod segment;
pub mod segment_register;
pub mod segment_manager;

pub use segment::DeleteCursor;
pub use segment::SegmentEntry;
pub use segment::SegmentId;
pub use segment::SegmentMeta;
pub use segment_register::SegmentRegister;
pub use segment_manager::get_mergeable_segments;
pub use segment_manager::SegmentError;
pub use segment_manager::SegmentManager;
