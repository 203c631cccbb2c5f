//! A streaming iCalendar retention filter: splits a document into VEVENT
//! blocks, keeps each event only if it still has an occurrence on or after a
//! cutoff instant, and rewrites timezone-qualified date-time fields to UTC.
pub mod datetime;
pub mod event;
pub mod laws;
pub mod recurrence;
pub mod text;
pub mod transform;
pub mod tz;

pub use datetime::DateTime;
pub use event::TransformError;
pub use tz::TzId;
