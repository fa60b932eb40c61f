//! Extracts a weekly class schedule from a fixed-layout timetable grid and
//! normalizes it into discrete per-session records.
//!
//! The grid extractor walks the table's rows and cells, isolates each class
//! slot, and splits stacked multi-session cell text into session drafts. The
//! week-expression engine parses week-recurrence text (ranges and comma
//! lists) into a concrete set of week numbers, classifies the recurrence
//! pattern, and expands irregular sets into one session per member week.

pub mod grid;
pub mod text;
pub mod weeks;
