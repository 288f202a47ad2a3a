//! Small verified building blocks around borrowed data: a to-do record, a
//! helper that appends a borrowed record to a list of borrowed records, and
//! text helpers that hand out borrowed views of an owned string.

pub mod record;
pub mod appender;
pub mod text;
