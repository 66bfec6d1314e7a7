//! Power: where it comes from, and how much of it may be used.

pub mod profiles;
pub mod source;
