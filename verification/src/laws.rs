//! What holds between reading, writing and deleting.
pub mod append;
pub mod removal;
pub mod round_trip;
pub mod shape;
