//! The battery itself: what it reads, what it has read, and where the readings
//! come from.

pub mod history;
pub mod laws;
pub mod sysfs;
pub mod types;
