//! Watches a laptop battery: state, capacity, live power draw and intake, and
//! how long a charge lasts.
//!
//! This is the whole of what the app decides. It opens no file and draws no
//! widget: readings, lines and messages come in as plain values, and what to
//! show, write or draw goes out the same way.
//!
//! Quantities are fixed-point counts of millionths (`micro::Micro`); moments are
//! whole seconds since the epoch.

pub mod app;
pub mod battery;
pub mod bytes;
pub mod clock;
pub mod decimal;
pub mod duration;
pub mod format;
pub mod graph;
pub mod micro;
pub mod notify;
pub mod order;
pub mod recordings;
pub mod settings;
pub mod sleep;
pub mod store;
pub mod text;
