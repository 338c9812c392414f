//! The signal store and the values it holds.
pub mod db;
pub mod scope;
pub mod signal;
pub mod time;
pub mod value;

pub use self::db::SignalDB;
pub use self::signal::Signal;
pub use self::time::{Scale, TimeDescr, Timestamp};
pub use self::value::{BitValue, SignalValue, ValueFormat};
pub use crate::search::FindingsSummary;
