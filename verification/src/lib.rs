//! A waveform database for hardware simulation traces: signals and their
//! events, a reader for value change dumps, and a search language over
//! signal values and transitions.
pub mod names;
pub mod search;
pub mod signaldb;
pub mod text;
pub mod tui;
pub mod vcd;
