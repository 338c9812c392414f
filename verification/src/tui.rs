//! What the text user interface shows.
pub mod event;
pub mod instr;
pub mod waveform;
