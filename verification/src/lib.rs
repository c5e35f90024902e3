//! Text-analysis core for an interactive file viewer.
//!
//! The library has two halves: pure text metrics (line, word, character and
//! stanza counts, keyword frequencies, substring search over lines) and the
//! application state with the key-event state machine that drives it.  All
//! code here is verified; terminal I/O, rendering and file reading live in
//! the surrounding binary.

pub mod app_state;
pub mod text_analysis;
