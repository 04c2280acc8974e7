//! A live-coding MIDI sequencer language: its syntax, macro expansion,
//! cycle arithmetic and the decisions of its renderer and scheduler.
use vstd::prelude::*;

pub mod aliases;
pub mod arp;
pub mod ast;
pub mod chord;
pub mod config;
pub mod cycles;
pub mod expand;
pub mod import_grid;
pub mod imports;
pub mod math;
pub mod midi_file;
pub mod midi_import;
pub mod parser;
pub mod render;
pub mod rhythm;
pub mod scheduler;
pub mod text;

verus! {

} // verus!
