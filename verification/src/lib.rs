//! Find processes by name or by the port they hold, describe what they run,
//! plan their termination together with every descendant, and render the outcome.
//!
//! Everything here works on plain values: the process table, the output of the
//! port lookup command and the answer typed at the prompt are read by the caller
//! and handed over.

pub mod cli;
pub mod error;
pub mod inspect;
pub mod port;
pub mod process;
pub mod text;
pub mod ui;
pub mod update;

use vstd::prelude::*;

verus! {

} // verus!
