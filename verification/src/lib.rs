//! Portwatch: the logic of a localhost port monitor, verified with Verus.
//!
//! The crate reads the text that `netstat` and `lsof` print, keeps the
//! listening ports above a bound, sorts them and drops repeated ports, and
//! decides what the watch loop and the terminal view do with each event.
use vstd::prelude::*;

pub mod cli;
pub mod number;
pub mod scanner;
pub mod table;
pub mod text;
pub mod ui;
pub mod watcher;

verus! {

} // verus!
