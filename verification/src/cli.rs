//! The command line: what the user asks the program to do.
use vstd::prelude::*;

verus! {

/// The parsed command line.
pub struct Cli {
    pub command: Commands,
}

/// The subcommands.
pub enum Commands {
    /// Scan once and print the open ports at or above `min_port`, as a table
    /// or, with `json`, as JSON.
    Scan { min_port: u16, json: bool },
    /// Scan every `interval` seconds and show the ports, in the terminal view
    /// where `tui` is set.
    Watch { interval: u64, tui: bool },
}

} // verus!
