//! The watch loop: when to scan again, and what a scan reports.
use vstd::prelude::*;

use crate::scanner::PortInfo;

verus! {

/// What the watch loop reports after each scan.
pub enum WatchEvent {
    /// The ports that the scan found.
    Update(Vec<PortInfo>),
    /// The message of the error that stopped the scan.
    Error(String),
}

/// What the terminal view can ask of the watch loop.
pub enum WatchCommand {
    RefreshNow,
}

/// What wakes the watch loop.
pub enum WatchWake {
    /// The interval elapsed.
    Tick,
    /// The command channel delivered a command, or `None` once every sender
    /// is gone.
    Command(Option<WatchCommand>),
}

/// What the watch loop does once woken.
#[derive(PartialEq, Eq, Structural, Debug)]
pub enum WatchStep {
    /// Scan and report the result.
    Scan,
    /// Leave the loop.
    Stop,
}

/// The watch loop scans on every tick and on every refresh command, and
/// stops once the command channel is closed.
pub fn watch_step(wake: &WatchWake) -> (step: WatchStep)
    ensures
        step == (match wake {
            WatchWake::Command(None) => WatchStep::Stop,
            _ => WatchStep::Scan,
        }),
{
    match wake {
        WatchWake::Tick => WatchStep::Scan,
        WatchWake::Command(Some(WatchCommand::RefreshNow)) => WatchStep::Scan,
        WatchWake::Command(None) => WatchStep::Stop,
    }
}

/// The event that reports the outcome of one scan: the ports it found, or
/// the message of its error.
pub fn scan_event(outcome: Result<Vec<PortInfo>, String>) -> (event: WatchEvent)
    ensures
        match outcome {
            Ok(ports) => event == WatchEvent::Update(ports),
            Err(message) => event == WatchEvent::Error(message),
        },
{
    match outcome {
        Ok(ports) => WatchEvent::Update(ports),
        Err(message) => WatchEvent::Error(message),
    }
}

} // verus!
