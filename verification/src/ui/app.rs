//! The state of the terminal view.
use vstd::prelude::*;

use crate::number::{
    all_digits, decimal_digits, lemma_decimal_digits, lemma_decimal_round_trip, parse_unsigned,
    push_decimal,
};
use crate::scanner::PortInfo;
use crate::watcher::WatchEvent;

verus! {

/// The ports on show and the refresh interval of the terminal view.
pub struct App {
    pub ports: Vec<PortInfo>,
    pub interval: u64,
}

/// The title of the terminal view.
pub open spec fn header_text(port_count: nat, elapsed_secs: nat, interval: nat) -> Seq<char> {
    "portwatch | "@ + decimal_digits(port_count) + " ports | last update: "@ + decimal_digits(
        elapsed_secs,
    ) + "s ago | interval: "@ + decimal_digits(interval) + "s"@
}

impl App {
    /// A view with no ports yet that refreshes every `interval` seconds.
    pub fn new(interval: u64) -> (app: App)
        ensures
            app.ports@.len() == 0,
            app.interval == interval,
    {
        App { ports: Vec::new(), interval }
    }

    /// Shows `ports` in place of the ports on show.
    pub fn update_ports(&mut self, ports: Vec<PortInfo>)
        ensures
            final(self).ports == ports,
            final(self).interval == old(self).interval,
    {
        self.ports = ports;
    }

    /// Takes in what the watch loop reported: the ports of a scan are shown,
    /// and the message of an error comes back to be printed.
    pub fn handle_event(&mut self, event: WatchEvent) -> (error: Option<String>)
        ensures
            match event {
                WatchEvent::Update(ports) => {
                    &&& final(self).ports == ports
                    &&& error is None
                },
                WatchEvent::Error(message) => {
                    &&& final(self).ports == old(self).ports
                    &&& error == Some(message)
                },
            },
            final(self).interval == old(self).interval,
    {
        match event {
            WatchEvent::Update(ports) => {
                self.update_ports(ports);
                None
            },
            WatchEvent::Error(message) => Some(message),
        }
    }

    /// The title line: the number of ports, the seconds since the last
    /// update, and the interval.
    pub fn header_title(&self, elapsed_secs: u64) -> (title: String)
        ensures
            title@ == header_text(self.ports@.len(), elapsed_secs as nat, self.interval as nat),
    {
        let mut title = String::from_str("portwatch | ");
        push_decimal(&mut title, self.ports.len() as u64);
        title.append(" ports | last update: ");
        push_decimal(&mut title, elapsed_secs);
        title.append("s ago | interval: ");
        push_decimal(&mut title, self.interval);
        title.append("s");
        title
    }
}

} // verus!

verus! {

/// The three numbers of the title read back as the number of ports, the
/// seconds since the last update and the interval: the title is its fixed
/// text with three runs of ASCII digits whose values are those numbers.
pub proof fn lemma_header_reads_back(port_count: nat, elapsed_secs: nat, interval: nat)
    ensures
        exists|d1: Seq<char>, d2: Seq<char>, d3: Seq<char>|
            #![trigger parse_unsigned(d1, port_count), parse_unsigned(d2, elapsed_secs), parse_unsigned(d3, interval)]
            {
                &&& all_digits(d1) && all_digits(d2) && all_digits(d3)
                &&& parse_unsigned(d1, port_count) == Some(port_count)
                &&& parse_unsigned(d2, elapsed_secs) == Some(elapsed_secs)
                &&& parse_unsigned(d3, interval) == Some(interval)
                &&& header_text(port_count, elapsed_secs, interval) == "portwatch | "@ + d1
                    + " ports | last update: "@ + d2 + "s ago | interval: "@ + d3 + "s"@
            },
{
    let d1 = decimal_digits(port_count);
    let d2 = decimal_digits(elapsed_secs);
    let d3 = decimal_digits(interval);
    lemma_decimal_digits(port_count);
    lemma_decimal_digits(elapsed_secs);
    lemma_decimal_digits(interval);
    lemma_decimal_round_trip(port_count, port_count);
    lemma_decimal_round_trip(elapsed_secs, elapsed_secs);
    lemma_decimal_round_trip(interval, interval);
    assert(parse_unsigned(d1, port_count) == Some(port_count));
    assert(parse_unsigned(d2, elapsed_secs) == Some(elapsed_secs));
    assert(parse_unsigned(d3, interval) == Some(interval));
}

} // verus!
