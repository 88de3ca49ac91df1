use portwatch::scanner::{
    build_scan, enrich_from_lsof, listening_ports, sort_dedup_by_port, PortInfo,
};

fn chars(s: &str) -> Vec<char> {
    s.chars().collect()
}

const NETSTAT: &str = "Active Internet connections (including servers)
Proto Recv-Q Send-Q  Local Address          Foreign Address        (state)
tcp4       0      0  127.0.0.1.5432         *.*                    LISTEN
tcp6       0      0  *.3000                 *.*                    LISTEN
tcp4       0      0  192.168.1.5.52144      17.57.146.20.5223      ESTABLISHED
udp4       0      0  *.5353                 *.*                    LISTEN
tcp46      0      0  *.8080                 *.*                    LISTEN
tcp4       0      0  *.notaport             *.*                    LISTEN
tcp4       0      0  *.3000                 *.*                    LISTEN
short line
";

const LSOF: &str = "COMMAND   PID USER   FD   TYPE             DEVICE SIZE/OFF NODE NAME
postgres 812 me    7u  IPv4 0x1234      0t0  TCP 127.0.0.1:5432 (LISTEN)
other    900 me    7u  IPv4 0x1234      0t0  TCP 127.0.0.1:5432 (LISTEN)
";

fn entry(port: u16, pid: Option<u32>, name: Option<&str>) -> PortInfo {
    PortInfo {
        port,
        protocol: "TCP".to_string(),
        pid,
        process_name: name.map(|n| n.to_string()),
    }
}

fn summary(v: &[PortInfo]) -> Vec<(u16, String, Option<u32>, Option<String>)> {
    v.iter().map(|p| (p.port, p.protocol.clone(), p.pid, p.process_name.clone())).collect()
}

#[test]
fn listening_ports_keeps_tcp_listen_lines_in_order() {
    assert_eq!(listening_ports(&chars(NETSTAT), 0), vec![5432, 3000, 8080, 3000]);
}

#[test]
fn listening_ports_respects_min_port() {
    assert_eq!(listening_ports(&chars(NETSTAT), 3001), vec![5432, 8080]);
    assert_eq!(listening_ports(&chars(NETSTAT), 8080), vec![8080]);
    assert_eq!(listening_ports(&chars(NETSTAT), 8081), Vec::<u16>::new());
}

#[test]
fn listening_ports_of_empty_output_is_empty() {
    assert!(listening_ports(&chars(""), 0).is_empty());
}

#[test]
fn listening_ports_needs_six_columns_and_exact_state() {
    let text = "tcp4 0 0 *.22 *.*\ntcp4 0 0 *.23 *.* listen\ntcp 0 0 *.24 *.* LISTEN extra\n";
    assert_eq!(listening_ports(&chars(text), 0), vec![24]);
}

#[test]
fn tcp_entry_has_no_process() {
    let p = PortInfo::tcp(443);
    assert_eq!(summary(&[p]), vec![(443, "TCP".to_string(), None, None)]);
}

#[test]
fn enrich_takes_the_first_line_after_the_header() {
    let p = enrich_from_lsof(PortInfo::tcp(5432), &chars(LSOF));
    assert_eq!(summary(&[p]), summary(&[entry(5432, Some(812), Some("postgres"))]));
}

#[test]
fn enrich_keeps_the_name_when_the_pid_does_not_parse() {
    let out = "HEADER\n\n   \nnode abc\n";
    let p = enrich_from_lsof(PortInfo::tcp(3000), &chars(out));
    assert_eq!(summary(&[p]), summary(&[entry(3000, None, Some("node"))]));
}

#[test]
fn enrich_leaves_the_entry_without_a_usable_line() {
    for out in ["", "COMMAND PID USER\n", "COMMAND PID\nonlyone\n"] {
        let p = enrich_from_lsof(PortInfo::tcp(22), &chars(out));
        assert_eq!(summary(&[p]), summary(&[entry(22, None, None)]));
    }
}

#[test]
fn enrich_never_reads_the_header_line() {
    let p = enrich_from_lsof(PortInfo::tcp(22), &chars("sshd 1"));
    assert_eq!(summary(&[p]), summary(&[entry(22, None, None)]));
}

#[test]
fn sort_dedup_sorts_and_keeps_the_first_of_each_port() {
    let input = vec![
        entry(8080, Some(1), Some("first")),
        entry(3000, None, None),
        entry(8080, Some(2), Some("second")),
        entry(22, Some(3), Some("sshd")),
        entry(3000, Some(4), Some("late")),
    ];
    let out = sort_dedup_by_port(input);
    assert_eq!(
        summary(&out),
        summary(&[
            entry(22, Some(3), Some("sshd")),
            entry(3000, None, None),
            entry(8080, Some(1), Some("first")),
        ])
    );
}

#[test]
fn sort_dedup_of_nothing_is_nothing() {
    assert!(sort_dedup_by_port(Vec::new()).is_empty());
}

#[test]
fn sort_dedup_twice_changes_nothing() {
    let input = vec![entry(9, None, None), entry(1, Some(1), None), entry(9, Some(2), None)];
    let once = sort_dedup_by_port(input);
    let first = summary(&once);
    let twice = sort_dedup_by_port(once);
    assert_eq!(summary(&twice), first);
}

#[test]
fn build_scan_probes_each_port_and_sorts() {
    let ports = listening_ports(&chars(NETSTAT), 0);
    let outputs: Vec<Option<Vec<char>>> = ports
        .iter()
        .map(|p| match p {
            5432 => Some(chars(LSOF)),
            8080 => None,
            _ => Some(chars("COMMAND PID\nnode 77\n")),
        })
        .collect();
    let scan = build_scan(&ports, &outputs);
    assert_eq!(
        summary(&scan),
        summary(&[
            entry(3000, Some(77), Some("node")),
            entry(5432, Some(812), Some("postgres")),
            entry(8080, None, None),
        ])
    );
}

#[test]
fn raising_min_port_only_filters_the_scan() {
    let lsof_for = |p: &u16| match p {
        5432 => Some(chars(LSOF)),
        _ => Some(chars("COMMAND PID\nnode 77\n")),
    };
    let low_ports = listening_ports(&chars(NETSTAT), 0);
    let low_outs: Vec<Option<Vec<char>>> = low_ports.iter().map(lsof_for).collect();
    let low = summary(&build_scan(&low_ports, &low_outs));
    let high_ports = listening_ports(&chars(NETSTAT), 3001);
    let high_outs: Vec<Option<Vec<char>>> = high_ports.iter().map(lsof_for).collect();
    let high = summary(&build_scan(&high_ports, &high_outs));
    let filtered: Vec<_> = low.into_iter().filter(|e| e.0 >= 3001).collect();
    assert_eq!(high, filtered);
}
