use portwatch::cli::{Cli, Commands};
use portwatch::scanner::PortInfo;
use portwatch::table::{ports_found_line, separator_line, table_row};
use portwatch::ui::app::App;
use portwatch::ui::{key_action, Key, KeyAction};
use portwatch::watcher::{scan_event, watch_step, WatchCommand, WatchEvent, WatchStep, WatchWake};

fn entry(port: u16, pid: Option<u32>, name: Option<&str>) -> PortInfo {
    PortInfo {
        port,
        protocol: "TCP".to_string(),
        pid,
        process_name: name.map(|n| n.to_string()),
    }
}

#[test]
fn table_row_shows_known_process() {
    let row = table_row(&entry(5432, Some(812), Some("postgres")));
    assert_eq!(
        (row.port, row.protocol, row.pid, row.process),
        ("5432".to_string(), "TCP".to_string(), "812".to_string(), "postgres".to_string())
    );
}

#[test]
fn table_row_shows_placeholders_for_unknown_process() {
    let row = table_row(&entry(22, None, None));
    assert_eq!((row.pid, row.process), ("-".to_string(), "unknown".to_string()));
}

#[test]
fn separator_is_sixty_dashes() {
    assert_eq!(separator_line(), "-".repeat(60));
}

#[test]
fn ports_found_line_counts_ports() {
    assert_eq!(ports_found_line(3), "3 ports(s) found");
    assert_eq!(ports_found_line(0), "0 ports(s) found");
}

#[test]
fn quit_keys_quit() {
    assert_eq!(key_action(Key::Char('q'), None, 3), KeyAction::Quit);
    assert_eq!(key_action(Key::Esc, Some(1), 3), KeyAction::Quit);
}

#[test]
fn refresh_key_refreshes() {
    assert_eq!(key_action(Key::Char('r'), Some(0), 3), KeyAction::Refresh);
}

#[test]
fn other_keys_do_nothing() {
    assert_eq!(key_action(Key::Char('x'), Some(0), 3), KeyAction::Ignore);
    assert_eq!(key_action(Key::Other, None, 0), KeyAction::Ignore);
}

#[test]
fn down_moves_to_next_row_but_not_past_the_last() {
    assert_eq!(key_action(Key::Down, None, 3), KeyAction::Select(0));
    assert_eq!(key_action(Key::Down, Some(0), 3), KeyAction::Select(1));
    assert_eq!(key_action(Key::Down, Some(2), 3), KeyAction::Select(2));
    assert_eq!(key_action(Key::Down, Some(7), 3), KeyAction::Select(2));
    assert_eq!(key_action(Key::Down, Some(0), 0), KeyAction::Select(0));
}

#[test]
fn up_moves_to_previous_row_but_not_before_the_first() {
    assert_eq!(key_action(Key::Up, Some(2), 3), KeyAction::Select(1));
    assert_eq!(key_action(Key::Up, Some(0), 3), KeyAction::Select(0));
    assert_eq!(key_action(Key::Up, None, 3), KeyAction::Select(1));
}

#[test]
fn watch_loop_scans_on_tick_and_refresh_and_stops_when_closed() {
    assert_eq!(watch_step(&WatchWake::Tick), WatchStep::Scan);
    assert_eq!(watch_step(&WatchWake::Command(Some(WatchCommand::RefreshNow))), WatchStep::Scan);
    assert_eq!(watch_step(&WatchWake::Command(None)), WatchStep::Stop);
}

#[test]
fn scan_event_reports_ports_or_error() {
    match scan_event(Ok(vec![entry(80, None, None)])) {
        WatchEvent::Update(ports) => assert_eq!(ports.len(), 1),
        WatchEvent::Error(_) => panic!("expected an update"),
    }
    match scan_event(Err("Linux support comming soon!".to_string())) {
        WatchEvent::Error(message) => assert_eq!(message, "Linux support comming soon!"),
        WatchEvent::Update(_) => panic!("expected an error"),
    }
}

#[test]
fn app_starts_empty_and_takes_updates() {
    let mut app = App::new(2);
    assert!(app.ports.is_empty());
    assert_eq!(app.interval, 2);
    app.update_ports(vec![entry(80, None, None), entry(443, None, None)]);
    assert_eq!(app.ports.len(), 2);
    assert_eq!(app.interval, 2);
}

#[test]
fn app_handles_events() {
    let mut app = App::new(5);
    assert!(app.handle_event(WatchEvent::Update(vec![entry(22, None, None)])).is_none());
    assert_eq!(app.ports.len(), 1);
    let err = app.handle_event(WatchEvent::Error("boom".to_string()));
    assert_eq!(err, Some("boom".to_string()));
    assert_eq!(app.ports.len(), 1);
}

#[test]
fn header_title_reports_count_age_and_interval() {
    let mut app = App::new(10);
    app.update_ports(vec![entry(22, None, None), entry(80, None, None), entry(443, None, None)]);
    assert_eq!(
        app.header_title(4),
        "portwatch | 3 ports | last update: 4s ago | interval: 10s"
    );
}

#[test]
fn cli_holds_its_command() {
    let cli = Cli { command: Commands::Scan { min_port: 3000, json: true } };
    match cli.command {
        Commands::Scan { min_port, json } => assert_eq!((min_port, json), (3000, true)),
        Commands::Watch { .. } => panic!("expected scan"),
    }
    let watch = Commands::Watch { interval: 2, tui: false };
    assert!(matches!(watch, Commands::Watch { interval: 2, tui: false }));
}

#[test]
fn header_row_is_padded_like_the_format_widths() {
    let h = portwatch::table::header_row();
    let line = format!("{} {} {} {}", h.port, h.protocol, h.pid, h.process);
    assert_eq!(line, format!("{:<8} {:<8} {:<10} {}", "PORT", "PROTO", "PID", "PROCESS"));
}

#[test]
fn padded_row_pads_port_protocol_and_pid() {
    let row = portwatch::table::padded_row(table_row(&entry(5432, Some(812), Some("postgres"))));
    assert_eq!(
        format!("{} {} {} {}", row.port, row.protocol, row.pid, row.process),
        format!("{:<8} {:<8} {:<10} {}", "5432", "TCP", "812", "postgres")
    );
}

#[test]
fn pad_right_leaves_long_text_alone() {
    assert_eq!(portwatch::table::pad_right("averyverylongname".to_string(), 8), "averyverylongname");
    assert_eq!(portwatch::table::pad_right("ä".to_string(), 3), "ä  ");
    assert_eq!(portwatch::table::pad_right(String::new(), 0), "");
}

#[test]
fn only_q_and_esc_quit() {
    for key in [Key::Char('Q'), Key::Char('r'), Key::Up, Key::Down, Key::Other, Key::Char(' ')] {
        assert_ne!(key_action(key, Some(0), 2), KeyAction::Quit);
    }
}

#[test]
fn port_info_can_be_cloned() {
    let p = entry(80, Some(1), Some("nginx"));
    let q = p.clone();
    assert_eq!((q.port, q.protocol, q.pid, q.process_name), (80, "TCP".to_string(), Some(1), Some("nginx".to_string())));
}
