use lan_remote::gui::{
    session_title, App, ConnectOutcome, ConnectRequest, ExitPlan, HostRequest, Session, Tab,
};

fn app() -> App {
    App::new("192.168.1.9".to_string())
}

fn with_pending(labels: &[&str]) -> App {
    let mut a = app();
    for l in labels {
        a.host_ip = l.to_string();
        a.start_connect();
    }
    a
}

fn failed(error: &str) -> ConnectOutcome {
    ConnectOutcome::Failed { error: error.to_string() }
}

#[test]
fn the_window_starts_on_the_connect_tab() {
    let a = app();
    assert_eq!(a.tab, Tab::Connect);
    assert_eq!((a.fps, a.bitrate), (30, 8));
    assert_eq!(a.local_ip, "192.168.1.9");
    assert!(!a.hosting && !a.host_clipboard);
    assert_eq!(a.host_password, "");
    assert_eq!(a.connect_error, None);
    assert!(!a.needs_repaint());
    assert_eq!(a.host_line("ignored"), "● Idle");
}

#[test]
fn tabs_can_be_chosen() {
    let mut a = app();
    a.select_tab(Tab::Host);
    assert_eq!(a.tab, Tab::Host);
    a.select_tab(Tab::Connect);
    assert_eq!(a.tab, Tab::Connect);
}

#[test]
fn rates_are_held_between_their_bounds() {
    let mut a = app();
    for ((fps, bitrate), expected) in [
        ((0, 0), (5, 1)),
        ((5, 1), (5, 1)),
        ((24, 12), (24, 12)),
        ((60, 50), (60, 50)),
        ((61, 51), (60, 50)),
        ((u32::MAX, u32::MAX), (60, 50)),
    ] {
        a.set_rates(fps, bitrate);
        assert_eq!((a.fps, a.bitrate), expected);
    }
}

#[test]
fn hosting_starts_and_stops() {
    let mut a = app();
    a.host_password = "pw".to_string();
    a.host_clipboard = true;
    a.set_rates(60, 20);
    assert_eq!(
        a.start_hosting(),
        HostRequest {
            bind: "0.0.0.0".to_string(),
            port: 7272,
            fps: 60,
            bitrate: 20,
            password: "pw".to_string(),
            clipboard: true,
        }
    );
    assert!(a.hosting);
    assert_eq!(a.host_line("Starting…"), "● Starting…");
    assert_eq!(a.on_exit(), ExitPlan { stop_host: true, sessions: vec![] });
    a.stop_hosting();
    assert!(!a.hosting);
    assert_eq!(a.on_exit(), ExitPlan { stop_host: false, sessions: vec![] });
}

#[test]
fn an_address_is_needed_to_connect() {
    let mut a = app();
    assert!(!a.can_connect());
    a.host_ip = " \t".to_string();
    assert!(!a.can_connect());
    a.host_ip = " 10.0.0.1 ".to_string();
    assert!(a.can_connect());
}

#[test]
fn a_connection_attempt_is_under_way() {
    let mut a = app();
    a.connect_error = Some("old".to_string());
    a.host_ip = " 10.0.0.1 ".to_string();
    a.view_password = " pw ".to_string();
    assert_eq!(
        a.start_connect(),
        ConnectRequest {
            host: "10.0.0.1".to_string(),
            port: 7272,
            password: " pw ".to_string(),
        }
    );
    assert_eq!(a.connect_error, None);
    assert_eq!(a.pending, vec!["10.0.0.1"]);
    assert!(a.needs_repaint());
    assert_eq!(a.pending_line(), Some("Connecting… (1)".to_string()));
}

#[test]
fn attempts_are_settled_in_their_places() {
    let mut a = with_pending(&["a", "b", "c", "d", "e"]);
    let opened = a.poll_pending(&vec![
        ConnectOutcome::Waiting,
        ConnectOutcome::Connected,
        failed("no route"),
        ConnectOutcome::Connected,
        ConnectOutcome::Waiting,
    ]);
    assert_eq!(opened, vec![0, 1]);
    assert_eq!(a.pending, vec!["a", "e"]);
    assert_eq!(
        a.sessions,
        vec![
            Session { id: 0, label: "b".to_string() },
            Session { id: 1, label: "d".to_string() },
        ]
    );
    assert_eq!(a.next_session, 2);
    assert_eq!(a.connect_error, None);
    assert_eq!(a.sessions_line(), Some("Active sessions (2)".to_string()));
}

#[test]
fn errors_name_the_host() {
    let mut a = with_pending(&["h1", "h2"]);
    a.poll_pending(&vec![ConnectOutcome::Connected, failed("timed out")]);
    assert_eq!(a.connect_error, Some("Connect to h2 failed: timed out".to_string()));
    let mut a = with_pending(&["h1", "h2"]);
    a.poll_pending(&vec![ConnectOutcome::Lost, ConnectOutcome::Waiting]);
    assert_eq!(a.connect_error, Some("Connect to h1 failed".to_string()));
    assert_eq!(a.pending, vec!["h2"]);
    assert_eq!(a.poll_pending(&vec![ConnectOutcome::Waiting]), Vec::<u64>::new());
    assert_eq!(a.connect_error, Some("Connect to h1 failed".to_string()));
}

#[test]
fn closed_sessions_are_gone_and_numbers_are_not_used_again() {
    let mut a = with_pending(&["a", "b", "c"]);
    a.poll_pending(&vec![
        ConnectOutcome::Connected,
        ConnectOutcome::Connected,
        ConnectOutcome::Connected,
    ]);
    assert_eq!(a.close_sessions(&vec![2, 7, 0]), vec![0, 2]);
    assert_eq!(a.sessions, vec![Session { id: 1, label: "b".to_string() }]);
    assert_eq!(a.close_sessions(&vec![]), Vec::<u64>::new());
    a.host_ip = "d".to_string();
    a.start_connect();
    assert_eq!(a.poll_pending(&vec![ConnectOutcome::Connected]), vec![3]);
    assert_eq!(a.on_exit().sessions, vec![1, 3]);
    assert_eq!(a.close_sessions(&vec![1, 3]), vec![1, 3]);
    assert_eq!(a.sessions_line(), None);
    assert_eq!(a.pending_line(), None);
    assert!(!a.needs_repaint());
}

#[test]
fn windows_are_titled_by_their_host() {
    assert_eq!(session_title("10.0.0.1"), "10.0.0.1 — Rust P2P Viewer");
}
