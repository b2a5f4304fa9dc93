use rustyplot::app_state::AppState;
use rustyplot::ip::IpAddr;
use rustyplot::network_engine::{record_outcome, NetworkEngine};
use rustyplot::session::RustyPlotApp;
use rustyplot::sorting::{SortColumn, SortDirection};
use rustyplot::trace::HopData;

fn traced(numbers: &[u8]) -> NetworkEngine {
    let mut engine = NetworkEngine::new("example.com".to_string());
    let found: Vec<HopData> = numbers
        .iter()
        .map(|&hop_number| HopData {
            hop_number,
            ip: IpAddr::V4(hop_number as u32),
            rtts: vec![1],
            packets_sent: 3,
            packets_received: 1,
        })
        .collect();
    engine.traceroute(Some((found, true)));
    engine
}

#[test]
fn test_rusty_plot_app_new() {
    let app = RustyPlotApp {
        target: "test.com".to_string(),
        state: AppState::new("test.com".to_string()),
        stop_signal: false,
        selected_hop: None,
        sort_column: SortColumn::default(),
        sort_direction: SortDirection::default(),
        engine_initialized: false,
    };

    assert_eq!(app.target, "test.com");
    assert!(!app.stop_signal);
    assert!(!app.engine_initialized);
}

#[test]
fn new_session_has_nothing_selected() {
    let app = RustyPlotApp::new("test.com".to_string());
    assert_eq!(app.target, "test.com");
    assert_eq!(app.state.target, "test.com");
    assert_eq!(app.selected_hop, None);
    assert_eq!(app.sort_column, SortColumn::AvgRtt);
    assert_eq!(app.sort_direction, SortDirection::Desc);
}

#[test]
fn engine_is_spawned_once() {
    let mut app = RustyPlotApp::new("test.com".to_string());
    assert!(app.update());
    assert!(!app.update());
    assert!(!app.spawn_engine_task());
    assert!(app.engine_initialized);
}

#[test]
fn stop_request_is_carried_out_in_the_next_frame() {
    let mut app = RustyPlotApp::new("test.com".to_string());
    app.state.set_ping_running(true);
    app.update();
    assert!(app.state.ping_running);
    app.press_stop();
    assert!(app.stop_signal);
    app.update();
    assert!(!app.stop_signal);
    assert!(!app.state.ping_running);
}

#[test]
fn discovered_hops_are_fresh_and_addressed() {
    let mut app = RustyPlotApp::new("test.com".to_string());
    app.state.add_ping_result(1, 5, true);
    app.state.add_ping_result(9, 5, true);
    assert!(app.traceroute_done(&traced(&[1, 3])));
    assert!(app.state.traceroute_complete);
    assert_eq!(app.state.hop_numbers(), vec![1, 3, 9]);
    assert_eq!(app.state.get_hop_state(1).unwrap().results.len(), 0);
    assert_eq!(app.state.get_hop_state(9).unwrap().results.len(), 1);
    assert_eq!(app.state.get_hop_ip(3), Some(IpAddr::V4(3)));
    assert_eq!(app.state.get_hop_ip(9), None);
}

#[test]
fn stop_request_prevents_pinging() {
    let mut app = RustyPlotApp::new("test.com".to_string());
    app.press_stop();
    assert!(!app.traceroute_done(&traced(&[1])));
    assert!(app.state.traceroute_complete);
}

#[test]
fn failed_traceroute_is_not_complete() {
    let mut app = RustyPlotApp::new("test.com".to_string());
    app.state.set_traceroute_complete(true);
    app.traceroute_failed();
    assert!(!app.state.traceroute_complete);
}

#[test]
fn ping_task_covers_the_hops() {
    let mut app = RustyPlotApp::new("test.com".to_string());
    let mut rounds = app.start_ping_task(&traced(&[2]));
    assert!(app.state.ping_running);
    let pings = rounds.begin_round();
    assert_eq!(pings.len(), 1);
    record_outcome(&mut app.state, pings[0].target.hop_number, Some(7));
    assert_eq!(app.state.get_hop_state(2).unwrap().latest_rtt, Some(7));
}

#[test]
fn selection_and_sorting() {
    let mut app = RustyPlotApp::new("test.com".to_string());
    app.select_hop(4);
    assert_eq!(app.selected_hop, Some(4));
    app.close_isolate_view();
    assert_eq!(app.selected_hop, None);
    app.click_sort_header(SortColumn::HopNumber);
    assert_eq!(app.sort_column, SortColumn::HopNumber);
    assert_eq!(app.sort_direction, SortDirection::Asc);
    app.click_sort_header(SortColumn::HopNumber);
    assert_eq!(app.sort_direction, SortDirection::Desc);
}
