use std::time::{Duration, Instant};

use rustyplot::app_state::AppState;
use rustyplot::ip::IpAddr;
use rustyplot::network_engine::Hop;
use rustyplot::ratio::Ratio;
use rustyplot::ui_renderer::{
    heading, hop_label, hop_table, hops_to_show, isolate_view, loss_color, status, timeline,
    timeline_at, write_duration, Rgb, SortColumn, SortDirection, Status,
};

const GREEN: Rgb = Rgb { r: 0, g: 200, b: 100 };
const YELLOW: Rgb = Rgb { r: 200, g: 200, b: 0 };
const RED: Rgb = Rgb { r: 200, g: 0, b: 0 };

fn order(state: &AppState, column: SortColumn, direction: SortDirection) -> Vec<u8> {
    hop_table(state, None, column, direction).iter().map(|row| row.hop_number).collect()
}

/// Hop 1: 10 and 30; hop 2: no answer; hop 5: 15, 25, 26 and one failure.
fn sample() -> AppState {
    let mut state = AppState::new("example.com".to_string());
    state.add_ping_result(1, 10, true);
    state.add_ping_result(1, 30, true);
    state.add_ping_result(2, 0, false);
    state.add_ping_result(5, 15, true);
    state.add_ping_result(5, 25, true);
    state.add_ping_result(5, 26, true);
    state.add_ping_result(5, 0, false);
    state
}

#[test]
fn header_texts() {
    let mut state = AppState::new("example.com".to_string());
    assert_eq!(heading(&state), "RustyPlot - example.com");
    assert_eq!(status(&state), Status::Initializing);
    assert_eq!(status(&state).label(), "Initializing...");
    assert_eq!(status(&state).color(), Rgb { r: 200, g: 100, b: 0 });
    state.set_traceroute_complete(true);
    assert_eq!(status(&state).label(), "Traceroute complete");
    assert_eq!(status(&state).color(), YELLOW);
    state.set_ping_running(true);
    assert_eq!(status(&state).label(), "Running");
    assert_eq!(status(&state).color(), GREEN);
}

#[test]
fn durations() {
    assert_eq!(write_duration(0), "0m 00s");
    assert_eq!(write_duration(187_999_999_999), "3m 07s");
    assert_eq!(write_duration(3_600_000_000_000), "60m 00s");
    assert_eq!(write_duration(59_999_999_999), "0m 59s");
}

#[test]
fn loss_colors() {
    assert_eq!(loss_color(Ratio { num: 10, den: 1 }), GREEN);
    assert_eq!(loss_color(Ratio { num: 21, den: 2 }), YELLOW);
    assert_eq!(loss_color(Ratio { num: 50, den: 1 }), YELLOW);
    assert_eq!(loss_color(Ratio { num: 101, den: 2 }), RED);
}

#[test]
fn rows_show_the_statistics() {
    let mut state = sample();
    state.set_hop_ips(&vec![Hop::new(1, IpAddr::V4(99))]);
    let rows = hop_table(&state, Some(2), SortColumn::HopNumber, SortDirection::Asc);
    assert_eq!(rows.len(), 3);
    assert_eq!(rows[0].min_rtt, Some(10));
    assert_eq!(rows[0].max_rtt, Some(30));
    assert_eq!(rows[0].average_rtt, Some(Ratio { num: 40, den: 2 }));
    assert_eq!(rows[0].ip, Some(IpAddr::V4(99)));
    assert_eq!(rows[0].jitter, Ratio { num: 20, den: 1 });
    assert_eq!(rows[1].ip, None);
    assert_eq!(rows[1].jitter, Ratio { num: 0, den: 1 });
    assert_eq!(rows[2].jitter, Ratio { num: 11, den: 2 });
    assert_eq!(rows[0].loss, Ratio { num: 0, den: 2 });
    assert_eq!(rows[0].loss_color, GREEN);
    assert_eq!(rows[0].pings, 2);
    assert!(!rows[0].selected);
    assert_eq!(rows[1].min_rtt, None);
    assert_eq!(rows[1].average_rtt, None);
    assert_eq!(rows[1].loss_color, RED);
    assert_eq!(rows[2].hop_number, 5);
    assert_eq!(rows[2].index, 2);
    assert!(rows[2].selected);
    assert_eq!(rows[2].loss, Ratio { num: 100, den: 4 });
    assert_eq!(rows[2].loss_color, YELLOW);
}

#[test]
fn table_is_sorted_by_every_column() {
    let state = sample();
    let asc = SortDirection::Asc;
    let desc = SortDirection::Desc;
    assert_eq!(order(&state, SortColumn::HopNumber, desc), vec![5, 2, 1]);
    assert_eq!(order(&state, SortColumn::AvgRtt, asc), vec![2, 1, 5]);
    assert_eq!(order(&state, SortColumn::AvgRtt, desc), vec![5, 1, 2]);
    assert_eq!(order(&state, SortColumn::MinRtt, asc), vec![1, 5, 2]);
    assert_eq!(order(&state, SortColumn::MaxRtt, desc), vec![1, 5, 2]);
    assert_eq!(order(&state, SortColumn::Loss, asc), vec![1, 5, 2]);
    assert_eq!(order(&state, SortColumn::PingCount, desc), vec![5, 1, 2]);
    assert!(order(&AppState::default(), SortColumn::Loss, asc).is_empty());
}

#[test]
fn table_is_sorted_by_jitter() {
    // Jitter 20, 0 and 11/2
    let state = sample();
    assert_eq!(order(&state, SortColumn::Jitter, SortDirection::Asc), vec![2, 5, 1]);
    assert_eq!(order(&state, SortColumn::Jitter, SortDirection::Desc), vec![1, 5, 2]);
}

#[test]
fn table_is_sorted_by_address() {
    let mut state = AppState::default();
    state.initialize_hops(vec![1, 2, 3, 4]);
    state.set_hop_ips(&vec![
        Hop::new(1, IpAddr::V6(1)),
        Hop::new(3, IpAddr::V4(u32::MAX)),
        Hop::new(4, IpAddr::V4(5)),
    ]);
    assert_eq!(order(&state, SortColumn::IpAddress, SortDirection::Asc), vec![4, 3, 1, 2]);
    assert_eq!(order(&state, SortColumn::IpAddress, SortDirection::Desc), vec![2, 1, 3, 4]);
}

#[test]
fn equal_rows_stay_in_hop_order() {
    let mut state = AppState::default();
    state.initialize_hops(vec![3, 1, 2]);
    assert_eq!(order(&state, SortColumn::AvgRtt, SortDirection::Desc), vec![1, 2, 3]);
    assert_eq!(order(&state, SortColumn::MinRtt, SortDirection::Desc), vec![1, 2, 3]);
}

#[test]
fn selection_isolates_a_hop() {
    let mut state = sample();
    state.set_hop_ips(&vec![Hop::new(5, IpAddr::V4(77))]);
    assert!(isolate_view(&state, None).is_none());
    assert!(isolate_view(&state, Some(3)).is_none());
    let details = isolate_view(&state, Some(2)).unwrap();
    assert_eq!(details.hop_number, 5);
    assert_eq!(details.ip, Some(IpAddr::V4(77)));
    assert_eq!(details.average_rtt, Some(Ratio { num: 66, den: 3 }));
    assert_eq!(details.min_rtt, Some(15));
    assert_eq!(details.max_rtt, Some(26));
    assert_eq!(details.loss, Ratio { num: 100, den: 4 });
    assert_eq!(details.pings, 4);
    assert_eq!(details.latest_rtt, Some(26));
    let shown: Vec<Option<u64>> = details.recent.iter().map(|ping| ping.rtt_ns).collect();
    assert_eq!(shown, vec![Some(15), Some(25), Some(26), None]);
    assert!(details.recent[2].followed);
    assert!(!details.recent[3].followed);
    assert_eq!(details.recent[0].color, GREEN);
    assert_eq!(details.recent[3].color, Rgb { r: 200, g: 50, b: 50 });
    assert_eq!(isolate_view(&state, Some(0)).unwrap().ip, None);
    assert_eq!(hops_to_show(&state, Some(2)), vec![5]);
    assert_eq!(hops_to_show(&state, Some(3)), vec![1, 2, 5]);
    assert_eq!(hops_to_show(&state, None), vec![1, 2, 5]);
}

#[test]
fn isolate_view_lists_twenty_results() {
    let mut state = AppState::default();
    for i in 0..50 {
        state.add_ping_result(1, i, true);
    }
    let recent = isolate_view(&state, Some(0)).unwrap().recent;
    assert_eq!(recent.len(), 20);
    assert_eq!(recent[0].rtt_ns, Some(30));
    assert_eq!(recent[19].rtt_ns, Some(49));
}

#[test]
fn timeline_shows_the_last_minute() {
    let mut state = AppState::default();
    let start = Instant::now();
    for (secs, rtt) in [(0, 1), (10, 2), (30, 3), (75, 4)] {
        state.add_ping_result_at(1, start + Duration::from_secs(secs), rtt, true);
    }
    let lines = timeline_at(&state, &vec![1], &vec![start + Duration::from_secs(75)]);
    assert_eq!(lines.len(), 1);
    assert_eq!(lines[0].hop_number, 1);
    assert_eq!(lines[0].points, vec![(0, 3), (45_000_000_000, 4)]);
    // A result that is exactly one minute old is still shown
    let lines = timeline_at(&state, &vec![1], &vec![start + Duration::from_secs(70)]);
    assert_eq!(lines[0].points[0], (0, 2));
    // A line runs forward from zero
    let late = timeline_at(&state, &vec![1], &vec![start + Duration::from_secs(60)]);
    assert_eq!(
        late[0].points,
        vec![(0, 1), (10_000_000_000, 2), (30_000_000_000, 3), (75_000_000_000, 4)]
    );
    // Hops without young results have no line
    let lines = timeline_at(&state, &vec![1], &vec![start + Duration::from_secs(200)]);
    assert!(lines.is_empty());
}

#[test]
fn lines_keep_the_order_of_the_shown_hops() {
    let mut state = AppState::default();
    let start = Instant::now();
    state.initialize_hops(vec![2]);
    state.add_ping_result_at(1, start, 10, true);
    state.add_ping_result_at(5, start, 50, true);
    let lines = timeline_at(&state, &vec![5, 2, 1], &vec![start, start, start]);
    assert_eq!(lines.len(), 2);
    assert_eq!((lines[0].hop_number, lines[0].points.clone()), (5, vec![(0, 50)]));
    assert_eq!((lines[1].hop_number, lines[1].points.clone()), (1, vec![(0, 10)]));
}

#[test]
fn timeline_now() {
    let mut state = sample();
    state.initialize_hops(vec![7]);
    let all: Vec<u8> = timeline(&state, None).iter().map(|line| line.hop_number).collect();
    assert_eq!(all, vec![1, 2, 5]);
    let one = timeline(&state, Some(0));
    assert_eq!(one.len(), 1);
    assert_eq!(one[0].points.len(), 2);
    assert_eq!(one[0].points[0], (0, 10));
    assert!(timeline(&state, Some(3)).is_empty());
    assert_eq!(hop_label(12), "Hop 12");
}
