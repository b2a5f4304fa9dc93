use std::time::{Duration, Instant};

use rustyplot::app_state::{AppState, HopState, MAX_HISTORY_SIZE};
use rustyplot::ip::IpAddr;
use rustyplot::network_engine::Hop;
use rustyplot::ratio::Ratio;

fn ip(last: u8) -> IpAddr {
    IpAddr::V4(u32::from_be_bytes([192, 168, 1, last]))
}

fn ms(x: f64) -> u64 {
    (x * 1_000_000.0).round() as u64
}

fn in_ms(r: Ratio) -> f64 {
    r.num as f64 / r.den as f64 / 1_000_000.0
}

fn value(r: Ratio) -> f64 {
    r.num as f64 / r.den as f64
}

#[test]
fn test_app_state_new() {
    let state = AppState::new("example.com".to_string());
    assert_eq!(state.target, "example.com");
    assert!(!state.traceroute_complete);
    assert!(!state.ping_running);
    assert!(state.hops.is_empty());
}

#[test]
fn test_hop_state_add_result() {
    let mut hop = HopState::new();

    hop.add_result(ms(10.0), true);
    assert_eq!(hop.latest_rtt, Some(ms(10.0)));
    assert!(hop.is_alive);

    hop.add_result(ms(0.0), false);
    assert!(!hop.is_alive);

    hop.add_result(ms(15.0), true);
    assert_eq!(hop.latest_rtt, Some(ms(15.0)));
    assert!(hop.is_alive);
}

#[test]
fn test_hop_state_average_rtt() {
    let mut hop = HopState::new();

    assert!(hop.average_rtt().is_none());

    hop.add_result(ms(10.0), true);
    hop.add_result(ms(20.0), true);
    hop.add_result(ms(30.0), true);

    assert!(hop.average_rtt().is_some());
    let avg = in_ms(hop.average_rtt().unwrap());
    assert!((avg - 20.0).abs() < 0.001);
}

#[test]
fn test_hop_state_loss_percentage() {
    let mut hop = HopState::new();

    assert_eq!(value(hop.loss_percentage()), 0.0);

    hop.add_result(ms(10.0), true);
    hop.add_result(ms(0.0), false);
    hop.add_result(ms(15.0), true);
    hop.add_result(ms(0.0), false);

    assert!((value(hop.loss_percentage()) - 50.0).abs() < 0.001);
}

#[test]
fn test_hop_state_rolling_buffer() {
    let mut hop = HopState::new();

    // Add more than MAX_HISTORY_SIZE results
    for i in 0..MAX_HISTORY_SIZE + 50 {
        hop.add_result(ms(i as f64), true);
    }

    assert_eq!(hop.results.len(), MAX_HISTORY_SIZE);
}

#[test]
fn test_app_state_initialize_hops() {
    let mut state = AppState::new("example.com".to_string());

    state.initialize_hops(vec![1, 2, 3]);

    assert_eq!(state.hops.len(), 3);
    assert!(state.get_hop_state(1).is_some());
    assert!(state.get_hop_state(2).is_some());
    assert!(state.get_hop_state(3).is_some());
    assert!(state.get_hop_state(4).is_none());
}

#[test]
fn test_app_state_add_ping_result() {
    let mut state = AppState::new("example.com".to_string());

    state.add_ping_result(1, ms(10.0), true);

    let hop = state.get_hop_state(1).unwrap();
    assert_eq!(hop.latest_rtt, Some(ms(10.0)));
}

#[test]
fn test_app_state_hop_numbers() {
    let mut state = AppState::new("example.com".to_string());

    state.initialize_hops(vec![3, 1, 2]);

    let nums = state.hop_numbers();
    assert_eq!(nums, vec![1, 2, 3]);
}

#[test]
fn test_hop_ip_storage() {
    let mut state = AppState::new("example.com".to_string());

    // Initially no hop IPs
    assert!(state.get_hop_ip(1).is_none());
    assert!(state.hop_ips.is_empty());

    // Create mock hops
    let ip1 = ip(1);
    let ip2 = ip(2);
    let ip3 = ip(3);

    let hops = vec![Hop::new(1, ip1), Hop::new(2, ip2), Hop::new(3, ip3)];

    // Set hop IPs
    state.set_hop_ips(&hops);

    // Verify IPs are stored
    assert_eq!(state.get_hop_ip(1), Some(ip1));
    assert_eq!(state.get_hop_ip(2), Some(ip2));
    assert_eq!(state.get_hop_ip(3), Some(ip3));
    assert_eq!(state.get_hop_ip(4), None); // Non-existent hop
}

#[test]
fn history_keeps_the_latest_results() {
    let mut hop = HopState::new();
    for i in 0..(MAX_HISTORY_SIZE as u64 + 50) {
        hop.add_result(i, i % 3 != 0);
    }
    assert_eq!(hop.results[0].rtt_ns, 50);
    assert_eq!(hop.results[MAX_HISTORY_SIZE - 1].rtt_ns, 1049);
    // 1049 % 3 == 2: the last result is a success
    assert_eq!(hop.latest_rtt, Some(1049));
    assert!(hop.is_alive);
}

#[test]
fn failures_before_any_success_leave_a_hop_dead() {
    let mut hop = HopState::new();
    hop.add_result(0, false);
    assert!(!hop.is_alive);
    assert_eq!(hop.latest_rtt, None);
    assert!(hop.average_rtt().is_none());
    assert!(hop.min_rtt().is_none());
    assert!(hop.max_rtt().is_none());
    assert_eq!(hop.loss_percentage(), Ratio { num: 100, den: 1 });
}

#[test]
fn statistics_cover_the_last_hundred_results() {
    let mut hop = HopState::new();
    hop.add_result(1, true);
    hop.add_result(1_000_000, true);
    for _ in 0..50 {
        hop.add_result(20, true);
        hop.add_result(40, false);
    }
    assert_eq!(hop.min_rtt(), Some(20));
    assert_eq!(hop.max_rtt(), Some(20));
    assert_eq!(hop.average_rtt(), Some(Ratio { num: 1000, den: 50 }));
    assert_eq!(hop.loss_percentage(), Ratio { num: 5000, den: 100 });
}

#[test]
fn extremes_ignore_failures() {
    let mut hop = HopState::new();
    hop.add_result(30, true);
    hop.add_result(0, false);
    hop.add_result(10, true);
    hop.add_result(20, true);
    assert_eq!(hop.min_rtt(), Some(10));
    assert_eq!(hop.max_rtt(), Some(30));
    assert_eq!(hop.average_rtt(), Some(Ratio { num: 60, den: 3 }));
}

#[test]
fn recent_results_come_oldest_first() {
    let mut hop = HopState::new();
    for i in 0..5 {
        hop.add_result(i, true);
    }
    let recent: Vec<u64> = hop.get_recent_results(2).iter().map(|r| r.rtt_ns).collect();
    assert_eq!(recent, vec![3, 4]);
    assert_eq!(hop.get_recent_results(9).len(), 5);
    assert_eq!(hop.get_recent_results(0).len(), 0);
}

#[test]
fn results_are_stamped_with_the_time() {
    let mut hop = HopState::new();
    let before = Instant::now();
    hop.add_result(5, true);
    let after = Instant::now();
    assert!(before <= hop.results[0].timestamp && hop.results[0].timestamp <= after);
    let later = after + Duration::from_secs(9);
    hop.add_result_at(later, 6, true);
    assert_eq!(hop.results[1].timestamp, later);
}

#[test]
fn history_is_in_order_of_time() {
    let mut hop = HopState::new();
    for i in 0..(MAX_HISTORY_SIZE as u64 + 3) {
        hop.add_result(i, true);
    }
    for pair in hop.results.windows(2) {
        assert!(pair[0].timestamp <= pair[1].timestamp);
    }
}

#[test]
fn ping_result_stays_with_its_hop() {
    let mut state = AppState::new("example.com".to_string());
    state.initialize_hops(vec![1, 2]);
    state.add_ping_result(2, 5, true);
    assert_eq!(state.get_hop_state(1).unwrap().results.len(), 0);
    assert_eq!(state.get_hop_state(2).unwrap().results.len(), 1);
    state.add_ping_result(9, 7, false);
    assert_eq!(state.hop_numbers(), vec![1, 2, 9]);
}

#[test]
fn initializing_again_gives_a_fresh_state() {
    let mut state = AppState::new("example.com".to_string());
    state.initialize_hops(vec![1, 2]);
    state.add_ping_result(1, 5, true);
    state.add_ping_result(2, 5, true);
    state.initialize_hops(vec![2]);
    assert_eq!(state.get_hop_state(1).unwrap().results.len(), 1);
    assert_eq!(state.get_hop_state(2).unwrap().results.len(), 0);
}

#[test]
fn later_hops_override_addresses() {
    let mut state = AppState::new("example.com".to_string());
    state.set_hop_ips(&vec![Hop::new(1, ip(1)), Hop::new(1, ip(2))]);
    assert_eq!(state.get_hop_ip(1), Some(ip(2)));
    state.set_hop_ips(&vec![Hop::new(3, ip(3))]);
    assert_eq!(state.get_hop_ip(1), None);
}

#[test]
fn flags_and_default() {
    let mut state = AppState::default();
    assert_eq!(state.target, "");
    state.set_traceroute_complete(true);
    state.set_ping_running(true);
    assert!(state.traceroute_complete && state.ping_running);
    state.set_traceroute_complete(false);
    state.set_ping_running(false);
    assert!(!state.traceroute_complete && !state.ping_running);
}

#[test]
fn session_starts_at_a_given_time() {
    let start = Instant::now() + Duration::from_secs(5);
    let state = AppState::new_at("example.com".to_string(), start);
    assert_eq!(state.session_start, start);
    assert_eq!(state.target, "example.com");
    assert!(state.hops.is_empty() && state.hop_ips.is_empty());
    assert!(!state.traceroute_complete && !state.ping_running);
    assert_eq!(state.session_duration_at(start + Duration::from_nanos(7)), 7);
}

#[test]
fn session_duration_counts_from_the_start() {
    let mut state = AppState::new("example.com".to_string());
    assert_eq!(state.session_duration_at(state.session_start), 0);
    let later = state.session_start + Duration::from_millis(2500);
    assert_eq!(state.session_duration_at(later), 2_500_000_000);
    let earlier = state.session_start - Duration::from_secs(1);
    assert_eq!(state.session_duration_at(earlier), 0);
    let first = state.session_duration();
    assert!(first < 1_000_000_000_000);
    state.session_start = Instant::now() - Duration::from_secs(3);
    let second = state.session_duration();
    assert!(second >= 3_000_000_000);
    assert!(second < 1_000_000_000_000);
}

#[test]
fn all_hop_numbers_fit() {
    let mut state = AppState::new("example.com".to_string());
    state.initialize_hops(vec![255, 0, 128, 255]);
    assert_eq!(state.hop_numbers(), vec![0, 128, 255]);
}
