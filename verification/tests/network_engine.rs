use std::time::{Duration, Instant};

use rustyplot::app_state::AppState;
use rustyplot::ip::{IpAddr, PingProtocol};
use rustyplot::network_engine::{
    ping_target, ping_target_again, record_outcome, record_outcome_at, Hop, NetworkEngine,
    PingLoop, PingRequest, PingTarget, ReachStep, Resolution,
};
use rustyplot::ratio::Ratio;
use rustyplot::trace::HopData;

fn ip(last: u8) -> IpAddr {
    IpAddr::V4(u32::from_be_bytes([192, 168, 1, last]))
}

fn ms(x: f64) -> u64 {
    (x * 1_000_000.0).round() as u64
}

fn in_ms(r: Ratio) -> f64 {
    r.num as f64 / r.den as f64 / 1_000_000.0
}

fn value(r: Ratio) -> f64 {
    r.num as f64 / r.den as f64
}

fn data(hop_number: u8, ip: IpAddr, rtts: Vec<u64>) -> HopData {
    let packets_received = rtts.len() as u32;
    HopData { hop_number, ip, rtts, packets_sent: 3, packets_received }
}

#[test]
fn test_hop_new() {
    let ip = ip(1);
    let hop = Hop::new(1, ip);

    assert_eq!(hop.hop_number, 1);
    assert_eq!(hop.ip, ip);
    assert_eq!(hop.rtts.capacity(), 100);
    assert_eq!(hop.packets_sent, 0);
    assert_eq!(hop.packets_received, 0);
}

#[test]
fn test_hop_with_hostname() {
    let hop = Hop::with_hostname(1, ip(1), Some("router.example.com".to_string()));

    assert_eq!(hop.hostname, Some("router.example.com".to_string()));
}

#[test]
fn test_loss_percentage() {
    let mut hop = Hop::new(1, ip(1));

    // No packets sent
    assert_eq!(value(hop.loss_percentage()), 0.0);

    // All packets received
    hop.packets_sent = 100;
    hop.packets_received = 100;
    assert_eq!(value(hop.loss_percentage()), 0.0);

    // 50% loss
    hop.packets_sent = 100;
    hop.packets_received = 50;
    assert_eq!(value(hop.loss_percentage()), 50.0);

    // 100% loss
    hop.packets_received = 0;
    assert_eq!(value(hop.loss_percentage()), 100.0);
}

#[test]
fn test_jitter() {
    let mut hop = Hop::new(1, ip(1));

    // No RTTs
    assert_eq!(in_ms(hop.jitter()), 0.0);

    // Single RTT
    hop.add_rtt(ms(10.0));
    assert_eq!(in_ms(hop.jitter()), 0.0);

    // Two RTTs with same value
    hop.add_rtt(ms(10.0));
    assert_eq!(in_ms(hop.jitter()), 0.0);

    // Two RTTs with different values
    hop.add_rtt(ms(20.0));
    assert!((in_ms(hop.jitter()) - 5.0).abs() < 0.001); // (0 + 10) / 2 = 5
}

#[test]
fn test_rtt_stats() {
    let mut hop = Hop::new(1, ip(1));

    // No RTTs
    let (min, avg, max) = hop.rtt_stats();
    assert!(min.is_none());
    assert!(avg.is_none());
    assert!(max.is_none());

    // Add some RTTs
    hop.add_rtt(ms(10.0));
    hop.add_rtt(ms(20.0));
    hop.add_rtt(ms(30.0));

    let (min, avg, max) = hop.rtt_stats();
    assert!(min.is_some() && (min.unwrap() as f64 / 1_000_000.0 - 10.0).abs() < 0.001);
    assert!(avg.is_some() && (in_ms(avg.unwrap()) - 20.0).abs() < 0.001);
    assert!(max.is_some() && (max.unwrap() as f64 / 1_000_000.0 - 30.0).abs() < 0.001);
}

#[test]
fn test_rolling_buffer() {
    let mut hop = Hop::new(1, ip(1));

    // Add 101 RTTs
    for i in 0..101 {
        hop.add_rtt(ms(i as f64));
    }

    // Should only have 100 RTTs (oldest removed)
    assert_eq!(hop.rtts.len(), 100);
    assert_eq!(hop.rtts[0], ms(1.0)); // First value after removal
    assert_eq!(hop.rtts[99], ms(100.0)); // Last value
}

#[test]
fn test_network_engine_new() {
    let engine = NetworkEngine::new("example.com".to_string());

    assert_eq!(engine.target(), "example.com");
    assert_eq!(engine.hop_count(), 0);
    assert!(!engine.is_running());
}

#[test]
fn test_hop_is_alive() {
    let mut hop = Hop::new(1, ip(1));

    assert!(!hop.is_alive());

    hop.packets_received = 1;
    assert!(hop.is_alive());
}

#[test]
fn jitter_takes_falls_and_rises() {
    let mut hop = Hop::new(1, ip(1));
    for rtt in [30u64, 10, 15] {
        hop.add_rtt(rtt);
    }
    assert_eq!(hop.jitter(), Ratio { num: 25, den: 2 });
    assert_eq!(hop.rtt_stats(), (Some(10), Some(Ratio { num: 55, den: 3 }), Some(30)));
}

#[test]
fn oversized_buffer_drops_one_per_measurement() {
    let mut hop = Hop::new(1, ip(1));
    hop.rtts = (0..150).collect();
    hop.add_rtt(1000);
    assert_eq!(hop.rtts.len(), 150);
    assert_eq!(hop.rtts[0], 1);
    assert_eq!(hop.rtts[149], 1000);
}

#[test]
fn traceroute_keeps_hops_that_answered() {
    let mut engine = NetworkEngine::new("example.com".to_string());
    let found = vec![
        data(1, ip(1), vec![5, 6]),
        data(2, IpAddr::V4(0), vec![]),
        data(3, ip(3), vec![7]),
    ];
    assert!(!engine.traceroute(Some((found, true))));
    assert_eq!(engine.hop_count(), 2);
    let hops = engine.hops();
    assert_eq!(hops[0].hop_number, 1);
    assert_eq!(hops[0].ip, ip(1));
    assert_eq!(hops[0].rtts, vec![5, 6]);
    assert_eq!(hops[0].packets_sent, 3);
    assert_eq!(hops[0].packets_received, 2);
    assert!(hops[0].hostname.is_none());
    assert_eq!(hops[1].hop_number, 3);
}

#[test]
fn failed_or_incomplete_traceroute() {
    let mut engine = NetworkEngine::new("example.com".to_string());
    assert!(engine.traceroute(Some((vec![data(1, ip(1), vec![5])], false))));
    assert_eq!(engine.hop_count(), 1);
    assert!(!engine.traceroute(None));
    assert_eq!(engine.hop_count(), 0);
}

#[test]
fn target_resolution() {
    let engine = NetworkEngine::new("example.com".to_string());
    assert!(matches!(engine.resolve_target(Some(ip(9))), Resolution::Address(a) if a == ip(9)));
    assert!(matches!(engine.resolve_target(None), Resolution::Lookup(n) if n == "example.com:80"));
    assert_eq!(engine.first_address(&vec![ip(4), ip(5)]).unwrap(), ip(4));
    let error = engine.first_address(&vec![]).unwrap_err();
    assert_eq!(error.message(), "No IP address found for target: example.com");
}

#[test]
fn continuous_ping_starts_and_stops() {
    let mut engine = NetworkEngine::new("example.com".to_string());
    let error = engine.start_continuous_ping().unwrap_err();
    assert_eq!(error.message(), "No hops to ping. Run traceroute first.");
    assert!(!engine.is_running());
    assert!(!engine.stop());

    engine.traceroute(Some((vec![data(1, ip(1), vec![5])], true)));
    assert!(engine.start_continuous_ping().unwrap().is_some());
    assert!(engine.is_running());
    assert!(engine.start_continuous_ping().unwrap().is_none());
    assert!(engine.is_running());
    assert!(engine.stop());
    assert!(!engine.is_running());
    assert_eq!(engine.hop_count(), 1);
}

#[test]
fn round_pings_every_hop_once() {
    let hops = vec![Hop::new(1, ip(1)), Hop::new(4, ip(4))];
    let rounds = PingLoop::new(&hops);
    assert_eq!(
        rounds.requests(&vec![7, 8]),
        vec![
            PingRequest {
                target: PingTarget { hop_number: 1, ip: ip(1) },
                protocol: PingProtocol::V4,
                ident: 7,
            },
            PingRequest {
                target: PingTarget { hop_number: 4, ip: ip(4) },
                protocol: PingProtocol::V4,
                ident: 8,
            },
        ]
    );
}

#[test]
fn rounds_do_not_wait_for_outcomes() {
    let hops = vec![Hop::new(1, ip(1)), Hop::new(4, ip(4))];
    let mut rounds = PingLoop::new(&hops);
    for _ in 0..3 {
        let numbers: Vec<u8> =
            rounds.begin_round().iter().map(|request| request.target.hop_number).collect();
        assert_eq!(numbers, vec![1, 4]);
    }
}

#[test]
fn outcomes_may_come_in_any_order() {
    let start = Instant::now();
    let at = |secs: u64| start + Duration::from_secs(secs);
    let mut forward = AppState::default();
    record_outcome_at(&mut forward, 1, at(1), Some(500));
    record_outcome_at(&mut forward, 4, at(2), None);
    let mut backward = AppState::default();
    record_outcome_at(&mut backward, 4, at(2), None);
    record_outcome_at(&mut backward, 1, at(1), Some(500));
    for state in [&forward, &backward] {
        let first = state.get_hop_state(1).unwrap();
        assert_eq!(first.results.len(), 1);
        assert_eq!(first.results[0].timestamp, at(1));
        assert_eq!(first.latest_rtt, Some(500));
        assert!(first.is_alive);
        let second = state.get_hop_state(4).unwrap();
        assert_eq!(second.results.len(), 1);
        assert!(!second.results[0].success);
        assert_eq!(second.results[0].rtt_ns, 0);
    }
    record_outcome(&mut forward, 4, Some(9));
    assert_eq!(forward.get_hop_state(4).unwrap().results.len(), 2);
    assert_eq!(forward.get_hop_state(1).unwrap().results.len(), 1);
}

#[test]
fn progress_is_reported_every_sixty_rounds() {
    let mut rounds = PingLoop::new(&vec![]);
    assert_eq!(rounds.progress(), None);
    for round in 1..=120u64 {
        assert!(rounds.begin_round().is_empty());
        let want = if round % 60 == 0 { Some(round) } else { None };
        assert_eq!(rounds.progress(), want);
    }
}

#[test]
fn protocol_is_that_of_the_first_hop() {
    let mut rounds = PingLoop::new(&vec![Hop::new(1, IpAddr::V6(1)), Hop::new(2, ip(2))]);
    for request in rounds.begin_round() {
        assert_eq!(request.protocol, PingProtocol::V6);
    }
}

#[test]
fn ping_identifiers_are_random() {
    let mut rounds = PingLoop::new(&vec![Hop::new(1, ip(1))]);
    let mut seen: Vec<u16> = Vec::new();
    for _ in 0..64 {
        let ident = rounds.begin_round()[0].ident;
        if !seen.contains(&ident) {
            seen.push(ident);
        }
    }
    assert!(seen.len() > 32);
}

#[test]
fn reachability_takes_three_pings() {
    assert_eq!(ping_target(IpAddr::V6(1)), ReachStep::Unreachable);
    assert_eq!(ping_target(ip(1)), ReachStep::Ping(0));
    assert_eq!(ping_target_again(0, false), ReachStep::Ping(1));
    assert_eq!(ping_target_again(1, false), ReachStep::Ping(2));
    assert_eq!(ping_target_again(2, false), ReachStep::Unreachable);
    for seq in 0..3 {
        assert_eq!(ping_target_again(seq, true), ReachStep::Reachable);
    }
}
