use rustyplot::cli::{
    no_hops_message, ping_hop, reached_at, trace_rows, ContinuousPing, HopDisplay, TraceRow,
};
use rustyplot::ip::{IpAddr, PingProtocol};
use rustyplot::network_engine::{Hop, NetworkEngine, PingTarget};
use rustyplot::trace::HopData;

fn hop(number: u8, rtts: Vec<u64>) -> Hop {
    let mut hop = Hop::new(number, IpAddr::V4(number as u32));
    hop.rtts = rtts;
    hop
}

fn engine_with(numbers: &[u8]) -> NetworkEngine {
    let mut engine = NetworkEngine::new("example.com".to_string());
    let found: Vec<HopData> = numbers
        .iter()
        .map(|&hop_number| HopData {
            hop_number,
            ip: IpAddr::V4(hop_number as u32),
            rtts: vec![1],
            packets_sent: 3,
            packets_received: 1,
        })
        .collect();
    engine.traceroute(Some((found, true)));
    engine
}

#[test]
fn line_of_a_hop_that_answered() {
    let display = HopDisplay::new(7, "192.168.1.1".to_string(), Some(12_300_000), false);
    assert_eq!(display.shown_rtt(), Some(12_300_000));
    assert_eq!(
        display.line("12.3ms"),
        format!("{:>3}  {:<20}  {:<10}  {}{}", 7, "192.168.1.1", "12.3ms", "\u{2713}", "")
    );
}

#[test]
fn line_of_a_silent_target() {
    for rtt in [None, Some(0)] {
        let display = HopDisplay::new(30, "10.0.0.1".to_string(), rtt, true);
        assert_eq!(display.shown_rtt(), None);
        assert_eq!(
            display.line("0.0ms"),
            format!("{:>3}  {:<20}  {:<10}  {}{}", 30, "10.0.0.1", "timeout", "\u{2717}", " (target)")
        );
    }
}

#[test]
fn target_is_told_by_its_address() {
    let hops = vec![hop(1, vec![10, 20]), hop(3, vec![])];
    let rows = trace_rows(&hops, Some(IpAddr::V4(3)));
    assert_eq!(
        rows[0],
        TraceRow { hop_number: 1, ip: IpAddr::V4(1), rtt_ns: Some(20), is_target: false }
    );
    assert_eq!(
        rows[1],
        TraceRow { hop_number: 3, ip: IpAddr::V4(3), rtt_ns: None, is_target: true }
    );
    assert_eq!(reached_at(&hops, Some(IpAddr::V4(3))), Some(3));
    assert_eq!(reached_at(&hops, Some(IpAddr::V4(1))), None);
}

#[test]
fn target_is_told_by_its_number() {
    let hops = vec![hop(1, vec![]), hop(2, vec![]), hop(5, vec![])];
    let targets: Vec<bool> = trace_rows(&hops, None).iter().map(|row| row.is_target).collect();
    assert_eq!(targets, vec![false, false, false]);
    let full = vec![hop(1, vec![]), hop(2, vec![])];
    assert!(trace_rows(&full, None)[1].is_target);
    assert_eq!(reached_at(&full, None), None);
    assert_eq!(reached_at(&vec![], Some(IpAddr::V4(1))), None);
}

#[test]
fn continuous_mode_needs_hops() {
    assert!(ContinuousPing::start(&engine_with(&[])).is_none());
    assert_eq!(
        no_hops_message(),
        "No hops discovered. Run traceroute first (omit --continuous flag)."
    );
}

#[test]
fn continuous_mode_counts_iterations() {
    let mut pings = ContinuousPing::start(&engine_with(&[1, 2])).unwrap();
    assert_eq!(pings.iterations(), 0);
    assert_eq!(pings.lines_to_clear(), 4);
    assert_eq!(
        *pings.targets(),
        vec![
            PingTarget { hop_number: 1, ip: IpAddr::V4(1) },
            PingTarget { hop_number: 2, ip: IpAddr::V4(2) },
        ]
    );
    assert!(!pings.is_target(PingTarget { hop_number: 1, ip: IpAddr::V4(1) }));
    assert!(pings.is_target(PingTarget { hop_number: 2, ip: IpAddr::V4(2) }));
    assert_eq!(pings.begin_iteration(), 1);
    assert_eq!(pings.begin_iteration(), 2);
    assert_eq!(pings.iterations(), 2);
}

#[test]
fn continuous_mode_goes_past_silent_hops() {
    // Hops 2 and 3 did not answer, so hop 4 is the second of two
    let mut pings = ContinuousPing::start(&engine_with(&[1, 4])).unwrap();
    for hop in pings.targets().clone() {
        pings.record(hop.hop_number, Some(5));
    }
    pings.record(0, None);
    pings.record(255, None);
    assert_eq!(pings.targets().len(), 2);
    assert_eq!(pings.iterations(), 0);
}

#[test]
fn hops_are_pinged_over_their_protocol() {
    assert_eq!(ping_hop(IpAddr::V4(1)).0, PingProtocol::V4);
    assert_eq!(ping_hop(IpAddr::V6(1)).0, PingProtocol::V6);
    let mut seen: Vec<u16> = Vec::new();
    for _ in 0..64 {
        let ident = ping_hop(IpAddr::V4(1)).1;
        if !seen.contains(&ident) {
            seen.push(ident);
        }
    }
    assert!(seen.len() > 32);
}
