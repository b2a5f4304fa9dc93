use rustyplot::ip::IpAddr;
use rustyplot::trace::{HopData, ProbeRequest, Trace, ATTEMPTS_PER_HOP, MAX_HOPS};
use rustyplot::traceroute::{IcmpResponseType, ProbeReply};

fn answer(ip: u32, response: IcmpResponseType, rtt_ns: u64) -> Option<ProbeReply> {
    Some(ProbeReply { ip: IpAddr::V4(ip), response, rtt_ns })
}

fn run(ident: u16, replies: &[Option<ProbeReply>]) -> (Vec<HopData>, bool, Vec<ProbeRequest>) {
    let mut trace = Trace::with_ident(ident);
    let mut requests = Vec::new();
    let mut i = 0;
    while let Some(request) = trace.next_probe() {
        requests.push(request);
        let reply = if i < replies.len() { replies[i] } else { None };
        trace.record(reply);
        i += 1;
    }
    let (hops, reached) = trace.finish();
    (hops, reached, requests)
}

#[test]
fn silent_path_is_walked_to_the_end() {
    let (hops, reached, requests) = run(9, &[]);
    assert!(!reached);
    assert_eq!(hops.len(), MAX_HOPS as usize);
    assert_eq!(requests.len(), 90);
    for (i, hop) in hops.iter().enumerate() {
        assert_eq!(hop.hop_number as usize, i + 1);
        assert_eq!(hop.ip, IpAddr::V4(0));
        assert!(hop.rtts.is_empty());
        assert_eq!(hop.packets_sent, ATTEMPTS_PER_HOP);
        assert_eq!(hop.packets_received, 0);
    }
}

#[test]
fn probes_have_rising_ttl_and_their_own_numbers() {
    let (_, _, requests) = run(0xABCD, &[]);
    for (i, request) in requests.iter().enumerate() {
        assert_eq!(request.ident, 0xABCD);
        assert_eq!(request.seq as usize, i);
        assert_eq!(request.ttl as usize, i / 3 + 1);
    }
}

#[test]
fn walk_ends_where_the_target_answers() {
    let far = IcmpResponseType::TimeExceeded;
    let target = IcmpResponseType::EchoReply;
    let replies = [
        answer(1, far, 10),
        None,
        answer(2, far, 30),
        None,
        None,
        None,
        None,
        answer(7, target, 50),
        answer(7, target, 60),
    ];
    let (hops, reached, requests) = run(1, &replies);
    assert!(reached);
    assert_eq!(requests.len(), 9);
    assert_eq!(hops.len(), 3);

    assert_eq!(hops[0].ip, IpAddr::V4(1));
    assert_eq!(hops[0].rtts, vec![10, 30]);
    assert_eq!(hops[0].packets_sent, 3);
    assert_eq!(hops[0].packets_received, 2);

    assert_eq!(hops[1].ip, IpAddr::V4(0));
    assert_eq!(hops[1].packets_received, 0);

    assert_eq!(hops[2].hop_number, 3);
    assert_eq!(hops[2].ip, IpAddr::V4(7));
    assert_eq!(hops[2].rtts, vec![50, 60]);
}

#[test]
fn target_on_the_last_hop_counts_as_reached() {
    let mut replies: Vec<Option<ProbeReply>> = vec![None; 87];
    replies.push(answer(5, IcmpResponseType::EchoReply, 1));
    let (hops, reached, _) = run(1, &replies);
    assert!(reached);
    assert_eq!(hops.len(), 30);
    assert_eq!(hops[29].packets_received, 1);
}

#[test]
fn identifiers_are_random() {
    let mut seen: Vec<u16> = Vec::new();
    for _ in 0..64 {
        let ident = Trace::start().next_probe().unwrap().ident;
        if !seen.contains(&ident) {
            seen.push(ident);
        }
    }
    assert!(seen.len() > 32);
}
