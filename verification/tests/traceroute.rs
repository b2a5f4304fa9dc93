use std::time::{SystemTime, UNIX_EPOCH};

use rustyplot::ip::IpAddr;
use rustyplot::packet::{calculate_checksum, encode_echo_request};
use rustyplot::traceroute::{
    build_icmp_echo_request, is_from_target, parse_icmp_response, probe_address,
    probe_reply, IcmpResponseType, ProbeOutcome, ProbeReply, TracerouteError,
};

fn v4(a: u8, b: u8, c: u8, d: u8) -> IpAddr {
    IpAddr::V4(u32::from_be_bytes([a, b, c, d]))
}

fn message(kind: u8, header_words: u8, request: &[u8]) -> Vec<u8> {
    let mut bytes: Vec<u8> = vec![kind, 0, 0, 0, 0, 0, 0, 0];
    bytes.push(0x40 + header_words);
    for _ in 1..(header_words as usize) * 4 {
        bytes.push(0xEE);
    }
    bytes.extend_from_slice(request);
    bytes
}

#[test]
fn request_carries_the_current_time() {
    let before = SystemTime::now().duration_since(UNIX_EPOCH).unwrap().as_nanos();
    let packet = build_icmp_echo_request(0xBEEF, 7);
    let after = SystemTime::now().duration_since(UNIX_EPOCH).unwrap().as_nanos();
    assert_eq!(packet.len(), 40);
    assert_eq!(calculate_checksum(&packet), 0);
    assert_eq!(packet[4..8].to_vec(), vec![0xBE, 0xEF, 0, 7]);
    let mut stamp: [u8; 8] = [0; 8];
    stamp.copy_from_slice(&packet[8..16]);
    let nanos = u64::from_le_bytes(stamp) as u128;
    assert!(before <= nanos && nanos <= after);
    for i in 0..24 {
        assert_eq!(packet[16 + i], packet[8 + i]);
    }
}

#[test]
fn time_exceeded_names_its_probe() {
    let request = encode_echo_request(0x1234, 5, 99);
    let bytes = message(11, 5, &request);
    assert_eq!(
        parse_icmp_response(&bytes),
        Some((IcmpResponseType::TimeExceeded, 0x1234, 5))
    );
}

#[test]
fn header_options_are_skipped() {
    let request = encode_echo_request(0x4321, 6, 99);
    let bytes = message(11, 15, &request);
    assert_eq!(
        parse_icmp_response(&bytes),
        Some((IcmpResponseType::TimeExceeded, 0x4321, 6))
    );
}

#[test]
fn echo_reply_is_recognized() {
    let request = encode_echo_request(1, 2, 3);
    let bytes = message(0, 5, &request);
    assert_eq!(parse_icmp_response(&bytes), Some((IcmpResponseType::EchoReply, 1, 2)));
}

#[test]
fn irrelevant_and_short_packets_are_ignored() {
    assert_eq!(parse_icmp_response(&[]), None);
    assert_eq!(parse_icmp_response(&[11, 0, 0, 0, 0, 0, 0]), None);
    assert_eq!(parse_icmp_response(&[11, 0, 0, 0, 0, 0, 0, 0]), None);
    let request = encode_echo_request(1, 2, 3);
    assert_eq!(parse_icmp_response(&message(3, 5, &request)), None);
    let mut other_code = message(11, 5, &request);
    other_code[1] = 1;
    assert_eq!(parse_icmp_response(&other_code), None);
    assert_eq!(parse_icmp_response(&message(11, 5, &request[..3])), None);
}

#[test]
fn responses_cut_short_are_ignored() {
    let request = encode_echo_request(1, 2, 3);
    for len in 0..8 {
        assert_eq!(parse_icmp_response(&message(11, 5, &request[..len])), None);
        assert_eq!(parse_icmp_response(&message(0, 15, &request[..len])), None);
    }
    assert_eq!(
        parse_icmp_response(&message(11, 5, &request[..8])),
        Some((IcmpResponseType::TimeExceeded, 1, 2))
    );
    let outcome = ProbeOutcome::Packet {
        bytes: message(11, 5, &request[..6]),
        from: v4(10, 0, 0, 1),
        rtt_ns: 1,
    };
    assert_eq!(probe_reply(&outcome, 1, 2), None);
}

#[test]
fn eight_quoted_bytes_are_enough() {
    let request = encode_echo_request(0x1234, 5, 99);
    let mut quoted = request[..8].to_vec();
    for _ in 0..20 {
        let outcome = ProbeOutcome::Packet {
            bytes: message(11, 6, &quoted),
            from: v4(10, 0, 0, 1),
            rtt_ns: 3,
        };
        assert!(probe_reply(&outcome, 0x1234, 5).is_some());
        assert_eq!(probe_reply(&outcome, 0x1234, 6), None);
        quoted.push(0xAB);
    }
}

#[test]
fn probes_go_out_over_ipv4_only() {
    assert_eq!(probe_address(v4(8, 8, 8, 8)), Ok(0x0808_0808));
    assert_eq!(probe_address(IpAddr::V6(1)), Err(TracerouteError::Ipv6Unsupported));
    assert_eq!(TracerouteError::Ipv6Unsupported.message(), "IPv6 not yet supported");
}

#[test]
fn message_answers_its_own_probe_only() {
    let request = encode_echo_request(0x1234, 5, 99);
    let outcome = ProbeOutcome::Packet {
        bytes: message(11, 5, &request),
        from: v4(10, 0, 0, 1),
        rtt_ns: 1_500_000,
    };
    let reply = probe_reply(&outcome, 0x1234, 5);
    assert_eq!(
        reply,
        Some(ProbeReply {
            ip: v4(10, 0, 0, 1),
            response: IcmpResponseType::TimeExceeded,
            rtt_ns: 1_500_000,
        })
    );
    assert!(!is_from_target(&reply));
    assert_eq!(probe_reply(&outcome, 0x1235, 5), None);
    assert_eq!(probe_reply(&outcome, 0x1234, 6), None);
}

#[test]
fn silence_is_no_answer() {
    assert_eq!(probe_reply(&ProbeOutcome::TimedOut, 1, 1), None);
    assert_eq!(probe_reply(&ProbeOutcome::ReceiveError, 1, 1), None);
    let noise = ProbeOutcome::Packet { bytes: vec![3; 64], from: v4(1, 1, 1, 1), rtt_ns: 1 };
    assert_eq!(probe_reply(&noise, 1, 1), None);
    assert!(!is_from_target(&None));
}
