use rustyplot::packet::{
    calculate_checksum, encode_echo_request, read_be16, read_embedded_offset, stamp,
    ICMP_PACKET_SIZE, ICMP_PAYLOAD_SIZE,
};

#[test]
fn checksum_of_nothing_is_all_ones() {
    assert_eq!(calculate_checksum(&[]), 0xFFFF);
}

#[test]
fn checksum_of_a_known_packet() {
    // 0x0001 + 0xf203 + 0xf4f5 + 0xf6f7 folds to 0xddf2
    let packet: [u8; 8] = [0x00, 0x01, 0xf2, 0x03, 0xf4, 0xf5, 0xf6, 0xf7];
    assert_eq!(calculate_checksum(&packet), 0x220D);
}

#[test]
fn checksum_pads_an_odd_byte() {
    assert_eq!(calculate_checksum(&[0x12]), !0x1200u16);
    assert_eq!(calculate_checksum(&[0x00, 0x01, 0xFF]), !0xFF01u16);
}

#[test]
fn checksum_folds_many_carries() {
    let packet: Vec<u8> = vec![0xFF; 200_000];
    assert_eq!(calculate_checksum(&packet), 0);
    let mut longer: Vec<u8> = vec![0xFF; 200_000];
    longer.push(0x00);
    longer.push(0x01);
    assert_eq!(calculate_checksum(&longer), 0xFFFE);
}

#[test]
fn echo_request_layout() {
    let packet = encode_echo_request(0x1234, 0xABCD, 0x0807_0605_0403_0201);
    assert_eq!(packet.len(), ICMP_PACKET_SIZE);
    assert_eq!(packet[0], 8);
    assert_eq!(packet[1], 0);
    assert_eq!(packet[4..8].to_vec(), vec![0x12, 0x34, 0xAB, 0xCD]);
    for i in 0..ICMP_PAYLOAD_SIZE {
        assert_eq!(packet[8 + i], (i % 8 + 1) as u8);
    }
}

#[test]
fn echo_request_checksum_is_exact() {
    // With an empty payload: 0x0800 + 0x0001 + 0x0002 = 0x0803
    let packet = encode_echo_request(1, 2, 0);
    assert_eq!(packet[2..4].to_vec(), vec![0xF7, 0xFC]);
}

#[test]
fn echo_request_verifies() {
    for (ident, seq, timestamp) in [
        (0u16, 0u16, 0u64),
        (1, 2, 3),
        (0xFFFF, 0xFFFF, u64::MAX),
        (0x1234, 42, 1_700_000_000_123_456_789),
    ] {
        let packet = encode_echo_request(ident, seq, timestamp);
        assert_eq!(calculate_checksum(&packet), 0);
    }
}

#[test]
fn stamp_keeps_the_low_bits() {
    assert_eq!(stamp(None), 0);
    assert_eq!(stamp(Some(7)), 7);
    assert_eq!(stamp(Some((1u128 << 64) + 9)), 9);
}

#[test]
fn embedded_offset_follows_the_header_length() {
    let mut buffer: Vec<u8> = vec![0; 28];
    buffer[8] = 0x45;
    assert_eq!(read_embedded_offset(&buffer), 28);
    buffer[8] = 0x4F;
    assert_eq!(read_embedded_offset(&buffer), 68);
    assert_eq!(read_be16(&[1, 2, 3], 1), 0x0203);
}
