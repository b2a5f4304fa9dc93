use rustyplot::ip::{ping_protocol, IpAddr, PingProtocol};
use rustyplot::ratio::Ratio;
use rustyplot::rolling::push_rolling;
use rustyplot::stats::{greatest, least, total, total_jumps};
use rustyplot::text::{pad_left, pad_right, write_decimal};

#[test]
fn quotients_compare_exactly() {
    let third = Ratio { num: 1, den: 3 };
    let half = Ratio { num: 1, den: 2 };
    assert!(third.is_less(&half));
    assert!(!half.is_less(&third));
    assert!(!half.is_less(&Ratio { num: 2, den: 4 }));
    let huge = Ratio { num: u128::MAX, den: u64::MAX };
    let larger = Ratio { num: u128::MAX, den: u64::MAX - 1 };
    assert!(huge.is_less(&larger));
    assert!(!larger.is_less(&huge));
}

#[test]
fn quotient_exceeds_an_integer() {
    assert!(!Ratio { num: 100, den: 2 }.exceeds(50));
    assert!(Ratio { num: 101, den: 2 }.exceeds(50));
    assert!(!Ratio { num: 99, den: 2 }.exceeds(50));
}

#[test]
fn buffer_keeps_the_latest_items() {
    let mut buffer: Vec<u32> = Vec::new();
    for i in 0..7 {
        push_rolling(&mut buffer, 3, i);
        assert!(buffer.len() <= 3);
    }
    assert_eq!(buffer, vec![4, 5, 6]);
}

#[test]
fn sums_extremes_and_jumps() {
    let values = vec![30, 10, 15, 15];
    assert_eq!(total(&values), 70);
    assert_eq!(least(&values), Some(10));
    assert_eq!(greatest(&values), Some(30));
    assert_eq!(total_jumps(&values), 25);
    let none: Vec<u64> = vec![];
    assert_eq!(total(&none), 0);
    assert_eq!(least(&none), None);
    assert_eq!(greatest(&none), None);
    assert_eq!(total_jumps(&none), 0);
    assert_eq!(total_jumps(&vec![9]), 0);
    assert_eq!(total(&vec![u64::MAX, u64::MAX]), 2 * (u64::MAX as u128));
}

#[test]
fn average_lies_between_the_extremes() {
    let values = vec![7, 3, 9, 4];
    let sum = total(&values);
    assert!(3 * 4 <= sum && sum <= 9 * 4);
}

#[test]
fn decimals_and_padding() {
    assert_eq!(write_decimal(0), "0");
    assert_eq!(write_decimal(1234567890), "1234567890");
    assert_eq!(write_decimal(u128::MAX), u128::MAX.to_string());
    assert_eq!(pad_left("7", 3, " "), "  7");
    assert_eq!(pad_left("7", 2, "0"), "07");
    assert_eq!(pad_left("1234", 3, " "), "1234");
    assert_eq!(pad_right("ab", 4), "ab  ");
    assert_eq!(pad_right("abcde", 4), "abcde");
    assert_eq!(pad_right("\u{2713}", 3), "\u{2713}  ");
}

#[test]
fn protocol_follows_the_address() {
    assert_eq!(ping_protocol(IpAddr::V4(1)), PingProtocol::V4);
    assert_eq!(ping_protocol(IpAddr::V6(1)), PingProtocol::V6);
    assert_eq!(IpAddr::unspecified_v4(), IpAddr::V4(0));
    assert!(!IpAddr::V4(1).is_ipv6());
}
