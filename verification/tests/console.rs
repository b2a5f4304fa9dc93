use rustyplot::console::{
    console_lines, count_responding, final_address, parse_args, ConsoleLine, Invocation,
};
use rustyplot::ip::IpAddr;
use rustyplot::network_engine::Hop;

fn args(words: &[&str]) -> Vec<String> {
    words.iter().map(|word| word.to_string()).collect()
}

fn hop(number: u8, rtts: Vec<u64>) -> Hop {
    let mut hop = Hop::new(number, IpAddr::V4(number as u32));
    hop.rtts = rtts;
    hop
}

#[test]
fn command_lines() {
    assert!(matches!(parse_args(&args(&[])), Invocation::NoArguments));
    assert!(matches!(parse_args(&args(&["rustyplot"])), Invocation::NoArguments));
    assert!(matches!(
        parse_args(&args(&["rustyplot", "--console"])),
        Invocation::MissingTarget
    ));
    assert!(matches!(parse_args(&args(&["rustyplot", "--help"])), Invocation::Help));
    assert!(matches!(parse_args(&args(&["rustyplot", "-h", "x"])), Invocation::Help));
    assert!(matches!(parse_args(&args(&["rustyplot", ""])), Invocation::EmptyTarget));
    assert!(matches!(
        parse_args(&args(&["rustyplot", "--console", ""])),
        Invocation::EmptyTarget
    ));
    assert!(matches!(
        parse_args(&args(&["rustyplot", "--console", "google.com"])),
        Invocation::Console(target) if target == "google.com"
    ));
    assert!(matches!(
        parse_args(&args(&["rustyplot", "8.8.8.8"])),
        Invocation::Gui(target) if target == "8.8.8.8"
    ));
}

#[test]
fn exit_codes_and_complaints() {
    assert_eq!(Invocation::NoArguments.exit_code(), Some(1));
    assert_eq!(Invocation::NoArguments.complaint(), None);
    assert_eq!(Invocation::MissingTarget.exit_code(), Some(1));
    assert_eq!(
        Invocation::MissingTarget.complaint(),
        Some("Error: --console mode requires a target")
    );
    assert_eq!(Invocation::Help.exit_code(), Some(0));
    assert_eq!(Invocation::EmptyTarget.exit_code(), Some(1));
    assert_eq!(Invocation::EmptyTarget.complaint(), Some("Error: target cannot be empty"));
    assert_eq!(Invocation::Gui("x".to_string()).exit_code(), None);
    assert_eq!(Invocation::Console("x".to_string()).complaint(), None);
}

#[test]
fn report_lines() {
    let hops = vec![hop(1, vec![10, 20, 30, 40]), hop(2, vec![]), hop(3, vec![50])];
    let lines = console_lines(&hops);
    assert_eq!(lines.len(), 3);
    assert_eq!(
        lines[0],
        ConsoleLine {
            hop_number: 1,
            ip: Some(IpAddr::V4(1)),
            first: Some(10),
            second: Some(20),
            third: Some(30),
        }
    );
    assert_eq!(lines[1].ip, None);
    assert_eq!(lines[1].first, None);
    assert_eq!(lines[2].first, Some(50));
    assert_eq!(lines[2].second, None);
    assert_eq!(count_responding(&hops), 2);
    assert_eq!(final_address(&hops), Some(IpAddr::V4(3)));
    assert_eq!(final_address(&vec![]), None);
    assert_eq!(count_responding(&vec![]), 0);
}

#[test]
fn report_layout() {
    let lines = console_lines(&vec![hop(2, vec![]), hop(13, vec![5, 6])]);
    assert_eq!(
        lines[0].text("-", "-", "-", "-"),
        format!("{:>3}  *                    {}        {}        {}", 2, "*", "*", "*")
    );
    assert_eq!(
        lines[1].text("10.0.0.1", "1.25 ms", "12.50 ms", "-"),
        format!("{:>3}  {:<20} {:>8}  {:>8}  {:>8}", 13, "10.0.0.1", "1.25 ms", "12.50 ms", "*")
    );
}
