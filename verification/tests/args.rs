use p2p_message::args::{parse_args, parse_port, AppArgs, DEFAULT_PORT};
use p2p_message::payload::Message;

fn line(words: &[&str]) -> Vec<String> {
    words.iter().map(|w| w.to_string()).collect()
}

#[test]
fn default_arguments() {
    let args = AppArgs::default();
    assert_eq!(args.port, 1234);
    assert_eq!(DEFAULT_PORT, 1234);
    assert_eq!(args.bootnode, None);
    assert_eq!(args.target_peer_id, None);
    assert_eq!(args.message, None);
    assert_eq!(args.pending_message(), None);
}

#[test]
fn no_argument_gives_the_defaults() {
    assert_eq!(parse_args(&line(&["p2p-message"])), Some(AppArgs::default()));
    assert_eq!(parse_args(&line(&[])), Some(AppArgs::default()));
}

#[test]
fn arguments_are_read_in_order() {
    let args = parse_args(&line(&["p2p-message", "4000"])).unwrap();
    assert_eq!(args, AppArgs { port: 4000, bootnode: None, target_peer_id: None, message: None });
    let args =
        parse_args(&line(&["p2p-message", "4000", "/ip4/127.0.0.1/tcp/1234"])).unwrap();
    assert_eq!(args.port, 4000);
    assert_eq!(args.bootnode, Some("/ip4/127.0.0.1/tcp/1234".to_string()));
    assert_eq!(args.pending_message(), None);
    let args = parse_args(&line(&["p2p-message", "1", "boot", "QmX", "hi", "more"])).unwrap();
    assert_eq!(
        args,
        AppArgs {
            port: 1,
            bootnode: Some("boot".to_string()),
            target_peer_id: Some("QmX".to_string()),
            message: Some("hi".to_string()),
        }
    );
    assert_eq!(
        args.pending_message(),
        Some(Message { recipient: "QmX".to_string(), message: "hi".to_string() })
    );
}

#[test]
fn empty_arguments_count_as_left_out() {
    let args = parse_args(&line(&["p2p-message", "80", "", "QmX", ""])).unwrap();
    assert_eq!(
        args,
        AppArgs { port: 80, bootnode: None, target_peer_id: Some("QmX".to_string()), message: None }
    );
    assert_eq!(args.pending_message(), None);
    let args = parse_args(&line(&["p2p-message", "80", "", "", "hi"])).unwrap();
    assert_eq!(args.message, Some("hi".to_string()));
    assert_eq!(args.pending_message(), None);
}

#[test]
fn a_port_that_is_no_number_is_refused() {
    assert_eq!(parse_args(&line(&["p2p-message", "port"])), None);
    assert_eq!(parse_args(&line(&["p2p-message", ""])), None);
    assert_eq!(parse_args(&line(&["p2p-message", "65536", "boot"])), None);
    assert_eq!(parse_args(&line(&["p2p-message", "-1"])), None);
}

#[test]
fn port_numbers() {
    assert_eq!(parse_port("0"), Some(0));
    assert_eq!(parse_port("1234"), Some(1234));
    assert_eq!(parse_port("65535"), Some(65535));
    assert_eq!(parse_port("65536"), None);
    assert_eq!(parse_port("+80"), Some(80));
    assert_eq!(parse_port("000080"), Some(80));
    assert_eq!(parse_port(""), None);
    assert_eq!(parse_port("+"), None);
    assert_eq!(parse_port("++1"), None);
    assert_eq!(parse_port("-0"), None);
    assert_eq!(parse_port(" 80"), None);
    assert_eq!(parse_port("80 "), None);
    assert_eq!(parse_port("8_0"), None);
    assert_eq!(parse_port("0x50"), None);
    assert_eq!(parse_port("\u{663}"), None);
    assert_eq!(parse_port("99999999999999999999999"), None);
}

#[test]
fn port_numbers_are_read_as_the_standard_library_reads_them() {
    let words = [
        "", "+", "-", "0", "+0", "-0", "7", "+7", "-7", "0007", "65535", "065535", "65536",
        "70000", "655350", "4294967296", "18446744073709551616", "1e3", "12a", "a12", "1 2",
        "١٢", "１２", "+-1", "1+", "00000000000000000000000000000001", "\n1", "1\n",
    ];
    for word in words {
        assert_eq!(parse_port(word), word.parse::<u16>().ok());
    }
    for n in 0..=65535u32 {
        assert_eq!(parse_port(&n.to_string()), Some(n as u16));
    }
    for n in 65536..66000u32 {
        assert_eq!(parse_port(&n.to_string()), None);
    }
}

#[test]
fn a_copy_of_the_arguments_equals_them() {
    let args = parse_args(&line(&["p2p-message", "1", "boot", "QmX", "hi"])).unwrap();
    assert_eq!(args.clone(), args);
    assert_eq!(AppArgs::default().clone(), AppArgs::default());
}
