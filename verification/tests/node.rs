use sender::node::{node_address, opens_connection};

#[test]
fn addresses_are_parsed() {
    assert_eq!(node_address("ws://localhost:9944"), Some("ws://localhost:9944/".to_string()));
    assert_eq!(node_address("WSS://Example.COM:443/x/../y"), Some("wss://example.com/y".to_string()));
}

#[test]
fn what_is_no_address_is_refused() {
    assert_eq!(node_address(""), None);
    assert_eq!(node_address("localhost"), None);
    assert_eq!(node_address("ws://"), None);
}

#[test]
fn one_sender_in_three_thousand_opens_a_connection() {
    assert!(opens_connection(0));
    assert!(!opens_connection(1));
    assert!(!opens_connection(2_999));
    assert!(opens_connection(3_000));
    assert!(opens_connection(6_000));
    assert!(!opens_connection(6_001));
}
