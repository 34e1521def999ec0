use subwash::probe::address_text;
use subwash::probe::lower_is_udp;
use subwash::probe::ping_protocol;
use subwash::probe::probes_udp;
use subwash::probe::ProbeEnd;
use subwash::probe::LOOKUP_PORT;

#[test]
fn addresses_are_host_and_port() {
    assert_eq!(address_text("a.example", 443), "a.example:443");
    assert_eq!(address_text("", 0), ":0");
    assert_eq!(address_text("x", LOOKUP_PORT), "x:80");
    assert_eq!(address_text("h", u16::MAX), "h:65535");
}

#[test]
fn two_protocols_run_over_udp() {
    assert!(probes_udp("hysteria2"));
    assert!(probes_udp("HYSTERIA2"));
    assert!(probes_udp("Tuic"));
    assert!(!probes_udp("hysteria"));
    assert!(!probes_udp("vmess"));
    assert!(!probes_udp(" tuic"));
    assert!(!probes_udp(""));
    assert!(lower_is_udp("tuic"));
    assert!(!lower_is_udp("TUIC"));
}

#[test]
fn answers_have_a_latency() {
    assert_eq!(ping_protocol(ProbeEnd::Answered, 12), Some(12));
    assert_eq!(ping_protocol(ProbeEnd::NotReceived, 7), Some(7));
    assert_eq!(ping_protocol(ProbeEnd::Answered, u64::MAX as u128), Some(u64::MAX));
    assert_eq!(ping_protocol(ProbeEnd::Answered, u64::MAX as u128 + 6), Some(5));
}

#[test]
fn anything_else_has_none() {
    for end in [ProbeEnd::Unresolved, ProbeEnd::TimedOut, ProbeEnd::NotReached, ProbeEnd::Refused] {
        assert_eq!(ping_protocol(end, 5), None);
    }
}
