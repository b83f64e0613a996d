use nafaq::messages::RelayStatusKind;
use nafaq::relay::{
    foreign_relay, should_publish_status, ticket_available, ticket_changed, EndpointAddrInfo, RelayMonitor,
    TransportAddr, CHECK_INTERVAL_MS, MAX_RETRY_BACKOFF_MS, RELAY_URL,
};

fn public_key() -> String {
    "5f2a0b2d7c2fe0b46e8c7a2f0d5e1c9b4a3f2e1d0c9b8a7f6e5d4c3b2a1f0e9d".to_string()
}

#[test]
fn ticket_unavailable_without_transport_addresses() {
    let addr = EndpointAddrInfo {
        id: public_key(),
        addrs: vec![],
    };
    assert!(!ticket_available(&addr));
}

#[test]
fn ticket_available_with_relay_address() {
    let addr = EndpointAddrInfo {
        id: public_key(),
        addrs: vec![TransportAddr::Relay(RELAY_URL.to_string())],
    };
    assert!(ticket_available(&addr));
}

#[test]
fn ticket_available_with_ip_address() {
    let addr = EndpointAddrInfo {
        id: public_key(),
        addrs: vec![TransportAddr::Ip("127.0.0.1:12345".to_string())],
    };
    assert!(ticket_available(&addr));
}

#[test]
fn failures_degrade_then_go_offline_with_doubling_backoff() {
    let mut monitor = RelayMonitor::new();
    let step = monitor.on_check(false);
    assert_eq!(step.status, RelayStatusKind::Degraded);
    assert!(!step.ticket_available);
    assert_eq!(step.sleep_ms, 2_000);
    let sleeps: Vec<u64> = (0..6)
        .map(|_| {
            let s = monitor.on_check(false);
            assert_eq!(s.status, RelayStatusKind::Offline);
            s.sleep_ms
        })
        .collect();
    assert_eq!(sleeps, vec![4_000, 8_000, 16_000, 32_000, 60_000, 60_000]);
    assert_eq!(monitor.retry_backoff_ms, MAX_RETRY_BACKOFF_MS);
    let ok = monitor.on_check(true);
    assert_eq!(ok.status, RelayStatusKind::Online);
    assert!(ok.ticket_available);
    assert_eq!(ok.sleep_ms, CHECK_INTERVAL_MS);
    assert_eq!(monitor.consecutive_failures, 0);
    // After recovering, the next failure is "degraded" again with the short pause.
    let again = monitor.on_check(false);
    assert_eq!((again.status, again.sleep_ms), (RelayStatusKind::Degraded, 2_000));
}

#[test]
fn status_and_ticket_are_only_published_on_change() {
    assert!(!should_publish_status(RelayStatusKind::Online, RelayStatusKind::Online));
    assert!(should_publish_status(RelayStatusKind::Connecting, RelayStatusKind::Online));
    assert!(ticket_changed(None, "t1"));
    assert!(!ticket_changed(Some("t1"), "t1"));
    assert!(ticket_changed(Some("t1"), "t2"));
}

#[test]
fn tickets_may_only_name_the_project_relay() {
    let own = EndpointAddrInfo {
        id: "a".to_string(),
        addrs: vec![
            TransportAddr::Ip("1.2.3.4:5".to_string()),
            TransportAddr::Relay(RELAY_URL.to_string()),
        ],
    };
    assert_eq!(foreign_relay(&own, RELAY_URL), None);
    let direct_only = EndpointAddrInfo { id: "a".to_string(), addrs: vec![] };
    assert_eq!(foreign_relay(&direct_only, RELAY_URL), None);
    let foreign = EndpointAddrInfo {
        id: "b".to_string(),
        addrs: vec![
            TransportAddr::Relay(RELAY_URL.to_string()),
            TransportAddr::Relay("https://evil.example".to_string()),
            TransportAddr::Relay("https://other.example".to_string()),
        ],
    };
    assert_eq!(foreign_relay(&foreign, RELAY_URL), Some("https://evil.example".to_string()));
}
