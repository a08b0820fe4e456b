use dns_headers::relay::{
    init_fetch_dns_headers, HeaderRelay, RelayAction, RelayEvent, RelayState, BACKOFF_SECONDS,
};
use dns_headers::resolver::IpAnswer;

/// The answers that carry the genesis header, in the order of arrival.
fn genesis_answers() -> Vec<IpAnswer> {
    vec![
        IpAnswer::V6([0x20, 0x01, 0x5a, 0x29, 0xab, 0x5f, 0x49, 0xff, 0xff, 0x00, 0x1d, 0x1d, 0xac, 0x2b, 0x7c, 0x00]),
        IpAnswer::V6([0x20, 0x01, 0x41, 0xbc, 0x38, 0x88, 0xa5, 0x13, 0x23, 0xa9, 0xfb, 0x8a, 0xa4, 0xb1, 0xe5, 0xe4]),
        IpAnswer::V6([0x20, 0x01, 0x3a, 0x7b, 0x12, 0xb2, 0x7a, 0xc7, 0x2c, 0x3e, 0x67, 0x76, 0x8f, 0x61, 0x7f, 0xc8]),
        IpAnswer::V6([0x20, 0x01, 0x00, 0x10, 0, 0, 0, 0, 0, 0, 0, 0, 0, 0, 0, 0]),
        IpAnswer::V6([0x20, 0x01, 0x20, 0x00, 0, 0, 0, 0, 0, 0, 0x00, 0x03, 0xba, 0x3e, 0xdf, 0xd7]),
        IpAnswer::V6([0x20, 0x01, 0x10, 0x00, 0, 0, 0, 0, 0, 0, 0, 0, 0, 0, 0, 0]),
    ]
}

const GENESIS_HEADER: [u8; 80] = [
    0x1, 0x0, 0x0, 0x0, 0x0, 0x0, 0x0, 0x0, 0x0, 0x0, 0x0, 0x0, 0x0, 0x0, 0x0, 0x0, 0x0, 0x0, 0x0,
    0x0, 0x0, 0x0, 0x0, 0x0, 0x0, 0x0, 0x0, 0x0, 0x0, 0x0, 0x0, 0x0, 0x0, 0x0, 0x0, 0x0, 0x3b, 0xa3,
    0xed, 0xfd, 0x7a, 0x7b, 0x12, 0xb2, 0x7a, 0xc7, 0x2c, 0x3e, 0x67, 0x76, 0x8f, 0x61, 0x7f, 0xc8,
    0x1b, 0xc3, 0x88, 0x8a, 0x51, 0x32, 0x3a, 0x9f, 0xb8, 0xaa, 0x4b, 0x1e, 0x5e, 0x4a, 0x29, 0xab,
    0x5f, 0x49, 0xff, 0xff, 0x0, 0x1d, 0x1d, 0xac, 0x2b, 0x7c,
];

/// A relay for `example.com` that asks for the header at `height`.
fn relay_at(height: u32) -> HeaderRelay {
    let mut relay = HeaderRelay::new(String::from("example.com"));
    relay.step(RelayEvent::SyncReady { tip_height: height }).unwrap();
    relay
}

/// The action that asks for `hostname` after `delay_seconds`.
fn resolve(hostname: &str, delay_seconds: u64) -> Option<RelayAction> {
    Some(RelayAction::Resolve { hostname: String::from(hostname), delay_seconds })
}

/// Runs one round of the loop: a resolution that decodes, then the chain
/// engine's verdict. Returns the action that follows the verdict.
fn round(relay: &mut HeaderRelay, accepted: bool) -> RelayAction {
    let submit = relay.step(RelayEvent::Resolved { answers: genesis_answers() });
    assert_eq!(submit, Some(RelayAction::Submit { header: GENESIS_HEADER }));
    let verdict = if accepted { RelayEvent::HeaderAccepted } else { RelayEvent::HeaderRejected };
    relay.step(verdict).unwrap()
}

/// The seconds that an action waits.
fn delay(action: &RelayAction) -> u64 {
    match action {
        RelayAction::Resolve { delay_seconds, .. } => *delay_seconds,
        _ => 0,
    }
}

#[test]
fn a_new_relay_waits_for_the_sync() {
    let relay = HeaderRelay::new(String::from("example.com"));
    assert_eq!(relay.state(), RelayState::WaitingForSync);
    assert_eq!(relay.height(), None);
    assert_eq!(relay.domain(), "example.com");
}

#[test]
fn a_domain_of_valid_text_sets_up_a_relay() {
    let relay = init_fetch_dns_headers(b"example.com").unwrap();
    assert_eq!(relay.state(), RelayState::WaitingForSync);
    assert_eq!(relay.domain(), "example.com");

    let relay = init_fetch_dns_headers("b\u{fc}cher.example".as_bytes()).unwrap();
    assert_eq!(relay.domain(), "b\u{fc}cher.example");

    let relay = init_fetch_dns_headers(b"").unwrap();
    assert_eq!(relay.domain(), "");
}

#[test]
fn a_domain_that_is_not_text_sets_up_nothing() {
    assert!(init_fetch_dns_headers(&[0xff, 0xfe]).is_none());
    assert!(init_fetch_dns_headers(&[b'a', 0x80]).is_none());
    assert!(init_fetch_dns_headers(&[0xc3]).is_none());
    assert!(init_fetch_dns_headers(&[0xed, 0xa0, 0x80]).is_none());
    assert!(init_fetch_dns_headers(&[0xc0, 0xaf]).is_none());
}

#[test]
fn the_cursor_starts_at_the_tip() {
    let mut relay = HeaderRelay::new(String::from("example.com"));
    let action = relay.step(RelayEvent::SyncReady { tip_height: 600123 });
    assert_eq!(action, resolve("600123.60.example.com", 0));
    assert_eq!(relay.state(), RelayState::Fetching { height: 600123 });
    assert_eq!(relay.height(), Some(600123));
}

#[test]
fn a_failed_resolution_asks_again_after_the_backoff() {
    let mut relay = relay_at(7);
    assert_eq!(relay.step(RelayEvent::ResolutionFailed), resolve("7.0.example.com", 5));
    assert_eq!(relay.state(), RelayState::Fetching { height: 7 });
    assert_eq!(relay.step(RelayEvent::ResolutionFailed), resolve("7.0.example.com", 5));
    assert_eq!(relay.state(), RelayState::Fetching { height: 7 });
    assert_eq!(BACKOFF_SECONDS, 5);
}

#[test]
fn five_or_seven_addresses_count_as_a_failed_resolution() {
    let mut five = genesis_answers();
    five.pop();
    let mut seven = genesis_answers();
    seven.push(IpAnswer::V6([0x20, 0x01, 0x60, 0, 0, 0, 0, 0, 0, 0, 0, 0, 0, 0, 0, 1]));

    let mut failed = relay_at(20000);
    let expected = failed.step(RelayEvent::ResolutionFailed);
    assert_eq!(expected, resolve("20000.2.example.com", 5));

    for answers in [five, seven, Vec::new()] {
        let mut relay = relay_at(20000);
        assert_eq!(relay.step(RelayEvent::Resolved { answers }), expected);
        assert_eq!(relay.state(), failed.state());
        assert_eq!(relay.state(), RelayState::Fetching { height: 20000 });
    }
}

#[test]
fn ipv4_answers_do_not_count() {
    let mut short = genesis_answers();
    short.pop();
    short.push(IpAnswer::V4([192, 0, 2, 1]));
    let mut relay = relay_at(3);
    assert_eq!(relay.step(RelayEvent::Resolved { answers: short }), resolve("3.0.example.com", 5));

    let mut mixed = genesis_answers();
    mixed.insert(0, IpAnswer::V4([192, 0, 2, 1]));
    mixed.insert(4, IpAnswer::V4([192, 0, 2, 2]));
    let mut relay = relay_at(3);
    assert_eq!(
        relay.step(RelayEvent::Resolved { answers: mixed }),
        Some(RelayAction::Submit { header: GENESIS_HEADER })
    );
    assert_eq!(relay.state(), RelayState::Submitting { height: 3 });
}

#[test]
fn six_addresses_are_decoded_and_submitted() {
    let mut relay = relay_at(0);
    let action = relay.step(RelayEvent::Resolved { answers: genesis_answers() });
    assert_eq!(action, Some(RelayAction::Submit { header: GENESIS_HEADER }));
    assert_eq!(relay.state(), RelayState::Submitting { height: 0 });
    assert_eq!(relay.height(), Some(0));
}

#[test]
fn an_accepted_header_moves_the_cursor_up() {
    let mut relay = relay_at(9999);
    let action = round(&mut relay, true);
    assert_eq!(Some(action), resolve("10000.1.example.com", 0));
    assert_eq!(relay.state(), RelayState::Fetching { height: 10000 });
}

#[test]
fn a_rejected_header_moves_the_cursor_down() {
    let mut relay = relay_at(10000);
    let action = round(&mut relay, false);
    assert_eq!(Some(action), resolve("9999.0.example.com", 0));
    assert_eq!(relay.state(), RelayState::Fetching { height: 9999 });
}

#[test]
fn a_rejection_at_genesis_waits_and_stays() {
    let mut relay = relay_at(0);
    let action = round(&mut relay, false);
    assert_eq!(Some(action), resolve("0.0.example.com", 5));
    assert_eq!(relay.state(), RelayState::Fetching { height: 0 });
}

#[test]
fn a_chain_engine_that_always_rejects_drives_the_cursor_to_zero() {
    for start in [1u32, 2, 3, 10] {
        for rounds in [0u32, 1, 2, 3, 9, 10, 11, 15] {
            let mut relay = relay_at(start);
            let mut waited = 0;
            for _ in 0..rounds {
                let before = relay.height().unwrap();
                let action = round(&mut relay, false);
                if before > 0 {
                    assert_eq!(delay(&action), 0);
                }
                waited += delay(&action);
            }
            let expected = if rounds <= start { start - rounds } else { 0 };
            assert_eq!(relay.state(), RelayState::Fetching { height: expected });
            let at_zero = if rounds <= start { 0 } else { rounds - start };
            assert_eq!(waited, 5 * at_zero as u64);
        }
    }
}

#[test]
fn a_chain_engine_that_always_accepts_drives_the_cursor_up() {
    for start in [0u32, 1, 9998, 600000] {
        let mut relay = relay_at(start);
        for done in 1..=12u32 {
            let action = round(&mut relay, true);
            assert_eq!(delay(&action), 0);
            assert_eq!(relay.state(), RelayState::Fetching { height: start + done });
        }
    }
}

#[test]
fn shutdown_stops_the_relay_for_good() {
    let mut relay = relay_at(5);
    round(&mut relay, true);
    relay.step(RelayEvent::ResolutionFailed).unwrap();
    assert_eq!(relay.step(RelayEvent::ShutdownRequested), Some(RelayAction::Stop));
    assert_eq!(relay.state(), RelayState::Stopped);
    assert_eq!(relay.height(), None);

    assert_eq!(relay.step(RelayEvent::ShutdownRequested), None);
    assert_eq!(relay.step(RelayEvent::SyncReady { tip_height: 1 }), None);
    assert_eq!(relay.step(RelayEvent::ResolutionFailed), None);
    assert_eq!(relay.step(RelayEvent::Resolved { answers: genesis_answers() }), None);
    assert_eq!(relay.step(RelayEvent::HeaderAccepted), None);
    assert_eq!(relay.step(RelayEvent::HeaderRejected), None);
    assert_eq!(relay.state(), RelayState::Stopped);
}

#[test]
fn shutdown_is_seen_before_the_first_resolution() {
    let mut relay = relay_at(77);
    assert_eq!(relay.step(RelayEvent::ShutdownRequested), Some(RelayAction::Stop));
    assert_eq!(relay.state(), RelayState::Stopped);
}

#[test]
fn events_out_of_turn_are_not_taken() {
    let mut relay = HeaderRelay::new(String::from("example.com"));
    assert_eq!(relay.step(RelayEvent::ShutdownRequested), None);
    assert_eq!(relay.step(RelayEvent::ResolutionFailed), None);
    assert_eq!(relay.step(RelayEvent::Resolved { answers: genesis_answers() }), None);
    assert_eq!(relay.step(RelayEvent::HeaderAccepted), None);
    assert_eq!(relay.step(RelayEvent::HeaderRejected), None);
    assert_eq!(relay.state(), RelayState::WaitingForSync);

    let mut relay = relay_at(4);
    assert_eq!(relay.step(RelayEvent::SyncReady { tip_height: 9 }), None);
    assert_eq!(relay.step(RelayEvent::HeaderAccepted), None);
    assert_eq!(relay.step(RelayEvent::HeaderRejected), None);
    assert_eq!(relay.state(), RelayState::Fetching { height: 4 });

    relay.step(RelayEvent::Resolved { answers: genesis_answers() }).unwrap();
    assert_eq!(relay.step(RelayEvent::SyncReady { tip_height: 9 }), None);
    assert_eq!(relay.step(RelayEvent::ShutdownRequested), None);
    assert_eq!(relay.step(RelayEvent::ResolutionFailed), None);
    assert_eq!(relay.step(RelayEvent::Resolved { answers: genesis_answers() }), None);
    assert_eq!(relay.state(), RelayState::Submitting { height: 4 });
}

#[test]
fn the_cursor_does_not_pass_the_largest_height() {
    let mut relay = relay_at(u32::MAX - 1);
    let action = round(&mut relay, true);
    assert_eq!(Some(action), resolve("4294967295.429496.example.com", 0));

    relay.step(RelayEvent::Resolved { answers: genesis_answers() }).unwrap();
    assert_eq!(relay.step(RelayEvent::HeaderAccepted), None);
    assert_eq!(relay.state(), RelayState::Submitting { height: u32::MAX });
    assert_eq!(relay.step(RelayEvent::HeaderRejected), resolve("4294967294.429496.example.com", 0));
}

#[test]
fn the_relay_keeps_its_domain() {
    let mut relay = relay_at(12);
    round(&mut relay, false);
    round(&mut relay, true);
    relay.step(RelayEvent::ShutdownRequested).unwrap();
    assert_eq!(relay.domain(), "example.com");
}
