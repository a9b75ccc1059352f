use herdr_folders::health::{
    EndpointHealth, HealthAction, HEARTBEAT_INTERVAL, HEARTBEAT_TIMEOUT, RTT_PROBE_INTERVAL,
};

/// An arbitrary point on the monotonic clock, in nanoseconds.
const START: u64 = 7_000_000_000_000;

fn ms(n: u64) -> u64 {
    n * 1_000_000
}

fn secs(n: u64) -> u64 {
    n * 1_000_000_000
}

#[test]
fn quiet_connection_is_probed_then_expires_without_a_reply() {
    let now = START;
    let mut health = EndpointHealth::new(now);
    assert_eq!(health.action(now, false), HealthAction::Idle);
    assert_eq!(health.action(now + HEARTBEAT_INTERVAL, false), HealthAction::Ping);
    health.ping_sent(now + HEARTBEAT_INTERVAL);
    assert_eq!(
        health.action(now + HEARTBEAT_INTERVAL + HEARTBEAT_TIMEOUT, false),
        HealthAction::Expired
    );
}

#[test]
fn any_incoming_message_satisfies_an_outstanding_probe() {
    let now = START;
    let mut health = EndpointHealth::new(now);
    health.ready();
    health.ping_sent(now);
    health.received(now + HEARTBEAT_TIMEOUT - ms(1));
    assert_eq!(health.action(now + HEARTBEAT_TIMEOUT, false), HealthAction::Idle);
}

#[test]
fn heartbeats_do_not_hide_a_missing_initial_snapshot() {
    let now = START;
    let mut health = EndpointHealth::new(now);
    health.ping_sent(now + HEARTBEAT_INTERVAL);
    health.received(now + HEARTBEAT_INTERVAL + secs(1));
    assert_eq!(health.action(now + HEARTBEAT_TIMEOUT, false), HealthAction::Expired);
}

#[test]
fn rtt_probing_pings_on_a_fixed_cadence_despite_traffic() {
    let now = START;
    let mut health = EndpointHealth::new(now);
    health.ready();
    // Traffic keeps arriving, so the quiet-link heartbeat never triggers.
    health.received(now + secs(1));
    health.received(now + secs(2));
    assert_eq!(health.action(now + secs(2), true), HealthAction::Idle);
    assert_eq!(
        health.action(now + RTT_PROBE_INTERVAL, false),
        HealthAction::Idle,
        "without rtt probing a busy link is not pinged"
    );
    assert_eq!(health.action(now + RTT_PROBE_INTERVAL, true), HealthAction::Ping);
    let sent = now + RTT_PROBE_INTERVAL;
    health.ping_sent(sent);
    health.received(sent + ms(40));
    assert_eq!(
        health.action(sent + RTT_PROBE_INTERVAL - ms(1), true),
        HealthAction::Idle
    );
    assert_eq!(health.action(sent + RTT_PROBE_INTERVAL, true), HealthAction::Ping);
}

#[test]
fn matching_pong_yields_rtt_and_is_smoothed() {
    let now = START;
    let mut health = EndpointHealth::new(now);
    let seq = health.ping_sent(now);
    assert_eq!(health.pong_received(&seq.to_string(), now + ms(40)), Some(ms(40)));
    let seq = health.ping_sent(now + secs(3));
    let smoothed = health
        .pong_received(&seq.to_string(), now + secs(3) + ms(120))
        .expect("rtt");
    // 40 + (120 - 40) / 8 = 50
    assert_eq!(smoothed, ms(50));
    assert_eq!(health.smoothed_rtt(), Some(smoothed));
}

#[test]
fn stale_or_foreign_pongs_do_not_update_rtt() {
    let now = START;
    let mut health = EndpointHealth::new(now);
    let first = health.ping_sent(now);
    // A snapshot arriving in between clears liveness but not the rtt probe.
    health.received(now + ms(10));
    let second = health.ping_sent(now + secs(3));
    assert_ne!(first, second);
    assert_eq!(
        health.pong_received(&first.to_string(), now + secs(4)),
        None,
        "late pong for a superseded probe is ignored"
    );
    assert_eq!(health.pong_received("", now + secs(4)), None);
    assert_eq!(health.pong_received("garbage", now + secs(4)), None);
    assert_eq!(
        health.pong_received(&second.to_string(), now + secs(3) + ms(25)),
        Some(ms(25))
    );
    assert_eq!(
        health.pong_received(&second.to_string(), now + secs(5)),
        None,
        "a probe completes once"
    );
}

#[test]
fn smoothing_toward_a_smaller_sample_truncates_toward_zero() {
    let now = START;
    let mut health = EndpointHealth::new(now);
    let seq = health.ping_sent(now);
    assert_eq!(health.pong_received(&seq.to_string(), now + 100), Some(100));
    let seq = health.ping_sent(now + 1_000);
    // 100 + (91 - 100) / 8 = 100 - 1 = 99 (the quotient truncates toward zero)
    assert_eq!(health.pong_received(&seq.to_string(), now + 1_000 + 91), Some(99));
}

#[test]
fn a_pong_before_any_ping_is_ignored() {
    let now = START;
    let mut health = EndpointHealth::new(now);
    assert_eq!(health.next_probe_seq(), 0);
    assert_eq!(health.pong_received("0", now + 5), None);
    assert_eq!(health.smoothed_rtt(), None);
}
