//! Liveness and round-trip-time tracking for one endpoint connection.
//!
//! Times are nanoseconds on a monotonic clock; durations are nanoseconds.
use vstd::prelude::*;

verus! {

/// Ping after this long without inbound traffic.
pub const HEARTBEAT_INTERVAL: u64 = 5_000_000_000;
/// Give up after this long without the initial snapshot or a probe reply.
pub const HEARTBEAT_TIMEOUT: u64 = 10_000_000_000;
/// Probe cadence while round-trip time display is enabled. Independent of
/// traffic so the displayed value keeps refreshing on busy links.
pub const RTT_PROBE_INTERVAL: u64 = 3_000_000_000;

#[derive(Clone, Copy, Debug, PartialEq, Eq)]
pub enum HealthAction {
    /// Nothing to do yet.
    Idle,
    Ping,
    Expired,
}

pub struct EndpointHealth {
    pub connected_at: u64,
    pub last_received: u64,
    /// Liveness probe. Any inbound message satisfies it.
    pub ping_sent_at: Option<u64>,
    pub ready: bool,
    /// Sequence carried in the last ping payload; the pong echoes it back.
    pub next_probe_seq: u64,
    /// Outstanding round-trip probe: only a pong carrying this sequence completes it.
    pub rtt_probe: Option<(u64, u64)>,
    pub last_probe_at: Option<u64>,
    pub smoothed_rtt: Option<u64>,
}

/// `now - then`, or zero when `then` is later.
pub open spec fn since(now: u64, then: u64) -> u64 {
    if now >= then { (now - then) as u64 } else { 0 }
}

/// The action a connection calls for at `now`.
pub open spec fn action_spec(h: EndpointHealth, now: u64, rtt_probing: bool) -> HealthAction {
    let initial_snapshot_expired = !h.ready && since(now, h.connected_at) >= HEARTBEAT_TIMEOUT;
    let probe_expired = match h.ping_sent_at {
        Some(sent_at) => since(now, sent_at) >= HEARTBEAT_TIMEOUT,
        None => false,
    };
    if initial_snapshot_expired || probe_expired {
        HealthAction::Expired
    } else if h.ping_sent_at is Some {
        HealthAction::Idle
    } else {
        let quiet = since(now, h.last_received) >= HEARTBEAT_INTERVAL;
        let anchor = match h.last_probe_at {
            Some(t) => t,
            None => h.connected_at,
        };
        let rtt_due = rtt_probing && since(now, anchor) >= RTT_PROBE_INTERVAL;
        if quiet || rtt_due { HealthAction::Ping } else { HealthAction::Idle }
    }
}

/// TCP-style smoothing (RFC 6298): `srtt += (sample - srtt) / 8`, the
/// division truncating toward zero.
pub open spec fn smooth(previous: u64, sample: u64) -> u64 {
    if sample >= previous {
        (previous + (sample - previous) / 8) as u64
    } else {
        (previous - (previous - sample) / 8) as u64
    }
}

/// The state after a pong that echoed `echoed` (the parsed payload, if it
/// parsed) arrives at `now`, and the smoothed round-trip time it yields.
/// Only a pong carrying the outstanding probe's sequence completes it.
pub open spec fn complete_spec(h: EndpointHealth, echoed: Option<u64>, now: u64) -> (EndpointHealth, Option<u64>) {
    match (h.rtt_probe, echoed) {
        (Some((seq, sent_at)), Some(e)) => if e == seq {
            let sample = since(now, sent_at);
            let smoothed = match h.smoothed_rtt {
                Some(previous) => smooth(previous, sample),
                None => sample,
            };
            (EndpointHealth { rtt_probe: None, smoothed_rtt: Some(smoothed), ..h }, Some(smoothed))
        } else {
            (h, None)
        },
        _ => (h, None),
    }
}

/// What `u64::from_str` returns for a text: the value when the text is a
/// decimal `u64`, else an error (`None`).
pub open spec fn parse_u64_spec(s: Seq<char>) -> Option<u64> {
    match crate::text::parse_unsigned_spec(s, u64::MAX as nat) {
        Some(v) => Some(v as u64),
        None => None,
    }
}

/// Calls `str::parse::<u64>`, which reads an optional `+` and decimal
/// digits and fails on anything else or on a value over `u64::MAX`.
#[verifier::external_body]
fn parse_u64(s: &str) -> (r: Option<u64>)
    ensures
        r == parse_u64_spec(s@),
{
    s.parse::<u64>().ok()
}

impl EndpointHealth {
    pub fn new(now: u64) -> (r: Self)
        ensures
            r.connected_at == now,
            r.last_received == now,
            r.ping_sent_at is None,
            !r.ready,
            r.next_probe_seq == 0,
            r.rtt_probe is None,
            r.last_probe_at is None,
            r.smoothed_rtt is None,
    {
        EndpointHealth {
            connected_at: now,
            last_received: now,
            ping_sent_at: None,
            ready: false,
            next_probe_seq: 0,
            rtt_probe: None,
            last_probe_at: None,
            smoothed_rtt: None,
        }
    }

    /// Any inbound message: the link is alive and an outstanding liveness probe is answered.
    pub fn received(&mut self, now: u64)
        ensures
            *final(self) == (EndpointHealth { last_received: now, ping_sent_at: None, ..*old(self) }),
    {
        self.last_received = now;
        self.ping_sent_at = None;
    }

    /// The initial snapshot arrived.
    pub fn ready(&mut self)
        ensures
            *final(self) == (EndpointHealth { ready: true, ..*old(self) }),
    {
        self.ready = true;
    }

    pub fn action(&self, now: u64, rtt_probing: bool) -> (r: HealthAction)
        ensures
            r == action_spec(*self, now, rtt_probing),
    {
        let initial_snapshot_expired = !self.ready && now.saturating_sub(self.connected_at) >= HEARTBEAT_TIMEOUT;
        let probe_expired = match self.ping_sent_at {
            Some(sent_at) => now.saturating_sub(sent_at) >= HEARTBEAT_TIMEOUT,
            None => false,
        };
        if initial_snapshot_expired || probe_expired {
            return HealthAction::Expired;
        }
        if self.ping_sent_at.is_some() {
            return HealthAction::Idle;
        }
        let quiet = now.saturating_sub(self.last_received) >= HEARTBEAT_INTERVAL;
        let anchor = match self.last_probe_at {
            Some(t) => t,
            None => self.connected_at,
        };
        let rtt_due = rtt_probing && now.saturating_sub(anchor) >= RTT_PROBE_INTERVAL;
        if quiet || rtt_due {
            HealthAction::Ping
        } else {
            HealthAction::Idle
        }
    }

    /// Sequence the next ping will carry. Recorded by `ping_sent` once the ping is on the wire.
    pub fn next_probe_seq(&self) -> (r: u64)
        ensures
            r == self.next_probe_seq,
    {
        self.next_probe_seq
    }

    /// Records an outgoing ping and returns the sequence embedded in its payload.
    pub fn ping_sent(&mut self, now: u64) -> (seq: u64)
        ensures
            seq == old(self).next_probe_seq,
            *final(self) == (EndpointHealth {
                next_probe_seq: old(self).next_probe_seq.wrapping_add(1),
                ping_sent_at: Some(now),
                last_probe_at: Some(now),
                rtt_probe: Some((seq, now)),
                ..*old(self)
            }),
    {
        let seq = self.next_probe_seq;
        self.next_probe_seq = self.next_probe_seq.wrapping_add(1);
        self.ping_sent_at = Some(now);
        self.last_probe_at = Some(now);
        self.rtt_probe = Some((seq, now));
        seq
    }

    /// Completes the outstanding round-trip probe when the pong carried its
    /// sequence (`echoed`, the parsed payload) and returns the updated
    /// smoothed round-trip time. Stale, foreign or unparsable pongs are ignored.
    pub fn complete_probe(&mut self, echoed: Option<u64>, now: u64) -> (r: Option<u64>)
        ensures
            (*final(self), r) == complete_spec(*old(self), echoed, now),
    {
        let (seq, sent_at) = match self.rtt_probe {
            Some(p) => p,
            None => return None,
        };
        let e = match echoed {
            Some(e) => e,
            None => return None,
        };
        if e != seq {
            return None;
        }
        self.rtt_probe = None;
        let sample = now.saturating_sub(sent_at);
        let smoothed = match self.smoothed_rtt {
            Some(previous) => {
                if sample >= previous {
                    previous + (sample - previous) / 8
                } else {
                    previous - (previous - sample) / 8
                }
            },
            None => sample,
        };
        self.smoothed_rtt = Some(smoothed);
        Some(smoothed)
    }

    /// Completes the outstanding round-trip probe when `payload` carries its
    /// sequence and returns the updated smoothed round-trip time. Stale or
    /// foreign pongs are ignored.
    pub fn pong_received(&mut self, payload: &str, now: u64) -> (r: Option<u64>)
        ensures
            (*final(self), r) == complete_spec(*old(self), parse_u64_spec(payload@), now),
    {
        let echoed = parse_u64(payload);
        self.complete_probe(echoed, now)
    }

    pub fn smoothed_rtt(&self) -> (r: Option<u64>)
        ensures
            r == self.smoothed_rtt,
    {
        self.smoothed_rtt
    }
}

/// A completed probe is completed once: once a pong has completed the
/// outstanding probe, a second pong carrying the same sequence is ignored
/// and changes nothing.
pub proof fn lemma_probe_completes_once(h: EndpointHealth, echoed: Option<u64>, now: u64, later: u64)
    requires
        complete_spec(h, echoed, now).1 is Some,
    ensures
        complete_spec(complete_spec(h, echoed, now).0, echoed, later).1 is None,
        complete_spec(complete_spec(h, echoed, now).0, echoed, later).0 == complete_spec(h, echoed, now).0,
{
}

/// While a liveness ping is outstanding and neither it nor the wait for the
/// initial snapshot has timed out, the connection waits for the reply: no
/// second ping goes out, whatever the traffic or the probing mode.
pub proof fn lemma_outstanding_ping_waits(h: EndpointHealth, now: u64, rtt_probing: bool)
    requires
        h.ping_sent_at matches Some(t) && since(now, t) < HEARTBEAT_TIMEOUT,
        h.ready || since(now, h.connected_at) < HEARTBEAT_TIMEOUT,
    ensures
        action_spec(h, now, rtt_probing) == HealthAction::Idle,
{
}

/// A ping is only ever asked for when none is outstanding.
pub proof fn lemma_ping_only_when_none_outstanding(h: EndpointHealth, now: u64, rtt_probing: bool)
    ensures
        action_spec(h, now, rtt_probing) == HealthAction::Ping ==> h.ping_sent_at is None,
{
}

/// After a ping goes out at `sent`, every check before its timeout and
/// before the initial-snapshot timeout says to wait.
pub proof fn lemma_no_ping_after_ping(h: EndpointHealth, sent: u64, now: u64, rtt_probing: bool)
    requires
        sent <= now,
        now - sent < HEARTBEAT_TIMEOUT,
        h.ready || since(now, h.connected_at) < HEARTBEAT_TIMEOUT,
    ensures
        action_spec(EndpointHealth {
            next_probe_seq: h.next_probe_seq.wrapping_add(1),
            ping_sent_at: Some(sent),
            last_probe_at: Some(sent),
            rtt_probe: Some((h.next_probe_seq, sent)),
            ..h
        }, now, rtt_probing) == HealthAction::Idle,
{
}

/// With no ping outstanding and the initial snapshot in time, a link quiet
/// for a heartbeat interval is pinged.
pub proof fn lemma_quiet_link_is_pinged(h: EndpointHealth, now: u64, rtt_probing: bool)
    requires
        h.ping_sent_at is None,
        h.ready || since(now, h.connected_at) < HEARTBEAT_TIMEOUT,
        since(now, h.last_received) >= HEARTBEAT_INTERVAL,
    ensures
        action_spec(h, now, rtt_probing) == HealthAction::Ping,
{
}

} // verus!
