//! Watching the relay: the status shown to the frontend, the back-off
//! between failed checks, and when the ticket is refreshed or announced.

use vstd::prelude::*;

use crate::messages::RelayStatusKind;

verus! {

/// The project relay every node uses.
pub const RELAY_URL: &'static str = "https://iroh-relay.sanad.ink";

/// How long one check waits for the endpoint to come online, milliseconds.
pub const ONLINE_TIMEOUT_MS: u64 = 10000;

/// Pause between checks while the relay is fine, milliseconds.
pub const CHECK_INTERVAL_MS: u64 = 15000;

/// First pause after a failed check, milliseconds; it doubles with each
/// further failure.
pub const INITIAL_RETRY_BACKOFF_MS: u64 = 2000;

/// Longest pause between failed checks, milliseconds.
pub const MAX_RETRY_BACKOFF_MS: u64 = 60000;

/// A transport address of an endpoint.
#[derive(Debug, Clone, PartialEq, Eq)]
pub enum TransportAddr {
    Relay(String),
    Ip(String),
}

/// What a ticket would carry: the endpoint's id and its addresses.
#[derive(Debug, Clone, PartialEq, Eq)]
pub struct EndpointAddrInfo {
    pub id: String,
    pub addrs: Vec<TransportAddr>,
}

/// A ticket is only worth handing out once the endpoint has an address a
/// peer can dial (a relay or a direct one).
pub fn ticket_available(addr: &EndpointAddrInfo) -> (b: bool)
    ensures
        b == (addr.addrs@.len() > 0),
{
    addr.addrs.len() > 0
}

/// An address that a peer's ticket may carry when only `relay` is trusted:
/// a direct address, or that relay.
pub open spec fn relay_allowed(a: TransportAddr, relay: Seq<char>) -> bool {
    match a {
        TransportAddr::Relay(u) => u@ == relay,
        TransportAddr::Ip(_) => true,
    }
}

/// The first relay address of `addr` other than `relay`, if there is one: a
/// ticket naming a foreign relay is refused before it is cached or dialed.
pub fn foreign_relay(addr: &EndpointAddrInfo, relay: &str) -> (r: Option<String>)
    ensures
        r is None <==> forall|i: int|
            0 <= i < addr.addrs@.len() ==> relay_allowed(#[trigger] addr.addrs@[i], relay@),
        r matches Some(u) ==> exists|i: int|
            0 <= i < addr.addrs@.len() && (#[trigger] addr.addrs@[i] matches TransportAddr::Relay(v)
                && v@ == u@) && u@ != relay@ && forall|j: int|
                0 <= j < i ==> relay_allowed(#[trigger] addr.addrs@[j], relay@),
{
    let n = addr.addrs.len();
    let mut k: usize = 0;
    while k < n
        invariant
            n == addr.addrs@.len(),
            k <= n,
            forall|j: int| 0 <= j < k ==> relay_allowed(#[trigger] addr.addrs@[j], relay@),
        decreases n - k,
    {
        match &addr.addrs[k] {
            TransportAddr::Relay(u) => {
                let a = u.clone();
                let b = relay.to_owned();
                if !(a == b) {
                    assert(addr.addrs@[k as int] matches TransportAddr::Relay(v) && v@ == a@);
                    return Some(a);
                }
            },
            TransportAddr::Ip(_) => {},
        }
        k = k + 1;
    }
    None
}

/// The monitor's state between checks.
#[derive(Debug, Clone, Copy, PartialEq, Eq)]
pub struct RelayMonitor {
    pub consecutive_failures: u32,
    /// The pause after the next failed check, milliseconds.
    pub retry_backoff_ms: u64,
}

/// What one check leads to: the status to publish, whether a ticket is
/// available, and how long to wait before the next check.
#[derive(Debug, Clone, Copy, PartialEq, Eq)]
pub struct RelayCheckStep {
    pub status: RelayStatusKind,
    pub ticket_available: bool,
    pub sleep_ms: u64,
}

pub open spec fn next_backoff(b: u64) -> u64 {
    if 2 * b >= MAX_RETRY_BACKOFF_MS {
        MAX_RETRY_BACKOFF_MS
    } else {
        (2 * b) as u64
    }
}

impl RelayMonitor {
    pub open spec fn wf(&self) -> bool {
        INITIAL_RETRY_BACKOFF_MS <= self.retry_backoff_ms <= MAX_RETRY_BACKOFF_MS
    }

    pub fn new() -> (m: Self)
        ensures
            m.wf(),
            m.consecutive_failures == 0,
            m.retry_backoff_ms == INITIAL_RETRY_BACKOFF_MS,
    {
        RelayMonitor { consecutive_failures: 0, retry_backoff_ms: INITIAL_RETRY_BACKOFF_MS }
    }

    /// Takes the result of one relay check. Success resets the failure count
    /// and the back-off and reports the relay online. A failure is reported
    /// as degraded the first time and offline after that, and the monitor
    /// waits the current back-off, which then doubles up to
    /// [`MAX_RETRY_BACKOFF_MS`].
    pub fn on_check(&mut self, online: bool) -> (step: RelayCheckStep)
        requires
            old(self).wf(),
        ensures
            final(self).wf(),
            online ==> {
                &&& final(self).consecutive_failures == 0
                &&& final(self).retry_backoff_ms == INITIAL_RETRY_BACKOFF_MS
                &&& step == (RelayCheckStep {
                    status: RelayStatusKind::Online,
                    ticket_available: true,
                    sleep_ms: CHECK_INTERVAL_MS,
                })
            },
            !online ==> {
                &&& final(self).consecutive_failures == (if old(self).consecutive_failures
                    == u32::MAX {
                    u32::MAX
                } else {
                    (old(self).consecutive_failures + 1) as u32
                })
                &&& final(self).retry_backoff_ms == next_backoff(old(self).retry_backoff_ms)
                &&& step == (RelayCheckStep {
                    status: if final(self).consecutive_failures == 1 {
                        RelayStatusKind::Degraded
                    } else {
                        RelayStatusKind::Offline
                    },
                    ticket_available: false,
                    sleep_ms: old(self).retry_backoff_ms,
                })
            },
    {
        if online {
            self.consecutive_failures = 0;
            self.retry_backoff_ms = INITIAL_RETRY_BACKOFF_MS;
            return RelayCheckStep {
                status: RelayStatusKind::Online,
                ticket_available: true,
                sleep_ms: CHECK_INTERVAL_MS,
            };
        }
        if self.consecutive_failures < u32::MAX {
            self.consecutive_failures = self.consecutive_failures + 1;
        }
        let status = if self.consecutive_failures == 1 {
            RelayStatusKind::Degraded
        } else {
            RelayStatusKind::Offline
        };
        let current = self.retry_backoff_ms;
        self.retry_backoff_ms = if current >= MAX_RETRY_BACKOFF_MS / 2 {
            MAX_RETRY_BACKOFF_MS
        } else {
            current * 2
        };
        RelayCheckStep { status, ticket_available: false, sleep_ms: current }
    }
}

/// Whether a status is published: only when it differs from the current one.
pub fn should_publish_status(current: RelayStatusKind, status: RelayStatusKind) -> (b: bool)
    ensures
        b == (current != status),
{
    match (current, status) {
        (RelayStatusKind::Starting, RelayStatusKind::Starting) => false,
        (RelayStatusKind::Connecting, RelayStatusKind::Connecting) => false,
        (RelayStatusKind::Online, RelayStatusKind::Online) => false,
        (RelayStatusKind::Degraded, RelayStatusKind::Degraded) => false,
        (RelayStatusKind::Offline, RelayStatusKind::Offline) => false,
        _ => true,
    }
}

/// Whether a fresh ticket replaces the current one (and is announced):
/// only when it differs.
pub fn ticket_changed(current: Option<&str>, ticket: &str) -> (b: bool)
    ensures
        b == match current {
            Some(c) => c@ != ticket@,
            None => true,
        },
{
    match current {
        Some(c) => {
            let a = c.to_owned();
            let b = ticket.to_owned();
            !(a == b)
        },
        None => true,
    }
}

} // verus!
