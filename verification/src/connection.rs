//! Decisions of the call connection layer: what a close reason means, which
//! of two crossed connections survives, which tickets are cached, relayed and
//! redialed, and how the liveness ladder moves a silent peer along.
//!
//! The transport work (dialing, streams, timers) happens around these
//! functions; each one decides from plain values.

use vstd::prelude::*;
use vstd::string::StringSliceAdditionalSpecFns;

use crate::bytes::{lemma_lex_trichotomy, lex_less, lex_less_bytes};
use crate::keyed::{
    contains_string, find_key, has_key, key_map, keys_distinct, lemma_filter_push, lemma_key_map_at,
    lemma_key_map_len, lemma_key_map_push, lemma_key_map_remove, lemma_key_map_update,
    string_views,
};
use crate::messages::{
    layer_code, PeerConnectionKind, VideoLayerRequest, STREAM_CHAT, STREAM_CONTROL, STREAM_DM,
};
use crate::text::{push_str, string_of};
use crate::video_transport::MAX_VIDEO_FRAME_BYTES;

verus! {

// Close reasons on call connections. The peer sees them when the connection
// closes and decides from them whether we are gone for good.
/// The user hung up.
pub const CLOSE_CALL_ENDED: &'static str = "call ended";

/// The liveness ladder gave up on the peer.
pub const CLOSE_PEER_TIMEOUT: &'static str = "peer timeout";

/// No call session is active on our side.
pub const CLOSE_CALL_NOT_ACTIVE: &'static str = "call_not_active";

/// A redial finished after the peer stopped being wanted.
pub const CLOSE_RECONNECT_NO_LONGER_WANTED: &'static str = "reconnect_no_longer_wanted";

/// Crossed dial: the other connection to this peer wins.
pub const CLOSE_DUPLICATE_CALL_CONNECTION: &'static str = "duplicate_call_connection";

/// A newer connection to the same peer took this one's place.
pub const CLOSE_REPLACED_CALL_CONNECTION: &'static str = "replaced_call_connection";

/// Evicted: already closed on our side when a new candidate arrived.
pub const CLOSE_STALE_CALL_CONNECTION: &'static str = "stale_call_connection";

/// Evicted: presence saw the peer rejoin after this connection was made.
pub const CLOSE_PEER_REJOINED_GOSSIP: &'static str = "peer_rejoined_gossip";

/// Evicted: the initiator re-dialed in the same direction.
pub const CLOSE_SUPERSEDED_BY_REDIAL: &'static str = "superseded_by_redial";

/// A control write timed out and the stream was reset; both sides redial.
pub const CLOSE_CONTROL_STREAM_STALLED: &'static str = "control_stream_stalled";

/// A chat write timed out and the stream was reset; both sides redial.
pub const CLOSE_CHAT_STREAM_STALLED: &'static str = "chat_stream_stalled";

/// Call dial timeout, milliseconds.
pub const CALL_DIAL_TIMEOUT_MS: u64 = 20000;

/// Mesh auto-dial timeout, milliseconds.
pub const MESH_DIAL_TIMEOUT_MS: u64 = 15000;

/// Stream open timeout, milliseconds.
pub const STREAM_OPEN_TIMEOUT_MS: u64 = 8000;

/// Control frame write timeout, milliseconds.
pub const CONTROL_WRITE_TIMEOUT_MS: u64 = 5000;

/// Chat frame write timeout, milliseconds.
pub const CHAT_WRITE_TIMEOUT_MS: u64 = 5000;

/// A connected peer silent for longer than this is suspect.
pub const SUSPECT_AFTER_MS: u64 = 10000;

/// A suspect peer silent for longer than this is redialed.
pub const RECONNECT_AFTER_MS: u64 = 35000;

/// A peer silent for longer than this is given up on.
pub const DISCONNECT_AFTER_MS: u64 = 120000;

/// A cached ticket whose last dial failed is not retried sooner than this.
pub const RECONNECT_RETRY_AFTER_MS: u64 = 15000;

/// Pause before the one extra attempt of an initial call or DM dial.
pub const INITIAL_DIAL_RETRY_BACKOFF_MS: u64 = 500;

/// Interval between keyframe requests a receiver sends for one connection.
pub const RECEIVER_KEYFRAME_REQUEST_INTERVAL_MS: u64 = 300;

/// Cap on cached peer tickets; the stalest is evicted beyond it.
pub const MAX_PEER_TICKETS: usize = 256;

/// Whether `reason` holds exactly the UTF-8 bytes of `text`.
pub fn bytes_are(reason: &[u8], text: &str) -> (b: bool)
    ensures
        b == (reason@ == text.spec_bytes()),
{
    let t = text.as_bytes();
    if reason.len() != t.len() {
        return false;
    }
    let mut i: usize = 0;
    while i < t.len()
        invariant
            i <= t@.len(),
            reason@.len() == t@.len(),
            t@ == text.spec_bytes(),
            forall|j: int| 0 <= j < i ==> reason@[j] == t@[j],
        decreases t@.len() - i,
    {
        if reason[i] != t[i] {
            assert(reason@[i as int] != t@[i as int]);
            return false;
        }
        i = i + 1;
    }
    assert(reason@ =~= t@);
    true
}

/// What a call connection's close means for the peer entry and its ticket.
#[derive(Debug, Clone, Copy, PartialEq, Eq, Structural)]
pub enum CallCloseDisposition {
    /// The path broke but both sides still want the call: redial now.
    Reconnect,
    /// The connection went away but nobody hung up: drop the entry, keep the
    /// ticket for a later redial.
    KeepTicket,
    /// A deliberate hang-up: drop the entry and forget the ticket.
    ForgetTicket,
}

/// What a close reason sent by the peer means. Only real hang-ups (and the
/// empty reason of an endpoint that shut down) forget the ticket; a stalled
/// stream asks for a redial; replacement, arbitration and unknown reasons
/// keep the ticket.
pub open spec fn reason_disposition(reason: Seq<u8>) -> CallCloseDisposition {
    if reason == CLOSE_CALL_ENDED.spec_bytes() || reason == CLOSE_PEER_TIMEOUT.spec_bytes()
        || reason == CLOSE_CALL_NOT_ACTIVE.spec_bytes() || reason
        == CLOSE_RECONNECT_NO_LONGER_WANTED.spec_bytes() || reason.len() == 0 {
        CallCloseDisposition::ForgetTicket
    } else if reason == CLOSE_CONTROL_STREAM_STALLED.spec_bytes() || reason
        == CLOSE_CHAT_STREAM_STALLED.spec_bytes() {
        CallCloseDisposition::Reconnect
    } else {
        CallCloseDisposition::KeepTicket
    }
}

/// Classifies a close reason received from the peer.
pub fn classify_call_close_reason(reason: &[u8]) -> (d: CallCloseDisposition)
    ensures
        d == reason_disposition(reason@),
{
    if bytes_are(reason, CLOSE_CALL_ENDED) || bytes_are(reason, CLOSE_PEER_TIMEOUT) || bytes_are(
        reason,
        CLOSE_CALL_NOT_ACTIVE,
    ) || bytes_are(reason, CLOSE_RECONNECT_NO_LONGER_WANTED) || reason.len() == 0 {
        CallCloseDisposition::ForgetTicket
    } else if bytes_are(reason, CLOSE_CONTROL_STREAM_STALLED) || bytes_are(
        reason,
        CLOSE_CHAT_STREAM_STALLED,
    ) {
        CallCloseDisposition::Reconnect
    } else {
        CallCloseDisposition::KeepTicket
    }
}

/// Why a call connection ended, as far as the close decision needs it.
#[derive(Debug, Clone, PartialEq, Eq)]
pub enum CallCloseCause {
    /// The connection idled out: the network went away, not the peer.
    TimedOut,
    /// We closed it ourselves.
    LocallyClosed,
    /// The peer closed it with this reason.
    ApplicationClosed { reason: Vec<u8> },
    /// Anything else (reset, transport error, version mismatch, ...).
    Other,
}

pub open spec fn close_disposition(cause: CallCloseCause) -> CallCloseDisposition {
    match cause {
        CallCloseCause::TimedOut => CallCloseDisposition::Reconnect,
        CallCloseCause::LocallyClosed => CallCloseDisposition::Reconnect,
        CallCloseCause::ApplicationClosed { reason } => reason_disposition(reason@),
        CallCloseCause::Other => CallCloseDisposition::KeepTicket,
    }
}

/// The single place deciding what each way of closing means.
pub fn classify_call_close(cause: &CallCloseCause) -> (d: CallCloseDisposition)
    ensures
        d == close_disposition(*cause),
{
    match cause {
        CallCloseCause::TimedOut => CallCloseDisposition::Reconnect,
        CallCloseCause::LocallyClosed => CallCloseDisposition::Reconnect,
        CallCloseCause::ApplicationClosed { reason } => classify_call_close_reason(
            reason.as_slice(),
        ),
        CallCloseCause::Other => CallCloseDisposition::KeepTicket,
    }
}

/// The peer-facing bidi streams of a call connection that frames are
/// written to.
#[derive(Debug, Clone, Copy, PartialEq, Eq, Structural)]
pub enum CallStream {
    Chat,
    Control,
}

impl CallStream {
    pub fn name(self) -> (s: &'static str)
        ensures
            s@ == (match self {
                CallStream::Chat => "chat"@,
                CallStream::Control => "control"@,
            }),
    {
        match self {
            CallStream::Chat => "chat",
            CallStream::Control => "control",
        }
    }

    /// Write timeout of the stream, milliseconds.
    pub fn write_timeout(self) -> (ms: u64)
        ensures
            ms == (match self {
                CallStream::Chat => CHAT_WRITE_TIMEOUT_MS,
                CallStream::Control => CONTROL_WRITE_TIMEOUT_MS,
            }),
    {
        match self {
            CallStream::Chat => CHAT_WRITE_TIMEOUT_MS,
            CallStream::Control => CONTROL_WRITE_TIMEOUT_MS,
        }
    }

    /// The reason a connection is closed with when a write on this stream
    /// stalled.
    pub fn stall_close_reason(self) -> (s: &'static str)
        ensures
            s@ == (match self {
                CallStream::Chat => CLOSE_CHAT_STREAM_STALLED@,
                CallStream::Control => CLOSE_CONTROL_STREAM_STALLED@,
            }),
    {
        match self {
            CallStream::Chat => CLOSE_CHAT_STREAM_STALLED,
            CallStream::Control => CLOSE_CONTROL_STREAM_STALLED,
        }
    }
}

/// Which side dialed a connection.
#[derive(Debug, Clone, Copy, PartialEq, Eq, Structural)]
pub enum ConnectionDirection {
    Inbound,
    Outbound,
}

pub open spec fn flip(d: ConnectionDirection) -> ConnectionDirection {
    match d {
        ConnectionDirection::Inbound => ConnectionDirection::Outbound,
        ConnectionDirection::Outbound => ConnectionDirection::Inbound,
    }
}

/// Of two crossed connections, the one dialed by the node with the higher id
/// survives: seen from `local`, that is our outbound one when our id sorts
/// after the remote's (byte order), else the inbound one.
pub open spec fn preferred_direction(local: Seq<u8>, remote: Seq<u8>) -> ConnectionDirection {
    if lex_less(remote, local) {
        ConnectionDirection::Outbound
    } else {
        ConnectionDirection::Inbound
    }
}

pub fn preferred_connection_direction(local_node_id: &str, remote_peer_id: &str) -> (d:
    ConnectionDirection)
    ensures
        d == preferred_direction(local_node_id.spec_bytes(), remote_peer_id.spec_bytes()),
{
    if lex_less_bytes(remote_peer_id.as_bytes(), local_node_id.as_bytes()) {
        ConnectionDirection::Outbound
    } else {
        ConnectionDirection::Inbound
    }
}

pub open spec fn replaces(
    local: Seq<u8>,
    remote: Seq<u8>,
    existing: ConnectionDirection,
    candidate: ConnectionDirection,
) -> bool {
    existing != candidate && candidate == preferred_direction(local, remote)
}

/// Whether a candidate connection in the other direction than the existing
/// one takes its place.
pub fn should_replace_connection(
    local_node_id: &str,
    remote_peer_id: &str,
    existing_direction: ConnectionDirection,
    candidate_direction: ConnectionDirection,
) -> (b: bool)
    ensures
        b == replaces(
            local_node_id.spec_bytes(),
            remote_peer_id.spec_bytes(),
            existing_direction,
            candidate_direction,
        ),
{
    existing_direction != candidate_direction && candidate_direction
        == preferred_connection_direction(local_node_id, remote_peer_id)
}

/// Crossed dials resolve the same way on both ends: for two distinct ids,
/// exactly one side prefers its outbound connection, and a connection that
/// wins as the candidate on one side also wins as the candidate on the other
/// (where its direction is reversed). Equal ids are left out: both sides
/// would then prefer their inbound connection.
pub proof fn lemma_tie_break_complementary(a: Seq<u8>, b: Seq<u8>, d: ConnectionDirection)
    requires
        a != b,
    ensures
        preferred_direction(a, b) == flip(preferred_direction(b, a)),
        replaces(a, b, flip(d), d) == replaces(b, a, d, flip(d)),
{
    lemma_lex_trichotomy(a, b);
}

pub open spec fn accepts_call_candidate(
    local: Option<Seq<u8>>,
    remote: Seq<u8>,
    existing_direction: ConnectionDirection,
    existing_status: PeerConnectionKind,
    candidate_direction: ConnectionDirection,
) -> bool {
    existing_status == PeerConnectionKind::Reconnecting || match local {
        Some(l) => replaces(l, remote, existing_direction, candidate_direction),
        None => false,
    }
}

/// Whether a call connection candidate may take the place of the existing
/// entry for the same peer: always while that entry is reconnecting,
/// otherwise only by the crossed-dial tie-break, which needs our own id.
pub fn should_accept_call_connection_candidate(
    local_node_id: Option<&str>,
    remote_peer_id: &str,
    existing_direction: ConnectionDirection,
    existing_status: &PeerConnectionKind,
    candidate_direction: ConnectionDirection,
) -> (b: bool)
    ensures
        b == accepts_call_candidate(
            match local_node_id {
                Some(l) => Some(l.spec_bytes()),
                None => None,
            },
            remote_peer_id.spec_bytes(),
            existing_direction,
            *existing_status,
            candidate_direction,
        ),
{
    if let PeerConnectionKind::Reconnecting = existing_status {
        return true;
    }
    match local_node_id {
        Some(local_id) => should_replace_connection(
            local_id,
            remote_peer_id,
            existing_direction,
            candidate_direction,
        ),
        None => false,
    }
}

/// Whether a peer-opened bidi stream of `stream_type` may be accepted on a
/// call connection: one each of chat, control and DM, recorded as seen.
pub fn accept_call_bi_stream_type(seen: &mut std::collections::HashSet<u8>, stream_type: u8) -> (b:
    bool)
    ensures
        b == ((stream_type == STREAM_CHAT || stream_type == STREAM_CONTROL || stream_type
            == STREAM_DM) && !old(seen)@.contains(stream_type)),
        final(seen)@ == (if stream_type == STREAM_CHAT || stream_type == STREAM_CONTROL
            || stream_type == STREAM_DM {
            old(seen)@.insert(stream_type)
        } else {
            old(seen)@
        }),
{
    broadcast use vstd::std_specs::hash::group_hash_axioms;

    if stream_type == STREAM_CHAT || stream_type == STREAM_CONTROL || stream_type == STREAM_DM {
        seen.insert(stream_type)
    } else {
        false
    }
}

/// The peers an announce is passed on to: every connected peer but the one
/// that sent it and the one it is about, in the order given.
pub fn relay_targets_for_announce(peer_ids: &[String], sender_id: &str, announced_peer_id: &str) -> (out:
    Vec<String>)
    ensures
        string_views(out@) == string_views(peer_ids@).filter(
            |id: Seq<char>| id != sender_id@ && id != announced_peer_id@,
        ),
{
    let sender = sender_id.to_owned();
    let announced = announced_peer_id.to_owned();
    let ghost p = |id: Seq<char>| id != sender_id@ && id != announced_peer_id@;
    let mut out: Vec<String> = Vec::new();
    let mut i: usize = 0;
    while i < peer_ids.len()
        invariant
            i <= peer_ids@.len(),
            sender@ == sender_id@,
            announced@ == announced_peer_id@,
            p == (|id: Seq<char>| id != sender_id@ && id != announced_peer_id@),
            string_views(out@) == string_views(peer_ids@.take(i as int)).filter(p),
        decreases peer_ids@.len() - i,
    {
        let id = &peer_ids[i];
        proof {
            assert(string_views(peer_ids@.take(i + 1)) =~= string_views(peer_ids@.take(i as int)).push(
                id@,
            ));
            lemma_filter_push(string_views(peer_ids@.take(i as int)), id@, p);
        }
        if !(*id == sender) && !(*id == announced) {
            let ghost before = out@;
            out.push(id.clone());
            assert(string_views(out@) =~= string_views(before).push(id@));
        }
        i = i + 1;
    }
    assert(peer_ids@.take(i as int) =~= peer_ids@);
    out
}

/// What is cached about a peer's ticket.
#[derive(Debug, Clone, PartialEq, Eq)]
pub struct PeerTicketRecord {
    pub ticket: String,
    pub last_updated_ms: u64,
    pub last_dial_failed_ms: Option<u64>,
    pub dial_failures: u32,
}

/// A ticket record as a value.
pub struct TicketState {
    pub ticket: Seq<char>,
    pub last_updated_ms: u64,
    pub last_dial_failed_ms: Option<u64>,
    pub dial_failures: u32,
}

pub open spec fn ticket_state(r: PeerTicketRecord) -> TicketState {
    TicketState {
        ticket: r.ticket@,
        last_updated_ms: r.last_updated_ms,
        last_dial_failed_ms: r.last_dial_failed_ms,
        dial_failures: r.dial_failures,
    }
}

/// A freshly stored ticket: no dial failure recorded yet.
pub open spec fn fresh_ticket(ticket: Seq<char>, now_ms: u64) -> TicketState {
    TicketState { ticket, last_updated_ms: now_ms, last_dial_failed_ms: None, dial_failures: 0 }
}

/// The pairs (peer, ticket) a table of ticket records holds, in its order.
pub open spec fn ticket_pairs(e: Seq<(String, PeerTicketRecord)>) -> Seq<(Seq<char>, Seq<char>)> {
    e.map_values(|x: (String, PeerTicketRecord)| (x.0@, x.1.ticket@))
}

/// Tickets to announce to a newly connected call peer: every cached ticket
/// of another peer that is connected to us right now (tickets of peers from
/// earlier calls stay private), in the order of the table.
pub fn tickets_to_announce(
    tickets: &[(String, PeerTicketRecord)],
    current_peer_ids: &[String],
    new_peer_id: &str,
) -> (out: Vec<(String, String)>)
    ensures
        ticket_pairs_of(out@) == ticket_pairs(
            tickets@.filter(
                |x: (String, PeerTicketRecord)|
                    x.0@ != new_peer_id@ && string_views(current_peer_ids@).contains(x.0@),
            ),
        ),
{
    let new_id = new_peer_id.to_owned();
    let ghost p = |x: (String, PeerTicketRecord)|
        x.0@ != new_peer_id@ && string_views(current_peer_ids@).contains(x.0@);
    let mut out: Vec<(String, String)> = Vec::new();
    let mut i: usize = 0;
    while i < tickets.len()
        invariant
            i <= tickets@.len(),
            new_id@ == new_peer_id@,
            p == (|x: (String, PeerTicketRecord)|
                x.0@ != new_peer_id@ && string_views(current_peer_ids@).contains(x.0@)),
            ticket_pairs_of(out@) == ticket_pairs(tickets@.take(i as int).filter(p)),
        decreases tickets@.len() - i,
    {
        let entry = &tickets[i];
        proof {
            assert(tickets@.take(i + 1) =~= tickets@.take(i as int).push(*entry));
            lemma_filter_push(tickets@.take(i as int), *entry, p);
        }
        let ghost before = out@;
        if !(entry.0 == new_id) && contains_string(current_peer_ids, &entry.0) {
            out.push((entry.0.clone(), entry.1.ticket.clone()));
            assert(ticket_pairs_of(out@) =~= ticket_pairs_of(before).push(
                (entry.0@, entry.1.ticket@),
            ));
            assert(ticket_pairs(tickets@.take(i as int).filter(p).push(*entry)) =~= ticket_pairs(
                tickets@.take(i as int).filter(p),
            ).push((entry.0@, entry.1.ticket@)));
        }
        i = i + 1;
    }
    assert(tickets@.take(i as int) =~= tickets@);
    out
}

/// The views of a sequence of string pairs.
pub open spec fn ticket_pairs_of(s: Seq<(String, String)>) -> Seq<(Seq<char>, Seq<char>)> {
    s.map_values(|x: (String, String)| (x.0@, x.1@))
}

/// The tickets of peers seen in calls, kept to re-announce them and to redial
/// a dropped peer. At most [`MAX_PEER_TICKETS`] are kept; a new peer beyond
/// that evicts the one updated longest ago.
pub struct PeerTicketCache {
    pub entries: Vec<(String, PeerTicketRecord)>,
}

pub open spec fn tickets_view(e: Seq<(String, PeerTicketRecord)>) -> Map<Seq<char>, TicketState> {
    key_map(e).map_values(|r: PeerTicketRecord| ticket_state(r))
}

/// `s` is a key of `m` updated no later than any other.
pub open spec fn is_stalest(m: Map<Seq<char>, TicketState>, s: Seq<char>) -> bool {
    &&& m.contains_key(s)
    &&& forall|o: Seq<char>| #[trigger] m.contains_key(o) ==> m[s].last_updated_ms <= m[o].last_updated_ms
}

/// The last dial with this ticket failed less than
/// [`RECONNECT_RETRY_AFTER_MS`] before `now_ms`.
pub open spec fn recently_failed(t: TicketState, now_ms: u64) -> bool {
    match t.last_dial_failed_ms {
        Some(f) => (if now_ms >= f {
            now_ms - f
        } else {
            0
        }) < RECONNECT_RETRY_AFTER_MS,
        None => false,
    }
}

pub open spec fn with_dial_failure(t: TicketState, now_ms: u64) -> TicketState {
    TicketState {
        last_dial_failed_ms: Some(now_ms),
        dial_failures: if t.dial_failures < u32::MAX {
            (t.dial_failures + 1) as u32
        } else {
            t.dial_failures
        },
        ..t
    }
}

proof fn lemma_tickets_view_insert(m: Map<Seq<char>, PeerTicketRecord>, k: Seq<char>, r: PeerTicketRecord)
    ensures
        m.insert(k, r).map_values(|r: PeerTicketRecord| ticket_state(r)) == m.map_values(
            |r: PeerTicketRecord| ticket_state(r),
        ).insert(k, ticket_state(r)),
{
    assert(m.insert(k, r).map_values(|r: PeerTicketRecord| ticket_state(r)) =~= m.map_values(
        |r: PeerTicketRecord| ticket_state(r),
    ).insert(k, ticket_state(r)));
}

proof fn lemma_tickets_view_remove(m: Map<Seq<char>, PeerTicketRecord>, k: Seq<char>)
    ensures
        m.remove(k).map_values(|r: PeerTicketRecord| ticket_state(r)) == m.map_values(
            |r: PeerTicketRecord| ticket_state(r),
        ).remove(k),
{
    assert(m.remove(k).map_values(|r: PeerTicketRecord| ticket_state(r)) =~= m.map_values(
        |r: PeerTicketRecord| ticket_state(r),
    ).remove(k));
}

proof fn lemma_tickets_view_len(e: Seq<(String, PeerTicketRecord)>)
    requires
        keys_distinct(e),
    ensures
        tickets_view(e).dom().finite(),
        tickets_view(e).dom().len() == e.len(),
{
    lemma_key_map_len(e);
    assert(tickets_view(e).dom() =~= key_map(e).dom());
}

/// Position of an entry updated no later than any other.
fn stalest_index(e: &Vec<(String, PeerTicketRecord)>) -> (i: usize)
    requires
        e@.len() > 0,
    ensures
        i < e@.len(),
        forall|j: int| 0 <= j < e@.len() ==> e@[i as int].1.last_updated_ms <= (
        #[trigger] e@[j]).1.last_updated_ms,
{
    let mut best: usize = 0;
    let mut k: usize = 1;
    while k < e.len()
        invariant
            1 <= k <= e@.len(),
            best < k,
            forall|j: int| 0 <= j < k ==> e@[best as int].1.last_updated_ms <= (
            #[trigger] e@[j]).1.last_updated_ms,
        decreases e@.len() - k,
    {
        if e[k].1.last_updated_ms < e[best].1.last_updated_ms {
            best = k;
        }
        k = k + 1;
    }
    best
}

impl View for PeerTicketCache {
    type V = Map<Seq<char>, TicketState>;

    open spec fn view(&self) -> Map<Seq<char>, TicketState> {
        tickets_view(self.entries@)
    }
}

impl PeerTicketCache {
    pub open spec fn wf(&self) -> bool {
        keys_distinct(self.entries@)
    }

    pub fn new() -> (c: Self)
        ensures
            c.wf(),
            c@ == Map::<Seq<char>, TicketState>::empty(),
    {
        let c = PeerTicketCache { entries: Vec::new() };
        assert(c@ =~= Map::<Seq<char>, TicketState>::empty());
        c
    }

    /// Whether a ticket is cached for `peer_id`.
    pub fn contains(&self, peer_id: &str) -> (b: bool)
        requires
            self.wf(),
        ensures
            b == self@.contains_key(peer_id@),
    {
        let key = peer_id.to_owned();
        match find_key(&self.entries, &key) {
            Some(i) => {
                proof {
                    lemma_key_map_at(self.entries@, i as int);
                }
                true
            },
            None => false,
        }
    }

    /// Caches `ticket` for `peer_id`. An identical ticket changes nothing (its
    /// failure counters stay); a new ticket replaces the old one and clears
    /// them. Returns whether anything changed.
    pub fn upsert(&mut self, peer_id: &str, ticket: &str, now_ms: u64) -> (changed: bool)
        requires
            old(self).wf(),
        ensures
            final(self).wf(),
            old(self)@.contains_key(peer_id@) && old(self)@[peer_id@].ticket == ticket@ ==> !changed
                && final(self)@ == old(self)@,
            old(self)@.contains_key(peer_id@) && old(self)@[peer_id@].ticket != ticket@ ==> changed
                && final(self)@ == old(self)@.insert(peer_id@, fresh_ticket(ticket@, now_ms)),
            !old(self)@.contains_key(peer_id@) && old(self)@.dom().len() < MAX_PEER_TICKETS ==> changed
                && final(self)@ == old(self)@.insert(peer_id@, fresh_ticket(ticket@, now_ms)),
            !old(self)@.contains_key(peer_id@) && old(self)@.dom().len() >= MAX_PEER_TICKETS ==> changed
                && exists|s: Seq<char>|
                #![trigger old(self)@.remove(s)]
                is_stalest(old(self)@, s) && final(self)@ == old(self)@.remove(s).insert(
                    peer_id@,
                    fresh_ticket(ticket@, now_ms),
                ),
            old(self)@.dom().len() <= MAX_PEER_TICKETS ==> final(self)@.dom().len()
                <= MAX_PEER_TICKETS,
    {
        let ghost e0 = self.entries@;
        proof {
            lemma_tickets_view_len(e0);
        }
        let key = peer_id.to_owned();
        let t = ticket.to_owned();
        let rec = PeerTicketRecord {
            ticket: t,
            last_updated_ms: now_ms,
            last_dial_failed_ms: None,
            dial_failures: 0,
        };
        assert(ticket_state(rec) == fresh_ticket(ticket@, now_ms));
        match find_key(&self.entries, &key) {
            Some(i) => {
                proof {
                    lemma_key_map_at(e0, i as int);
                }
                if self.entries[i].1.ticket == rec.ticket {
                    return false;
                }
                let k2 = self.entries[i].0.clone();
                self.entries.set(i, (k2, rec));
                proof {
                    lemma_key_map_update(e0, i as int, rec);
                    assert(self.entries@ == e0.update(i as int, (e0[i as int].0, rec)));
                    lemma_tickets_view_insert(key_map(e0), e0[i as int].0@, rec);
                    lemma_tickets_view_len(self.entries@);
                }
                true
            },
            None => {
                if self.entries.len() >= MAX_PEER_TICKETS {
                    let j = stalest_index(&self.entries);
                    let ghost s = e0[j as int].0@;
                    proof {
                        lemma_key_map_at(e0, j as int);
                        assert forall|o: Seq<char>| #[trigger] tickets_view(e0).contains_key(o) implies tickets_view(
                            e0,
                        )[s].last_updated_ms <= tickets_view(e0)[o].last_updated_ms by {
                            let m = choose|m: int| 0 <= m < e0.len() && (#[trigger] e0[m]).0@ == o;
                            lemma_key_map_at(e0, m);
                        }
                        assert(is_stalest(tickets_view(e0), s));
                        lemma_key_map_remove(e0, j as int);
                        lemma_tickets_view_remove(key_map(e0), s);
                    }
                    self.entries.remove(j);
                    let ghost e1 = self.entries@;
                    assert(e1 == e0.remove(j as int));
                    self.entries.push((key, rec));
                    proof {
                        lemma_key_map_push(e1, key, rec);
                        assert(self.entries@ == e1.push((key, rec)));
                        lemma_tickets_view_insert(key_map(e1), key@, rec);
                        lemma_tickets_view_len(self.entries@);
                        assert(is_stalest(tickets_view(e0), s) && self@ == tickets_view(e0).remove(
                            s,
                        ).insert(peer_id@, fresh_ticket(ticket@, now_ms)));
                    }
                } else {
                    let ghost e1 = self.entries@;
                    self.entries.push((key, rec));
                    proof {
                        lemma_key_map_push(e1, key, rec);
                        lemma_tickets_view_insert(key_map(e1), key@, rec);
                        lemma_tickets_view_len(self.entries@);
                    }
                }
                true
            },
        }
    }

    /// The cached ticket to redial `peer_id` with at `now_ms`: none when there
    /// is none, or when the last dial with it failed too recently.
    pub fn reconnect_ticket(&self, peer_id: &str, now_ms: u64) -> (t: Option<String>)
        requires
            self.wf(),
        ensures
            t is Some <==> self@.contains_key(peer_id@) && !recently_failed(self@[peer_id@], now_ms),
            t matches Some(s) ==> s@ == self@[peer_id@].ticket,
    {
        let key = peer_id.to_owned();
        match find_key(&self.entries, &key) {
            Some(i) => {
                proof {
                    lemma_key_map_at(self.entries@, i as int);
                }
                let rec = &self.entries[i].1;
                match rec.last_dial_failed_ms {
                    Some(failed_at) => {
                        let since = if now_ms >= failed_at {
                            now_ms - failed_at
                        } else {
                            0
                        };
                        if since < RECONNECT_RETRY_AFTER_MS {
                            return None;
                        }
                    },
                    None => {},
                }
                Some(rec.ticket.clone())
            },
            None => None,
        }
    }

    /// Forgets the ticket of `peer_id`, if any.
    pub fn forget(&mut self, peer_id: &str)
        requires
            old(self).wf(),
        ensures
            final(self).wf(),
            final(self)@ == old(self)@.remove(peer_id@),
    {
        let ghost e0 = self.entries@;
        let key = peer_id.to_owned();
        match find_key(&self.entries, &key) {
            Some(i) => {
                proof {
                    lemma_key_map_remove(e0, i as int);
                    lemma_tickets_view_remove(key_map(e0), key@);
                }
                self.entries.remove(i);
            },
            None => {
                assert(tickets_view(e0).remove(peer_id@) =~= tickets_view(e0));
            },
        }
    }

    /// Records that dialing `peer_id` with its cached ticket failed at
    /// `now_ms` (the failure count saturates).
    pub fn record_dial_failure(&mut self, peer_id: &str, now_ms: u64)
        requires
            old(self).wf(),
        ensures
            final(self).wf(),
            final(self)@ == (if old(self)@.contains_key(peer_id@) {
                old(self)@.insert(peer_id@, with_dial_failure(old(self)@[peer_id@], now_ms))
            } else {
                old(self)@
            }),
    {
        let ghost e0 = self.entries@;
        let key = peer_id.to_owned();
        match find_key(&self.entries, &key) {
            Some(i) => {
                proof {
                    lemma_key_map_at(e0, i as int);
                }
                let prev = &self.entries[i].1;
                let rec = PeerTicketRecord {
                    ticket: prev.ticket.clone(),
                    last_updated_ms: prev.last_updated_ms,
                    last_dial_failed_ms: Some(now_ms),
                    dial_failures: if prev.dial_failures < u32::MAX {
                        prev.dial_failures + 1
                    } else {
                        prev.dial_failures
                    },
                };
                let k2 = self.entries[i].0.clone();
                self.entries.set(i, (k2, rec));
                proof {
                    lemma_key_map_update(e0, i as int, rec);
                    lemma_tickets_view_insert(key_map(e0), e0[i as int].0@, rec);
                }
            },
            None => {},
        }
    }
}

/// What one pass of the liveness ladder does with a call peer.
#[derive(Debug, Clone, Copy, PartialEq, Eq, Structural)]
pub enum LivenessStep {
    /// Silent past [`DISCONNECT_AFTER_MS`]: give up, close and forget it.
    Disconnect,
    /// A connected peer went silent past [`SUSPECT_AFTER_MS`]: mark it suspect.
    MarkSuspect,
    /// A suspect peer stayed silent past [`RECONNECT_AFTER_MS`]: redial it if a
    /// ticket allows.
    TryReconnect,
    /// A reconnecting peer is still silent: redial again if a ticket allows.
    Redial,
    /// Traffic came back: mark it connected again.
    MarkConnected,
    /// Nothing to do.
    Keep,
}

/// Milliseconds since the last inbound traffic (zero if the clock went back).
pub open spec fn idle_ms(last_activity_ms: u64, now_ms: u64) -> int {
    if now_ms >= last_activity_ms {
        now_ms - last_activity_ms
    } else {
        0
    }
}

pub open spec fn liveness_step_spec(status: PeerConnectionKind, idle: int) -> LivenessStep {
    if idle > DISCONNECT_AFTER_MS {
        LivenessStep::Disconnect
    } else if status == PeerConnectionKind::Connected && idle > SUSPECT_AFTER_MS {
        LivenessStep::MarkSuspect
    } else if status == PeerConnectionKind::Suspect && idle > RECONNECT_AFTER_MS {
        LivenessStep::TryReconnect
    } else if status == PeerConnectionKind::Reconnecting && idle > RECONNECT_AFTER_MS {
        LivenessStep::Redial
    } else if idle <= SUSPECT_AFTER_MS && status != PeerConnectionKind::Connected {
        LivenessStep::MarkConnected
    } else {
        LivenessStep::Keep
    }
}

/// The status a peer has after a ladder step (a redial changes it later, if
/// at all).
pub open spec fn status_after(status: PeerConnectionKind, step: LivenessStep) -> PeerConnectionKind {
    match step {
        LivenessStep::MarkSuspect => PeerConnectionKind::Suspect,
        LivenessStep::MarkConnected => PeerConnectionKind::Connected,
        _ => status,
    }
}

/// One pass of the liveness ladder for a peer last heard from at
/// `last_activity_ms`.
pub fn liveness_step(status: PeerConnectionKind, last_activity_ms: u64, now_ms: u64) -> (step:
    LivenessStep)
    ensures
        step == liveness_step_spec(status, idle_ms(last_activity_ms, now_ms)),
{
    let idle: u64 = if now_ms >= last_activity_ms {
        now_ms - last_activity_ms
    } else {
        0
    };
    if idle > DISCONNECT_AFTER_MS {
        return LivenessStep::Disconnect;
    }
    match status {
        PeerConnectionKind::Connected => {
            if idle > SUSPECT_AFTER_MS {
                LivenessStep::MarkSuspect
            } else {
                LivenessStep::Keep
            }
        },
        PeerConnectionKind::Suspect => {
            if idle > RECONNECT_AFTER_MS {
                LivenessStep::TryReconnect
            } else if idle <= SUSPECT_AFTER_MS {
                LivenessStep::MarkConnected
            } else {
                LivenessStep::Keep
            }
        },
        PeerConnectionKind::Reconnecting => {
            if idle > RECONNECT_AFTER_MS {
                LivenessStep::Redial
            } else if idle <= SUSPECT_AFTER_MS {
                LivenessStep::MarkConnected
            } else {
                LivenessStep::Keep
            }
        },
        _ => {
            if idle <= SUSPECT_AFTER_MS {
                LivenessStep::MarkConnected
            } else {
                LivenessStep::Keep
            }
        },
    }
}

/// The ladder only gives a peer up after [`DISCONNECT_AFTER_MS`] of silence,
/// only marks a connected peer suspect after [`SUSPECT_AFTER_MS`], only
/// redials after [`RECONNECT_AFTER_MS`], and a peer heard from within
/// [`SUSPECT_AFTER_MS`] ends every pass connected.
pub proof fn lemma_liveness_ladder(status: PeerConnectionKind, idle: int)
    ensures
        liveness_step_spec(status, idle) == LivenessStep::Disconnect <==> idle > DISCONNECT_AFTER_MS,
        liveness_step_spec(status, idle) == LivenessStep::MarkSuspect ==> status
            == PeerConnectionKind::Connected && idle > SUSPECT_AFTER_MS,
        (liveness_step_spec(status, idle) == LivenessStep::TryReconnect || liveness_step_spec(
            status,
            idle,
        ) == LivenessStep::Redial) ==> idle > RECONNECT_AFTER_MS,
        idle <= SUSPECT_AFTER_MS ==> status_after(status, liveness_step_spec(status, idle))
            == PeerConnectionKind::Connected,
{
}

/// Whether a suspect peer picked for a redial is moved to reconnecting: a
/// ticket must allow it, and under the lock the peer must still be suspect
/// and silent between [`RECONNECT_AFTER_MS`] and [`DISCONNECT_AFTER_MS`].
pub fn suspect_should_reconnect(
    has_ticket: bool,
    status: PeerConnectionKind,
    last_activity_ms: u64,
    now_ms: u64,
) -> (b: bool)
    ensures
        b == (has_ticket && status == PeerConnectionKind::Suspect && RECONNECT_AFTER_MS < idle_ms(
            last_activity_ms,
            now_ms,
        ) <= DISCONNECT_AFTER_MS),
{
    let idle: u64 = if now_ms >= last_activity_ms {
        now_ms - last_activity_ms
    } else {
        0
    };
    has_ticket && matches!(status, PeerConnectionKind::Suspect) && idle > RECONNECT_AFTER_MS && idle
        <= DISCONNECT_AFTER_MS
}

/// (bitrate bps, fps, max width, max height) for a call of `count` peers.
pub open spec fn quality_profile_spec(count: int) -> (u32, u32, u32, u32) {
    if count <= 2 {
        (400000, 12, 640, 360)
    } else if count == 3 {
        (250000, 10, 480, 270)
    } else {
        (150000, 8, 320, 180)
    }
}

/// The video profile for a call of `count` peers: smaller as the call grows.
pub fn quality_profile_for_peers(count: usize) -> (p: (u32, u32, u32, u32))
    ensures
        p == quality_profile_spec(count as int),
{
    if count <= 2 {
        (400000, 12, 640, 360)
    } else if count == 3 {
        (250000, 10, 480, 270)
    } else {
        (150000, 8, 320, 180)
    }
}

/// The profile to announce when the peer count goes from `old_count` to
/// `new_count`: the new one if it differs from the old one, else none.
pub fn quality_profile_change(old_count: usize, new_count: usize) -> (p: Option<(u32, u32, u32, u32)>)
    ensures
        p == (if quality_profile_spec(old_count as int) == quality_profile_spec(new_count as int) {
            None
        } else {
            Some(quality_profile_spec(new_count as int))
        }),
{
    let old_profile = quality_profile_for_peers(old_count);
    let new_profile = quality_profile_for_peers(new_count);
    if old_profile.0 == new_profile.0 && old_profile.1 == new_profile.1 && old_profile.2
        == new_profile.2 && old_profile.3 == new_profile.3 {
        None
    } else {
        Some(new_profile)
    }
}

/// The strictest (lowest) non-zero per-peer bitrate cap, or 0 when no peer
/// has one. The encoder is shared, so the most constrained peer decides.
pub fn min_peer_outbound_bitrate(caps: &[u32]) -> (r: u32)
    ensures
        (forall|i: int| 0 <= i < caps@.len() ==> caps@[i] == 0) ==> r == 0,
        (exists|i: int| 0 <= i < caps@.len() && caps@[i] > 0) ==> {
            &&& r > 0
            &&& exists|i: int| 0 <= i < caps@.len() && caps@[i] == r
            &&& forall|i: int| 0 <= i < caps@.len() && caps@[i] > 0 ==> r <= caps@[i]
        },
{
    let mut best: u32 = 0;
    let mut i: usize = 0;
    while i < caps.len()
        invariant
            i <= caps@.len(),
            best == 0 ==> forall|j: int| 0 <= j < i ==> caps@[j] == 0,
            best > 0 ==> exists|j: int| 0 <= j < i && caps@[j] == best,
            forall|j: int| 0 <= j < i && caps@[j] > 0 ==> best > 0 && best <= caps@[j],
        decreases caps@.len() - i,
    {
        let c = caps[i];
        if c > 0 && (best == 0 || c < best) {
            best = c;
        }
        i = i + 1;
    }
    best
}

/// A bitrate cap requested by a peer, kept within 50 kbps..2 Mbps so a
/// misbehaving peer can't force the encoder to a useless rate; 0 clears the
/// cap.
pub fn clamp_peer_bitrate(bitrate_bps: u32) -> (r: u32)
    ensures
        r == (if bitrate_bps == 0 {
            0
        } else if bitrate_bps < 50000 {
            50000
        } else if bitrate_bps > 2000000 {
            2000000
        } else {
            bitrate_bps
        }),
{
    if bitrate_bps == 0 {
        0
    } else if bitrate_bps < 50000 {
        50000
    } else if bitrate_bps > 2000000 {
        2000000
    } else {
        bitrate_bps
    }
}

/// What a peer's video layer request changes: the layer code to store (none
/// when it is already the stored one) and whether the encoder must produce a
/// keyframe (a newly requested High or Low layer needs one to start from).
pub fn video_layer_update(current: u8, layer: VideoLayerRequest) -> (r: (Option<u8>, bool))
    ensures
        r == (if current == layer_code(layer) {
            (None::<u8>, false)
        } else {
            (Some(layer_code(layer)), layer_code(layer) < 2)
        }),
{
    let new_val = layer.to_u8();
    if current != new_val {
        (Some(new_val), new_val < 2)
    } else {
        (None, false)
    }
}

/// Whether a peer's keyframe request for `layer` makes the encoder produce a
/// keyframe (a request for no video does not).
pub fn keyframe_requested(layer: VideoLayerRequest) -> (b: bool)
    ensures
        b == (layer_code(layer) < 2),
{
    layer.to_u8() < 2
}

/// Whether an outgoing video frame goes to a peer: it must be reachable
/// (connected or connecting, not suspect or reconnecting) and want video.
/// A peer that doesn't get the frame must be marked as having a gap.
pub fn video_send_target(status: PeerConnectionKind, requested_layer: u8) -> (b: bool)
    ensures
        b == ((status == PeerConnectionKind::Connected || status == PeerConnectionKind::Connecting)
            && requested_layer != layer_code(VideoLayerRequest::NoLayer)),
{
    let reachable = matches!(status, PeerConnectionKind::Connected | PeerConnectionKind::Connecting);
    reachable && requested_layer != VideoLayerRequest::NoLayer.to_u8()
}

/// A frame too large for receivers is dropped as lost: every peer is
/// marked as having a gap and asked for a keyframe instead.
pub fn video_frame_oversized(len: usize) -> (b: bool)
    ensures
        b == (len > MAX_VIDEO_FRAME_BYTES),
{
    len > MAX_VIDEO_FRAME_BYTES
}

/// Whether a cleanup removes the peer's entry: only one that exists and,
/// for a cleanup scoped to one connection, still belongs to it.
pub fn cleanup_removes_entry(entry_connection_id: Option<usize>, scope: Option<usize>) -> (b: bool)
    ensures
        b == match entry_connection_id {
            Some(id) => match scope {
                Some(s) => s == id,
                None => true,
            },
            None => false,
        },
{
    match entry_connection_id {
        Some(id) => match scope {
            Some(s) => s == id,
            None => true,
        },
        None => false,
    }
}

/// Whether a cleanup forgets the peer's cached ticket: a deliberate teardown
/// does, even when the entry is already gone, unless it was scoped to a
/// connection that lost the entry to a newer one (the ticket is the newer
/// one's).
pub fn cleanup_forgets_ticket(preserve_ticket: bool, removed: bool, scope: Option<usize>) -> (b: bool)
    ensures
        b == (!preserve_ticket && (removed || scope is None)),
{
    !preserve_ticket && (removed || scope.is_none())
}

/// Why an existing call entry is evicted to make room for a candidate.
#[derive(Debug, Clone, Copy, PartialEq, Eq, Structural)]
pub enum EvictReason {
    /// The existing connection is already closed.
    Stale,
    /// Presence saw the peer rejoin after the entry was established.
    PeerRejoined,
    /// The initiator re-dialed in the same direction.
    SupersededByRedial,
}

impl EvictReason {
    /// The reason the evicted connection is closed with.
    pub fn close_reason(self) -> (s: &'static str)
        ensures
            s@ == (match self {
                EvictReason::Stale => CLOSE_STALE_CALL_CONNECTION@,
                EvictReason::PeerRejoined => CLOSE_PEER_REJOINED_GOSSIP@,
                EvictReason::SupersededByRedial => CLOSE_SUPERSEDED_BY_REDIAL@,
            }),
    {
        match self {
            EvictReason::Stale => CLOSE_STALE_CALL_CONNECTION,
            EvictReason::PeerRejoined => CLOSE_PEER_REJOINED_GOSSIP,
            EvictReason::SupersededByRedial => CLOSE_SUPERSEDED_BY_REDIAL,
        }
    }
}

/// What is known of the existing call entry for a peer when a candidate
/// connection arrives.
#[derive(Debug, Clone, Copy, PartialEq, Eq)]
pub struct ExistingCallEntry {
    pub closed: bool,
    pub direction: ConnectionDirection,
    pub status: PeerConnectionKind,
    /// The entry was established before the peer's latest presence rejoin.
    pub predates_rejoin: bool,
}

/// The verdict on a candidate call connection.
#[derive(Debug, Clone, Copy, PartialEq, Eq, Structural)]
pub enum CallCandidateVerdict {
    /// No call session is active here: close it as not active.
    NotActive,
    /// Take it; no entry stands in the way or the tie-break lets it replace
    /// the entry.
    Accept,
    /// Evict the existing entry (keeping the peer's ticket, without
    /// announcing a disconnect) and take the candidate.
    EvictThenAccept(EvictReason),
    /// The existing connection wins: close the candidate as a duplicate.
    RejectDuplicate,
}

pub open spec fn call_verdict_spec(
    session_active: bool,
    existing: Option<ExistingCallEntry>,
    candidate: ConnectionDirection,
    local: Option<Seq<u8>>,
    remote: Seq<u8>,
) -> CallCandidateVerdict {
    if !session_active {
        CallCandidateVerdict::NotActive
    } else {
        match existing {
            None => CallCandidateVerdict::Accept,
            Some(e) => if e.closed {
                CallCandidateVerdict::EvictThenAccept(EvictReason::Stale)
            } else if candidate == ConnectionDirection::Inbound && e.predates_rejoin {
                CallCandidateVerdict::EvictThenAccept(EvictReason::PeerRejoined)
            } else if e.direction == candidate {
                CallCandidateVerdict::EvictThenAccept(EvictReason::SupersededByRedial)
            } else if accepts_call_candidate(local, remote, e.direction, e.status, candidate) {
                CallCandidateVerdict::Accept
            } else {
                CallCandidateVerdict::RejectDuplicate
            },
        }
    }
}

/// Decides on a candidate call connection for `remote_peer_id`: the ghost
/// call gate first, then a dead or pre-rejoin entry, a same-direction
/// redial, and finally the crossed-dial tie-break.
pub fn call_candidate_verdict(
    session_active: bool,
    existing: Option<ExistingCallEntry>,
    candidate_direction: ConnectionDirection,
    local_node_id: Option<&str>,
    remote_peer_id: &str,
) -> (v: CallCandidateVerdict)
    ensures
        v == call_verdict_spec(
            session_active,
            existing,
            candidate_direction,
            match local_node_id {
                Some(l) => Some(l.spec_bytes()),
                None => None,
            },
            remote_peer_id.spec_bytes(),
        ),
{
    if !session_active {
        return CallCandidateVerdict::NotActive;
    }
    match existing {
        None => CallCandidateVerdict::Accept,
        Some(e) => {
            if e.closed {
                CallCandidateVerdict::EvictThenAccept(EvictReason::Stale)
            } else if candidate_direction == ConnectionDirection::Inbound && e.predates_rejoin {
                CallCandidateVerdict::EvictThenAccept(EvictReason::PeerRejoined)
            } else if e.direction == candidate_direction {
                CallCandidateVerdict::EvictThenAccept(EvictReason::SupersededByRedial)
            } else if should_accept_call_connection_candidate(
                local_node_id,
                remote_peer_id,
                e.direction,
                &e.status,
                candidate_direction,
            ) {
                CallCandidateVerdict::Accept
            } else {
                CallCandidateVerdict::RejectDuplicate
            }
        },
    }
}

/// Whether a call decline from `peer_id` ends our call session: only when
/// it answers our outstanding invite and nobody has joined.
pub fn decline_ends_session(pending_invitee: Option<&str>, peer_id: &str, peer_count: usize) -> (b:
    bool)
    ensures
        b == (match pending_invitee {
            Some(p) => p@ == peer_id@,
            None => false,
        } && peer_count == 0),
{
    match pending_invitee {
        Some(p) => {
            let invitee = p.to_owned();
            let sender = peer_id.to_owned();
            invitee == sender && peer_count == 0
        },
        None => false,
    }
}

/// What the close watcher of a call connection does.
#[derive(Debug, Clone, Copy, PartialEq, Eq, Structural)]
pub enum CloseWatcherAction {
    /// Mark the peer reconnecting and redial it with the cached ticket.
    BeginReconnect,
    /// Remove the entry if it is still this connection's, keeping or
    /// forgetting the ticket.
    Cleanup { preserve_ticket: bool },
}

/// Decides what happens when a call connection closes: a broken path with a
/// usable ticket, whose entry still belongs to this connection, is redialed;
/// anything else is cleaned up, and only a hang-up forgets the ticket.
pub fn close_watcher_action(
    cause: &CallCloseCause,
    ticket_available: bool,
    entry_connection_id: Option<usize>,
    connection_id: usize,
) -> (a: CloseWatcherAction)
    ensures
        a == (if close_disposition(*cause) == CallCloseDisposition::Reconnect && ticket_available
            && entry_connection_id == Some(connection_id) {
            CloseWatcherAction::BeginReconnect
        } else {
            CloseWatcherAction::Cleanup {
                preserve_ticket: close_disposition(*cause) != CallCloseDisposition::ForgetTicket,
            }
        }),
{
    let disposition = classify_call_close(cause);
    let owns_entry = match entry_connection_id {
        Some(id) => id == connection_id,
        None => false,
    };
    if disposition == CallCloseDisposition::Reconnect && ticket_available && owns_entry {
        CloseWatcherAction::BeginReconnect
    } else {
        CloseWatcherAction::Cleanup {
            preserve_ticket: disposition != CallCloseDisposition::ForgetTicket,
        }
    }
}

/// The verdict on a peer announce, once its ticket was parsed.
#[derive(Debug, Clone, Copy, PartialEq, Eq, Structural)]
pub enum AnnounceCheck {
    /// The ticket is for another peer than the one announced: reject it, or
    /// one peer could poison another's cached ticket.
    Mismatch,
    /// The ticket is our own: nothing to do.
    OwnTicket,
    /// Cache it (and relay and dial if it changed).
    Accept,
}

pub fn check_announce(ticket_peer_id: &str, announced_peer_id: &str, local_node_id: Option<&str>) -> (c:
    AnnounceCheck)
    ensures
        c == (if ticket_peer_id@ != announced_peer_id@ {
            AnnounceCheck::Mismatch
        } else if (match local_node_id {
            Some(l) => l@ == ticket_peer_id@,
            None => false,
        }) {
            AnnounceCheck::OwnTicket
        } else {
            AnnounceCheck::Accept
        }),
{
    let ticket_id = ticket_peer_id.to_owned();
    let announced = announced_peer_id.to_owned();
    if !(ticket_id == announced) {
        return AnnounceCheck::Mismatch;
    }
    match local_node_id {
        Some(l) => {
            let own = l.to_owned();
            if own == ticket_id {
                AnnounceCheck::OwnTicket
            } else {
                AnnounceCheck::Accept
            }
        },
        None => AnnounceCheck::Accept,
    }
}

/// Records inbound traffic on a call connection for the liveness ladder.
pub fn mark_active(last_activity_ms: &mut u64, now_ms: u64)
    ensures
        *final(last_activity_ms) == now_ms,
{
    *last_activity_ms = now_ms;
}

/// Transport statistics of one call peer, as reported to the frontend.
#[derive(Debug, Clone, PartialEq, Eq)]
pub struct NetworkPeerStats {
    pub peer_id: String,
    pub rtt_ms: u64,
    pub lost_packets: u64,
    pub lost_bytes: u64,
    pub datagram_send_buffer_space: usize,
}

/// Why writing a frame to a call or DM stream failed.
#[derive(Debug, Clone, PartialEq, Eq)]
pub enum FrameWriteError {
    /// Another writer held the stream for the whole timeout.
    LockTimeout(String),
    /// The stream was already taken out of its slot.
    Unavailable(String),
    /// The write did not complete in time; the stream was reset and the path
    /// it belonged to must be retired.
    Stalled(String),
    /// The transport refused the write.
    Io(String),
}

impl FrameWriteError {
    pub fn is_stalled(&self) -> (b: bool)
        ensures
            b == (*self is Stalled),
    {
        match self {
            FrameWriteError::Stalled(_) => true,
            _ => false,
        }
    }

    /// The error as text.
    pub fn message(&self) -> (s: String)
        ensures
            s@ == (match *self {
                FrameWriteError::LockTimeout(name) => "timed out waiting for "@ + name@ + " stream"@,
                FrameWriteError::Unavailable(name) => name@ + " stream is unavailable"@,
                FrameWriteError::Stalled(name) => "timed out writing "@ + name@
                    + " frame; stream reset"@,
                FrameWriteError::Io(detail) => detail@,
            }),
    {
        let mut out: Vec<char> = Vec::new();
        match self {
            FrameWriteError::LockTimeout(name) => {
                push_str(&mut out, "timed out waiting for ");
                push_str(&mut out, name.as_str());
                push_str(&mut out, " stream");
            },
            FrameWriteError::Unavailable(name) => {
                push_str(&mut out, name.as_str());
                push_str(&mut out, " stream is unavailable");
            },
            FrameWriteError::Stalled(name) => {
                push_str(&mut out, "timed out writing ");
                push_str(&mut out, name.as_str());
                push_str(&mut out, " frame; stream reset");
            },
            FrameWriteError::Io(detail) => {
                push_str(&mut out, detail.as_str());
            },
        }
        string_of(&out)
    }
}

} // verus!
