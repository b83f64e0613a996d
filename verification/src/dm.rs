//! Direct-message paths: which of two DM connections to a peer is kept, what
//! an incoming DM frame is routed to, and the bounded memory of message ids
//! already seen from each peer.

use vstd::prelude::*;
use vstd::string::StringSliceAdditionalSpecFns;

use crate::connection::{
    flip, preferred_direction, replaces, should_replace_connection, ConnectionDirection,
};
use crate::keyed::{
    find_key, key_map, keys_distinct, lemma_key_map_at, lemma_key_map_len, lemma_key_map_push,
    lemma_key_map_remove, lemma_key_map_update, string_views,
};
use crate::messages::DmMessage;

verus! {

/// Whether the DM path runs on a connection of its own or rides a call
/// connection (which the DM side must never close).
#[derive(Debug, Clone, Copy, PartialEq, Eq, Structural)]
pub enum DmConnectionOwnership {
    Dedicated,
    SharedCall,
}

/// Outcome of offering a DM connection or stream for registration.
#[derive(Debug, Clone, Copy, PartialEq, Eq, Structural)]
pub enum DmDecision {
    /// The candidate is (or may become) the peer's DM path.
    Store,
    /// An existing path wins; read one frame the remote may already have sent
    /// on the candidate so it isn't lost, then close it.
    DrainDuplicate,
    /// An existing path wins; close the candidate without reading.
    CloseDuplicate,
}

/// How a DM candidate on a new connection relates to a live existing entry.
#[derive(Debug, Clone, Copy, PartialEq, Eq, Structural)]
pub enum DmArbitration {
    /// Same direction as the existing entry: the initiator re-dialed, which it
    /// only does once it considers the old path dead. Newest wins.
    Redial,
    /// Crossed simultaneous dial and the candidate wins the tie-break.
    CandidateWins,
    /// Crossed simultaneous dial and the existing entry wins the tie-break.
    ExistingWins,
    /// Our own id is unknown, so the tie-break can't be evaluated: keep what
    /// we have.
    Undecidable,
}

pub open spec fn arbitration_spec(
    local: Option<Seq<u8>>,
    remote: Seq<u8>,
    existing: ConnectionDirection,
    candidate: ConnectionDirection,
) -> DmArbitration {
    if existing == candidate {
        DmArbitration::Redial
    } else {
        match local {
            Some(l) => if replaces(l, remote, existing, candidate) {
                DmArbitration::CandidateWins
            } else {
                DmArbitration::ExistingWins
            },
            None => DmArbitration::Undecidable,
        }
    }
}

pub fn arbitrate_dm_candidate(
    local_node_id: Option<&str>,
    remote_peer_id: &str,
    existing_direction: ConnectionDirection,
    candidate_direction: ConnectionDirection,
) -> (a: DmArbitration)
    ensures
        a == arbitration_spec(
            match local_node_id {
                Some(l) => Some(l.spec_bytes()),
                None => None,
            },
            remote_peer_id.spec_bytes(),
            existing_direction,
            candidate_direction,
        ),
{
    if existing_direction == candidate_direction {
        return DmArbitration::Redial;
    }
    match local_node_id {
        Some(local_id) => {
            if should_replace_connection(
                local_id,
                remote_peer_id,
                existing_direction,
                candidate_direction,
            ) {
                DmArbitration::CandidateWins
            } else {
                DmArbitration::ExistingWins
            }
        },
        None => DmArbitration::Undecidable,
    }
}

/// A peer's DM path as the decisions see it.
#[derive(Debug, Clone, Copy, PartialEq, Eq)]
pub struct DmPeerConnection {
    pub connection_id: usize,
    pub direction: ConnectionDirection,
    pub ownership: DmConnectionOwnership,
}

impl DmPeerConnection {
    /// The reason to close the connection with, if the DM side owns it: a DM
    /// stream riding a call connection must leave that connection open.
    pub fn close_if_owned(&self, reason: &'static str) -> (r: Option<&'static str>)
        ensures
            r == (if self.ownership == DmConnectionOwnership::Dedicated {
                Some(reason)
            } else {
                None
            }),
    {
        if self.ownership == DmConnectionOwnership::Dedicated {
            Some(reason)
        } else {
            None
        }
    }
}

/// Ids remembered per peer.
pub const RECENT_DM_IDS_CAPACITY: usize = 256;

/// Peers whose ids are remembered; the least recently active is evicted, so
/// many distinct senders can't grow the memory without bound.
pub const RECENT_DM_PEERS_CAPACITY: usize = 256;

/// The remembered ids after seeing `x`: unchanged if it is already there,
/// otherwise appended, the oldest dropped beyond the capacity.
pub open spec fn remember(s: Seq<Seq<char>>, x: Seq<char>) -> Seq<Seq<char>> {
    if s.contains(x) {
        s
    } else if s.len() + 1 > RECENT_DM_IDS_CAPACITY {
        s.push(x).drop_first()
    } else {
        s.push(x)
    }
}

/// The most recent message ids of one peer, oldest first.
pub struct RecentIds {
    pub order: Vec<String>,
    /// The clock of the peer's table at this peer's last message.
    pub last_used: u64,
}

impl RecentIds {
    pub open spec fn ids(&self) -> Seq<Seq<char>> {
        string_views(self.order@)
    }

    pub open spec fn wf(&self) -> bool {
        self.order@.len() <= RECENT_DM_IDS_CAPACITY
    }

    pub fn new() -> (r: Self)
        ensures
            r.wf(),
            r.ids() == Seq::<Seq<char>>::empty(),
            r.last_used == 0,
    {
        let r = RecentIds { order: Vec::new(), last_used: 0 };
        assert(r.ids() =~= Seq::<Seq<char>>::empty());
        r
    }

    /// Returns whether `id` was already seen, and remembers it.
    pub fn check_and_insert(&mut self, id: &str) -> (seen: bool)
        requires
            old(self).wf(),
        ensures
            final(self).wf(),
            seen == old(self).ids().contains(id@),
            final(self).ids() == remember(old(self).ids(), id@),
            final(self).last_used == old(self).last_used,
    {
        let owned = id.to_owned();
        if crate::keyed::contains_string(self.order.as_slice(), &owned) {
            return true;
        }
        let ghost before = self.order@;
        self.order.push(owned);
        assert(string_views(self.order@) =~= string_views(before).push(id@));
        if self.order.len() > RECENT_DM_IDS_CAPACITY {
            let ghost pushed = self.order@;
            self.order.remove(0);
            assert(string_views(self.order@) =~= string_views(pushed).drop_first());
        }
        false
    }
}

/// An id just remembered is still remembered: checking it again right away
/// reports a duplicate.
pub proof fn lemma_remember_keeps(s: Seq<Seq<char>>, x: Seq<char>)
    requires
        s.len() <= RECENT_DM_IDS_CAPACITY,
    ensures
        remember(s, x).contains(x),
        remember(s, x).len() <= RECENT_DM_IDS_CAPACITY,
{
    if !s.contains(x) {
        let t = s.push(x);
        assert(t[t.len() - 1] == x);
        if s.len() + 1 > RECENT_DM_IDS_CAPACITY {
            assert(t.drop_first()[t.len() - 2] == x);
        }
    }
}

/// Per-peer recent DM ids, bounded per peer and in number of peers.
pub struct RecentDmIds {
    pub peers: Vec<(String, RecentIds)>,
    pub clock: u64,
}

pub open spec fn recent_entry(r: RecentIds) -> (Seq<Seq<char>>, u64) {
    (r.ids(), r.last_used)
}

pub open spec fn recent_view(e: Seq<(String, RecentIds)>) -> Map<Seq<char>, (Seq<Seq<char>>, u64)> {
    key_map(e).map_values(|r: RecentIds| recent_entry(r))
}

/// `s` is a tracked peer whose last message is no newer than any other's.
pub open spec fn is_least_recent(m: Map<Seq<char>, (Seq<Seq<char>>, u64)>, s: Seq<char>) -> bool {
    &&& m.contains_key(s)
    &&& forall|o: Seq<char>| #[trigger] m.contains_key(o) ==> m[s].1 <= m[o].1
}

fn least_recent_index(e: &Vec<(String, RecentIds)>) -> (i: usize)
    requires
        e@.len() > 0,
    ensures
        i < e@.len(),
        forall|j: int| 0 <= j < e@.len() ==> e@[i as int].1.last_used <= (#[trigger] e@[j]).1.last_used,
{
    let mut best: usize = 0;
    let mut k: usize = 1;
    while k < e.len()
        invariant
            1 <= k <= e@.len(),
            best < k,
            forall|j: int| 0 <= j < k ==> e@[best as int].1.last_used <= (#[trigger] e@[j]).1.last_used,
        decreases e@.len() - k,
    {
        if e[k].1.last_used < e[best].1.last_used {
            best = k;
        }
        k = k + 1;
    }
    best
}

proof fn lemma_recent_view_len(e: Seq<(String, RecentIds)>)
    requires
        keys_distinct(e),
    ensures
        recent_view(e).dom().finite(),
        recent_view(e).dom().len() == e.len(),
{
    lemma_key_map_len(e);
    assert(recent_view(e).dom() =~= key_map(e).dom());
}

impl View for RecentDmIds {
    type V = Map<Seq<char>, (Seq<Seq<char>>, u64)>;

    open spec fn view(&self) -> Map<Seq<char>, (Seq<Seq<char>>, u64)> {
        recent_view(self.peers@)
    }
}

impl RecentDmIds {
    pub open spec fn wf(&self) -> bool {
        &&& keys_distinct(self.peers@)
        &&& forall|i: int| 0 <= i < self.peers@.len() ==> (#[trigger] self.peers@[i]).1.wf()
    }

    pub fn new() -> (r: Self)
        ensures
            r.wf(),
            r@ == Map::<Seq<char>, (Seq<Seq<char>>, u64)>::empty(),
            r.clock == 0,
    {
        let r = RecentDmIds { peers: Vec::new(), clock: 0 };
        assert(r@ =~= Map::<Seq<char>, (Seq<Seq<char>>, u64)>::empty());
        r
    }

    /// Whether ids of `peer_id` are remembered.
    pub fn tracks_peer(&self, peer_id: &str) -> (b: bool)
        requires
            self.wf(),
        ensures
            b == self@.contains_key(peer_id@),
    {
        let key = peer_id.to_owned();
        match find_key(&self.peers, &key) {
            Some(i) => {
                proof {
                    lemma_key_map_at(self.peers@, i as int);
                }
                true
            },
            None => false,
        }
    }

    /// Returns whether `id` was already seen from `peer_id`, and remembers it.
    /// A peer not yet tracked while the table is full evicts the peer whose
    /// last message is the oldest.
    pub fn check_and_insert(&mut self, peer_id: &str, id: &str) -> (seen: bool)
        requires
            old(self).wf(),
            old(self).clock < u64::MAX,
        ensures
            final(self).wf(),
            final(self).clock == old(self).clock + 1,
            seen == (old(self)@.contains_key(peer_id@) && old(self)@[peer_id@].0.contains(id@)),
            old(self)@.contains_key(peer_id@) ==> final(self)@ == old(self)@.insert(
                peer_id@,
                (remember(old(self)@[peer_id@].0, id@), final(self).clock),
            ),
            !old(self)@.contains_key(peer_id@) && old(self)@.dom().len() < RECENT_DM_PEERS_CAPACITY
                ==> final(self)@ == old(self)@.insert(
                peer_id@,
                (remember(Seq::empty(), id@), final(self).clock),
            ),
            !old(self)@.contains_key(peer_id@) && old(self)@.dom().len() >= RECENT_DM_PEERS_CAPACITY
                ==> exists|s: Seq<char>|
                #![trigger old(self)@.remove(s)]
                is_least_recent(old(self)@, s) && final(self)@ == old(self)@.remove(s).insert(
                    peer_id@,
                    (remember(Seq::empty(), id@), final(self).clock),
                ),
            old(self)@.dom().len() <= RECENT_DM_PEERS_CAPACITY ==> final(self)@.dom().len()
                <= RECENT_DM_PEERS_CAPACITY,
            final(self)@.contains_key(peer_id@) && final(self)@[peer_id@].0.contains(id@),
    {
        let ghost e0 = self.peers@;
        proof {
            lemma_remember_keeps(Seq::empty(), id@);
        }
        proof {
            lemma_recent_view_len(e0);
        }
        self.clock = self.clock + 1;
        let key = peer_id.to_owned();
        match find_key(&self.peers, &key) {
            Some(i) => {
                proof {
                    lemma_key_map_at(e0, i as int);
                }
                let (k, mut r) = self.peers.remove(i);
                assert(r.wf());
                proof {
                    lemma_remember_keeps(r.ids(), id@);
                }
                r.last_used = self.clock;
                let seen = r.check_and_insert(id);
                self.peers.insert(i, (k, r));
                proof {
                    assert(self.peers@ =~= e0.update(i as int, (e0[i as int].0, r)));
                    lemma_key_map_update(e0, i as int, r);
                    crate::keyed::lemma_map_values_insert(
                        key_map(e0),
                        key@,
                        r,
                        |r: RecentIds| recent_entry(r),
                    );
                    lemma_recent_view_len(self.peers@);
                    assert forall|j: int| 0 <= j < self.peers@.len() implies (
                    #[trigger] self.peers@[j]).1.wf() by {
                        if j != i {
                            assert(self.peers@[j] == e0[j]);
                        }
                    }
                }
                seen
            },
            None => {
                if self.peers.len() >= RECENT_DM_PEERS_CAPACITY {
                    let j = least_recent_index(&self.peers);
                    let ghost s = e0[j as int].0@;
                    proof {
                        lemma_key_map_at(e0, j as int);
                        assert forall|o: Seq<char>| #[trigger] recent_view(e0).contains_key(o) implies recent_view(
                            e0,
                        )[s].1 <= recent_view(e0)[o].1 by {
                            let m = choose|m: int| 0 <= m < e0.len() && (#[trigger] e0[m]).0@ == o;
                            lemma_key_map_at(e0, m);
                        }
                        lemma_key_map_remove(e0, j as int);
                        crate::keyed::lemma_map_values_remove(
                            key_map(e0),
                            s,
                            |r: RecentIds| recent_entry(r),
                        );
                    }
                    self.peers.remove(j);
                    proof {
                        assert forall|m: int| 0 <= m < self.peers@.len() implies (
                        #[trigger] self.peers@[m]).1.wf() by {
                            if m < j {
                                assert(self.peers@[m] == e0[m]);
                            } else {
                                assert(self.peers@[m] == e0[m + 1]);
                            }
                        }
                    }
                }
                let ghost e1 = self.peers@;
                let mut r = RecentIds::new();
                r.last_used = self.clock;
                let seen = r.check_and_insert(id);
                self.peers.push((key, r));
                proof {
                    lemma_key_map_push(e1, key, r);
                    crate::keyed::lemma_map_values_insert(
                        key_map(e1),
                        key@,
                        r,
                        |r: RecentIds| recent_entry(r),
                    );
                    lemma_recent_view_len(self.peers@);
                    assert forall|m: int| 0 <= m < self.peers@.len() implies (
                    #[trigger] self.peers@[m]).1.wf() by {
                        if m < e1.len() {
                            assert(self.peers@[m] == e1[m]);
                        }
                    }
                }
                seen
            },
        }
    }
}

/// DM close reasons.
pub const CLOSE_STALE_DM_CONNECTION: &'static str = "stale_dm_connection";

pub const CLOSE_DM_PEER_REJOINED: &'static str = "peer_rejoined_gossip";

pub const CLOSE_DM_SUPERSEDED_BY_REDIAL: &'static str = "superseded_by_redial";

pub const CLOSE_DUPLICATE_DM_CONNECTION: &'static str = "duplicate_dm_connection";

pub const CLOSE_REPLACED_DM_CONNECTION: &'static str = "replaced_dm_connection";

pub const CLOSE_DUPLICATE_DM_DRAINED: &'static str = "duplicate_dm_drained";

pub const CLOSE_DM_STREAM_STALLED: &'static str = "dm_stream_stalled";

pub const CLOSE_DM_WRITE_FAILED: &'static str = "dm_write_failed";

pub const CLOSE_DM_ENTRY_PREDATES_REJOIN: &'static str = "dm_entry_predates_rejoin";

pub const CLOSE_DM_CLOSED: &'static str = "dm_closed";

/// Dial timeout of a DM connection, milliseconds.
pub const DM_DIAL_TIMEOUT_MS: u64 = 12000;

/// How long a duplicate DM path is drained for one frame, milliseconds.
pub const DM_DUPLICATE_DRAIN_TIMEOUT_MS: u64 = 2000;

/// How long to wait for another DM connect attempt to finish, milliseconds.
pub const DM_CONNECT_WAIT_TIMEOUT_MS: u64 = 21000;

/// A single DM frame write must complete within this many milliseconds.
pub const DM_WRITE_TIMEOUT_MS: u64 = 10000;

/// What is known of a peer's existing DM entry.
#[derive(Debug, Clone, Copy, PartialEq, Eq)]
pub struct ExistingDmEntry {
    pub connection_id: usize,
    pub direction: ConnectionDirection,
    pub ownership: DmConnectionOwnership,
    /// Its connection is already closed.
    pub closed: bool,
    /// Its send stream is still in place (it is gone after a reset or finish).
    pub has_send_stream: bool,
    /// It was established before the peer's latest presence rejoin.
    pub predates_rejoin: bool,
}

/// Whether an existing DM entry can no longer carry frames and must be
/// evicted before any arbitration: its connection is closed or its send
/// stream is gone. An entry on `keep_connection_id` is the same connection
/// presenting its stream again and is left alone.
pub fn dm_entry_is_stale(entry: &ExistingDmEntry, keep_connection_id: Option<usize>) -> (b: bool)
    ensures
        b == (keep_connection_id != Some(entry.connection_id) && (entry.closed
            || !entry.has_send_stream)),
{
    let kept = match keep_connection_id {
        Some(k) => k == entry.connection_id,
        None => false,
    };
    !kept && (entry.closed || !entry.has_send_stream)
}

/// What to do about an existing DM entry when a candidate is registered.
#[derive(Debug, Clone, Copy, PartialEq, Eq, Structural)]
pub enum DmEviction {
    /// Keep the existing entry.
    Keep,
    /// Remove it (scoped to its connection) and close it as stale.
    Stale,
    /// Remove it and close it: the peer rejoined after it was made.
    PeerRejoined,
    /// Remove it and close it: the initiator re-dialed.
    SupersededByRedial,
}

pub open spec fn incoming_dm_spec(
    existing: Option<ExistingDmEntry>,
    candidate: ConnectionDirection,
    local: Option<Seq<u8>>,
    remote: Seq<u8>,
) -> (DmEviction, DmDecision) {
    match existing {
        None => (DmEviction::Keep, DmDecision::Store),
        Some(e) => if e.closed || !e.has_send_stream {
            (DmEviction::Stale, DmDecision::Store)
        } else if candidate == ConnectionDirection::Inbound && e.predates_rejoin {
            (DmEviction::PeerRejoined, DmDecision::Store)
        } else {
            match arbitration_spec(local, remote, e.direction, candidate) {
                DmArbitration::Redial => (DmEviction::SupersededByRedial, DmDecision::Store),
                DmArbitration::CandidateWins => (DmEviction::Keep, DmDecision::Store),
                DmArbitration::ExistingWins => (DmEviction::Keep, DmDecision::DrainDuplicate),
                DmArbitration::Undecidable => (DmEviction::Keep, DmDecision::CloseDuplicate),
            }
        },
    }
}

/// Decides on a new dedicated DM connection from `remote_peer_id`: a stale
/// or pre-rejoin entry is evicted first; otherwise a redial replaces the
/// entry and a crossed dial goes by the tie-break (drained when the existing
/// entry wins, closed when our id is unknown).
pub fn incoming_dm_decision(
    existing: Option<ExistingDmEntry>,
    candidate_direction: ConnectionDirection,
    local_node_id: Option<&str>,
    remote_peer_id: &str,
) -> (r: (DmEviction, DmDecision))
    ensures
        r == incoming_dm_spec(
            existing,
            candidate_direction,
            match local_node_id {
                Some(l) => Some(l.spec_bytes()),
                None => None,
            },
            remote_peer_id.spec_bytes(),
        ),
{
    match existing {
        None => (DmEviction::Keep, DmDecision::Store),
        Some(e) => {
            if dm_entry_is_stale(&e, None) {
                (DmEviction::Stale, DmDecision::Store)
            } else if candidate_direction == ConnectionDirection::Inbound && e.predates_rejoin {
                (DmEviction::PeerRejoined, DmDecision::Store)
            } else {
                match arbitrate_dm_candidate(
                    local_node_id,
                    remote_peer_id,
                    e.direction,
                    candidate_direction,
                ) {
                    DmArbitration::Redial => (DmEviction::SupersededByRedial, DmDecision::Store),
                    DmArbitration::CandidateWins => (DmEviction::Keep, DmDecision::Store),
                    DmArbitration::ExistingWins => (DmEviction::Keep, DmDecision::DrainDuplicate),
                    DmArbitration::Undecidable => (DmEviction::Keep, DmDecision::CloseDuplicate),
                }
            }
        },
    }
}

/// How a DM stream is stored against a live entry, in terms of the inputs:
/// with no entry it is inserted; a redial (an entry on another connection
/// in the same direction) replaces the entry and closes the old connection;
/// in a crossed dial whose tie-break can be evaluated, the candidate is
/// stored (finishing only the old stream, since the remote resolves the
/// tie-break the other way round) exactly when its direction is the
/// preferred one, and otherwise the existing path wins (a dedicated
/// candidate is drained first).
pub proof fn lemma_dm_store_rules(
    candidate: ConnectionDirection,
    ownership: DmConnectionOwnership,
    local: Seq<u8>,
    remote: Seq<u8>,
)
    ensures
        store_action_spec(None, candidate, ownership, Some(local), remote) == (DmStoreAction::Insert {
            close_replaced: true,
        }),
        store_action_spec(None, candidate, ownership, None, remote) == (DmStoreAction::Insert {
            close_replaced: true,
        }),
        store_action_spec(Some((false, candidate)), candidate, ownership, Some(local), remote) == (
        DmStoreAction::Insert { close_replaced: true }),
        store_action_spec(Some((false, candidate)), candidate, ownership, None, remote) == (
        DmStoreAction::Insert { close_replaced: true }),
        candidate == preferred_direction(local, remote) ==> store_action_spec(
            Some((false, flip(candidate))),
            candidate,
            ownership,
            Some(local),
            remote,
        ) == (DmStoreAction::Insert { close_replaced: false }),
        candidate != preferred_direction(local, remote) ==> store_action_spec(
            Some((false, flip(candidate))),
            candidate,
            ownership,
            Some(local),
            remote,
        ) == DmStoreAction::Ignore(
            if ownership == DmConnectionOwnership::Dedicated {
                DmDecision::DrainDuplicate
            } else {
                DmDecision::CloseDuplicate
            },
        ),
        store_action_spec(Some((true, candidate)), candidate, DmConnectionOwnership::Dedicated, Some(local), remote)
            == DmStoreAction::Reattach,
{
}

/// How a new dedicated DM connection is decided against a live entry (its
/// connection open and its stream in place, and no rejoin since it was made
/// for an inbound candidate): a redial in the same direction evicts the
/// entry and is stored; in a crossed dial the candidate is stored, keeping
/// the entry, exactly when its direction is the preferred one, and is
/// drained as a duplicate otherwise. A dead entry is always evicted first
/// and the candidate stored, and with no entry the candidate is stored.
pub proof fn lemma_incoming_dm_rules(
    e: ExistingDmEntry,
    candidate: ConnectionDirection,
    local: Seq<u8>,
    remote: Seq<u8>,
)
    ensures
        incoming_dm_spec(None, candidate, Some(local), remote) == (DmEviction::Keep, DmDecision::Store),
        (e.closed || !e.has_send_stream) ==> incoming_dm_spec(Some(e), candidate, Some(local), remote)
            == (DmEviction::Stale, DmDecision::Store),
        (!e.closed && e.has_send_stream && !(candidate == ConnectionDirection::Inbound
            && e.predates_rejoin)) ==> {
            &&& e.direction == candidate ==> incoming_dm_spec(Some(e), candidate, Some(local), remote)
                == (DmEviction::SupersededByRedial, DmDecision::Store)
            &&& (e.direction != candidate && candidate == preferred_direction(local, remote))
                ==> incoming_dm_spec(Some(e), candidate, Some(local), remote) == (
            DmEviction::Keep, DmDecision::Store)
            &&& (e.direction != candidate && candidate != preferred_direction(local, remote))
                ==> incoming_dm_spec(Some(e), candidate, Some(local), remote) == (
            DmEviction::Keep, DmDecision::DrainDuplicate)
        },
{
}

/// How a DM stream offered for storage is handled against a live entry.
#[derive(Debug, Clone, Copy, PartialEq, Eq, Structural)]
pub enum DmStoreAction {
    /// The entry's own connection presents its stream again: put the send
    /// half into the entry's slot.
    Reattach,
    /// Store the candidate. The replaced entry (if any) is closed when
    /// `close_replaced` (if owned), else only its send stream is finished,
    /// since the remote resolves the same tie-break the other way round.
    Insert { close_replaced: bool },
    /// The existing path wins: close the candidate (if owned) as a duplicate.
    CloseCandidate,
    /// The existing path wins: answer with this decision without closing.
    Ignore(DmDecision),
}

pub open spec fn store_action_spec(
    existing: Option<(bool, ConnectionDirection)>,
    candidate: ConnectionDirection,
    ownership: DmConnectionOwnership,
    local: Option<Seq<u8>>,
    remote: Seq<u8>,
) -> DmStoreAction {
    match existing {
        None => DmStoreAction::Insert { close_replaced: true },
        Some((same_connection, direction)) => if same_connection {
            if ownership == DmConnectionOwnership::SharedCall {
                DmStoreAction::Ignore(DmDecision::CloseDuplicate)
            } else {
                DmStoreAction::Reattach
            }
        } else {
            match arbitration_spec(local, remote, direction, candidate) {
                DmArbitration::Redial => DmStoreAction::Insert { close_replaced: true },
                DmArbitration::CandidateWins => DmStoreAction::Insert { close_replaced: false },
                DmArbitration::ExistingWins => if ownership == DmConnectionOwnership::Dedicated {
                    DmStoreAction::Ignore(DmDecision::DrainDuplicate)
                } else {
                    DmStoreAction::Ignore(DmDecision::CloseDuplicate)
                },
                DmArbitration::Undecidable => DmStoreAction::CloseCandidate,
            }
        },
    }
}

/// Decides how to store a DM stream (after stale entries were evicted).
/// `existing` tells whether the live entry is on the candidate's own
/// connection, and its direction.
pub fn dm_store_action(
    existing: Option<(bool, ConnectionDirection)>,
    candidate_direction: ConnectionDirection,
    ownership: DmConnectionOwnership,
    local_node_id: Option<&str>,
    remote_peer_id: &str,
) -> (a: DmStoreAction)
    ensures
        a == store_action_spec(
            existing,
            candidate_direction,
            ownership,
            match local_node_id {
                Some(l) => Some(l.spec_bytes()),
                None => None,
            },
            remote_peer_id.spec_bytes(),
        ),
{
    match existing {
        None => DmStoreAction::Insert { close_replaced: true },
        Some((same_connection, direction)) => {
            if same_connection {
                if ownership == DmConnectionOwnership::SharedCall {
                    DmStoreAction::Ignore(DmDecision::CloseDuplicate)
                } else {
                    DmStoreAction::Reattach
                }
            } else {
                match arbitrate_dm_candidate(
                    local_node_id,
                    remote_peer_id,
                    direction,
                    candidate_direction,
                ) {
                    DmArbitration::Redial => DmStoreAction::Insert { close_replaced: true },
                    DmArbitration::CandidateWins => DmStoreAction::Insert { close_replaced: false },
                    DmArbitration::ExistingWins => {
                        if ownership == DmConnectionOwnership::Dedicated {
                            DmStoreAction::Ignore(DmDecision::DrainDuplicate)
                        } else {
                            DmStoreAction::Ignore(DmDecision::CloseDuplicate)
                        }
                    },
                    DmArbitration::Undecidable => DmStoreAction::CloseCandidate,
                }
            }
        },
    }
}

/// The outcome of putting a re-presented stream's send half back into its
/// entry's slot: an occupied slot makes it a duplicate to drain; an entry
/// removed meanwhile leaves it stranded, so it is closed.
pub fn reattach_decision(slot_occupied: bool, still_registered: bool) -> (d: DmDecision)
    ensures
        d == (if slot_occupied {
            DmDecision::DrainDuplicate
        } else if !still_registered {
            DmDecision::CloseDuplicate
        } else {
            DmDecision::Store
        }),
{
    if slot_occupied {
        DmDecision::DrainDuplicate
    } else if !still_registered {
        DmDecision::CloseDuplicate
    } else {
        DmDecision::Store
    }
}

/// Where an incoming DM frame goes.
#[derive(Debug, Clone, PartialEq, Eq)]
pub enum DmRoute {
    /// Keep-alive: nothing to do.
    Ignore,
    /// A delivery acknowledgement: tell the frontend.
    Ack { id: String },
    /// Call signalling: handled on its own, never shown as a message.
    CallInvite { ticket: String },
    CallDecline,
    CallCancel,
    /// A text carrying an id: acknowledge it, and show it unless it was seen
    /// before.
    TextWithId { id: String },
    /// Anything else: file handling, then shown as a message.
    Deliver,
}

/// Routes a decoded DM frame.
pub fn route_dm(msg: &DmMessage) -> (r: DmRoute)
    ensures
        r == (match *msg {
            DmMessage::Heartbeat => DmRoute::Ignore,
            DmMessage::Ack { id } => DmRoute::Ack { id },
            DmMessage::CallInvite { ticket } => DmRoute::CallInvite { ticket },
            DmMessage::CallDecline => DmRoute::CallDecline,
            DmMessage::CallCancel => DmRoute::CallCancel,
            DmMessage::Text { id: Some(id), .. } => DmRoute::TextWithId { id },
            _ => DmRoute::Deliver,
        }),
{
    match msg {
        DmMessage::Heartbeat => DmRoute::Ignore,
        DmMessage::Ack { id } => DmRoute::Ack { id: id.clone() },
        DmMessage::CallInvite { ticket } => DmRoute::CallInvite { ticket: ticket.clone() },
        DmMessage::CallDecline => DmRoute::CallDecline,
        DmMessage::CallCancel => DmRoute::CallCancel,
        DmMessage::Text { id: Some(id), .. } => DmRoute::TextWithId { id: id.clone() },
        _ => DmRoute::Deliver,
    }
}

} // verus!
