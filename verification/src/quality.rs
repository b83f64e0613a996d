//! Outbound video quality control.
//!
//! One controller owns the "how hard can we push video" decision. It runs on
//! the 1 s stats tick and looks, per peer, only at signals that mean the path
//! is actually congested: video frames the writer had to skip or abandon,
//! packet loss during the tick, and queueing delay (RTT above that peer's
//! recent minimum; absolute RTT is not a congestion signal).
//!
//! It steps down quickly and recovers slowly (hysteresis) so the encoder isn't
//! reconfigured every tick. The shared encoder follows the worst peer.

use vstd::prelude::*;

verus! {

pub const MAX_LEVEL: u8 = 3;

/// Consecutive good ticks before stepping one level back up.
pub const RECOVER_AFTER_GOOD_TICKS: u32 = 8;

/// Minimum ticks between two step-downs, so one burst isn't counted twice.
pub const STEP_DOWN_COOLDOWN_TICKS: u32 = 2;

pub const RTT_WINDOW_TICKS: usize = 30;

pub const QUEUE_DELAY_BAD_MS: u64 = 200;

pub const LOST_PACKETS_BAD_PER_TICK: u64 = 25;

pub const DROPPED_FRAMES_BAD_PER_TICK: u32 = 2;

#[derive(Debug, Clone, Copy, Default, PartialEq, Eq)]
pub struct PeerSignal {
    pub rtt_ms: u64,
    pub lost_packets: u64,
    pub dropped_video_frames: u32,
}

/// The controller's state for one peer.
pub struct PeerStateModel {
    pub level: u8,
    pub good_ticks: u32,
    pub ticks_since_step_down: u32,
    /// Recent non-zero RTT samples, oldest first.
    pub rtt_samples: Seq<u64>,
}

/// The state a peer starts from when it first appears.
pub open spec fn fresh_peer_state() -> PeerStateModel {
    PeerStateModel { level: 0, good_ticks: 0, ticks_since_step_down: 0, rtt_samples: Seq::empty() }
}

/// The smallest element of a non-empty sequence.
pub open spec fn seq_min(s: Seq<u64>) -> u64
    decreases s.len(),
{
    if s.len() <= 1 {
        s[0]
    } else {
        let m = seq_min(s.drop_last());
        if s.last() < m {
            s.last()
        } else {
            m
        }
    }
}

/// RTT above the peer's minimum over the window before this tick (0 when
/// there is no earlier sample or the RTT is below it).
pub open spec fn queue_delay(samples: Seq<u64>, rtt_ms: u64) -> int {
    if samples.len() == 0 {
        0
    } else if rtt_ms >= seq_min(samples) {
        rtt_ms - seq_min(samples)
    } else {
        0
    }
}

/// Whether a tick's signals say the path to the peer is congested.
pub open spec fn is_congested(samples: Seq<u64>, sig: PeerSignal) -> bool {
    sig.dropped_video_frames >= DROPPED_FRAMES_BAD_PER_TICK || sig.lost_packets
        >= LOST_PACKETS_BAD_PER_TICK || queue_delay(samples, sig.rtt_ms) >= QUEUE_DELAY_BAD_MS
}

/// The window of RTT samples after this tick: a non-zero RTT is appended,
/// and the oldest sample drops out beyond the window size.
pub open spec fn next_rtt_samples(samples: Seq<u64>, rtt_ms: u64) -> Seq<u64> {
    if rtt_ms > 0 {
        let pushed = samples.push(rtt_ms);
        if pushed.len() > RTT_WINDOW_TICKS {
            pushed.drop_first()
        } else {
            pushed
        }
    } else {
        samples
    }
}

pub open spec fn sat_inc(x: u32) -> u32 {
    if x == u32::MAX {
        x
    } else {
        (x + 1) as u32
    }
}

/// One tick of one peer: on congestion, step one level down unless at the
/// bottom or within the cooldown; otherwise count a good tick and step one
/// level back up after enough consecutive good ticks.
pub open spec fn peer_step(st: PeerStateModel, sig: PeerSignal) -> PeerStateModel {
    let tsd = sat_inc(st.ticks_since_step_down);
    let samples = next_rtt_samples(st.rtt_samples, sig.rtt_ms);
    if is_congested(st.rtt_samples, sig) {
        if st.level < MAX_LEVEL && tsd >= STEP_DOWN_COOLDOWN_TICKS {
            PeerStateModel {
                level: (st.level + 1) as u8,
                good_ticks: 0,
                ticks_since_step_down: 0,
                rtt_samples: samples,
            }
        } else {
            PeerStateModel {
                level: st.level,
                good_ticks: 0,
                ticks_since_step_down: tsd,
                rtt_samples: samples,
            }
        }
    } else {
        let good = sat_inc(st.good_ticks);
        if good >= RECOVER_AFTER_GOOD_TICKS && st.level > 0 {
            PeerStateModel {
                level: (st.level - 1) as u8,
                good_ticks: 0,
                ticks_since_step_down: tsd,
                rtt_samples: samples,
            }
        } else {
            PeerStateModel {
                level: st.level,
                good_ticks: good,
                ticks_since_step_down: tsd,
                rtt_samples: samples,
            }
        }
    }
}

/// Whether some signal is for `id`.
pub open spec fn signalled(signals: Seq<(Seq<char>, PeerSignal)>, id: Seq<char>) -> bool {
    exists|i: int| 0 <= i < signals.len() && (#[trigger] signals[i]).0 == id
}

/// Processing the first `n` signals in order, from the peer states `m`:
/// the states after them and the highest level reached by one of them.
pub open spec fn tick_fold(
    m: Map<Seq<char>, PeerStateModel>,
    signals: Seq<(Seq<char>, PeerSignal)>,
    n: nat,
) -> (Map<Seq<char>, PeerStateModel>, u8)
    decreases n,
{
    if n == 0 {
        (m, 0)
    } else {
        let (m1, worst) = tick_fold(m, signals, (n - 1) as nat);
        let (id, sig) = signals[n - 1];
        let st = if m1.contains_key(id) {
            m1[id]
        } else {
            fresh_peer_state()
        };
        let st2 = peer_step(st, sig);
        (m1.insert(id, st2), if st2.level > worst {
            st2.level
        } else {
            worst
        })
    }
}

/// One tick of the controller: peers without a signal are forgotten, every
/// signal is applied in order, and the level for the shared encoder is the
/// highest level any signalled peer reaches.
pub open spec fn tick_spec(
    m: Map<Seq<char>, PeerStateModel>,
    signals: Seq<(Seq<char>, PeerSignal)>,
) -> (Map<Seq<char>, PeerStateModel>, u8) {
    tick_fold(m.restrict(Set::new(|id: Seq<char>| signalled(signals, id))), signals, signals.len())
}

/// A peer state the controller can be in.
pub open spec fn peer_state_wf(st: PeerStateModel) -> bool {
    st.level <= MAX_LEVEL && st.rtt_samples.len() <= RTT_WINDOW_TICKS
}

/// One tick moves a peer at most one level, never towards more quality on
/// congestion nor towards less without it; a step back up needs enough good
/// ticks in a row; and the level stays within range.
pub proof fn lemma_peer_step_hysteresis(st: PeerStateModel, sig: PeerSignal)
    requires
        peer_state_wf(st),
    ensures
        peer_state_wf(peer_step(st, sig)),
        peer_step(st, sig).level <= st.level + 1,
        peer_step(st, sig).level + 1 >= st.level,
        is_congested(st.rtt_samples, sig) ==> peer_step(st, sig).level >= st.level,
        !is_congested(st.rtt_samples, sig) ==> peer_step(st, sig).level <= st.level,
        peer_step(st, sig).level < st.level ==> sat_inc(st.good_ticks)
            >= RECOVER_AFTER_GOOD_TICKS,
{
}

/// The fold keeps every state well-formed, and the level it reports is
/// within range and equals the level of some processed signal's peer (or 0
/// with no signals).
proof fn lemma_tick_fold(
    m: Map<Seq<char>, PeerStateModel>,
    signals: Seq<(Seq<char>, PeerSignal)>,
    n: nat,
)
    requires
        n <= signals.len(),
        forall|id: Seq<char>| m.contains_key(id) ==> peer_state_wf(#[trigger] m[id]),
    ensures
        forall|id: Seq<char>|
            tick_fold(m, signals, n).0.contains_key(id) ==> peer_state_wf(
                #[trigger] tick_fold(m, signals, n).0[id],
            ),
        tick_fold(m, signals, n).1 <= MAX_LEVEL,
        forall|id: Seq<char>|
            #[trigger] tick_fold(m, signals, n).0.contains_key(id) <==> (m.contains_key(id) || exists|
                i: int,
            | 0 <= i < n && (#[trigger] signals[i]).0 == id),
    decreases n,
{
    if n > 0 {
        lemma_tick_fold(m, signals, (n - 1) as nat);
        let (m1, worst) = tick_fold(m, signals, (n - 1) as nat);
        let (id, sig) = signals[n - 1];
        let st = if m1.contains_key(id) {
            m1[id]
        } else {
            fresh_peer_state()
        };
        lemma_peer_step_hysteresis(st, sig);
        let m2 = tick_fold(m, signals, n).0;
        assert forall|k: Seq<char>| #[trigger] m2.contains_key(k) <==> (m.contains_key(k) || exists|
            i: int,
        | 0 <= i < n && (#[trigger] signals[i]).0 == k) by {
            if k == id {
                assert(signals[n - 1].0 == k);
            }
            if exists|i: int| 0 <= i < n && (#[trigger] signals[i]).0 == k {
                let i = choose|i: int| 0 <= i < n && (#[trigger] signals[i]).0 == k;
                if i < n - 1 {
                    assert(m1.contains_key(k));
                }
            }
        }
    }
}

/// The laws of a tick: the peers remembered afterwards are exactly those
/// signalled, every state stays well-formed, and the returned level is at
/// most `MAX_LEVEL`.
pub proof fn lemma_tick_laws(
    m: Map<Seq<char>, PeerStateModel>,
    signals: Seq<(Seq<char>, PeerSignal)>,
)
    requires
        forall|id: Seq<char>| m.contains_key(id) ==> peer_state_wf(#[trigger] m[id]),
    ensures
        tick_spec(m, signals).1 <= MAX_LEVEL,
        forall|id: Seq<char>| #[trigger]
            tick_spec(m, signals).0.contains_key(id) <==> signalled(signals, id),
        forall|id: Seq<char>|
            tick_spec(m, signals).0.contains_key(id) ==> peer_state_wf(
                #[trigger] tick_spec(m, signals).0[id],
            ),
{
    let r = m.restrict(Set::new(|id: Seq<char>| signalled(signals, id)));
    lemma_tick_fold(r, signals, signals.len());
    assert forall|id: Seq<char>| #[trigger]
        tick_spec(m, signals).0.contains_key(id) <==> signalled(signals, id) by {
        if signalled(signals, id) {
            let i = choose|i: int| 0 <= i < signals.len() && (#[trigger] signals[i]).0 == id;
            assert(signals[i].0 == id);
        }
    }
}

/// Exec state of one peer.
#[derive(Debug)]
pub struct PeerState {
    level: u8,
    good_ticks: u32,
    ticks_since_step_down: u32,
    rtt_samples: Vec<u64>,
}

impl PeerState {
    pub closed spec fn model(&self) -> PeerStateModel {
        PeerStateModel {
            level: self.level,
            good_ticks: self.good_ticks,
            ticks_since_step_down: self.ticks_since_step_down,
            rtt_samples: self.rtt_samples@,
        }
    }

    fn fresh() -> (st: Self)
        ensures
            st.model() == fresh_peer_state(),
    {
        PeerState { level: 0, good_ticks: 0, ticks_since_step_down: 0, rtt_samples: Vec::new() }
    }

    fn step(&mut self, sig: PeerSignal)
        requires
            peer_state_wf(old(self).model()),
        ensures
            final(self).model() == peer_step(old(self).model(), sig),
    {
        let ghost st = self.model();
        self.ticks_since_step_down = self.ticks_since_step_down.saturating_add(1);
        let min_rtt = min_sample(&self.rtt_samples);
        if sig.rtt_ms > 0 {
            self.rtt_samples.push(sig.rtt_ms);
            if self.rtt_samples.len() > RTT_WINDOW_TICKS {
                self.rtt_samples.remove(0);
            }
        }
        let queue_delay_ms: u64 = match min_rtt {
            Some(min) => sig.rtt_ms.saturating_sub(min),
            None => 0,
        };
        let congested = sig.dropped_video_frames >= DROPPED_FRAMES_BAD_PER_TICK || sig.lost_packets
            >= LOST_PACKETS_BAD_PER_TICK || queue_delay_ms >= QUEUE_DELAY_BAD_MS;
        if congested {
            self.good_ticks = 0;
            if self.level < MAX_LEVEL && self.ticks_since_step_down >= STEP_DOWN_COOLDOWN_TICKS {
                self.level = self.level + 1;
                self.ticks_since_step_down = 0;
            }
        } else {
            self.good_ticks = self.good_ticks.saturating_add(1);
            if self.good_ticks >= RECOVER_AFTER_GOOD_TICKS && self.level > 0 {
                self.level = self.level - 1;
                self.good_ticks = 0;
            }
        }
        proof {
            let pushed = st.rtt_samples.push(sig.rtt_ms);
            if sig.rtt_ms > 0 && pushed.len() > RTT_WINDOW_TICKS {
                assert(self.rtt_samples@ =~= pushed.drop_first());
            }
        }
    }
}

/// The smallest sample, if any.
fn min_sample(samples: &Vec<u64>) -> (m: Option<u64>)
    ensures
        samples@.len() == 0 ==> m is None,
        samples@.len() > 0 ==> m == Some(seq_min(samples@)),
{
    if samples.len() == 0 {
        return None;
    }
    let mut cur = samples[0];
    let mut i: usize = 1;
    proof {
        assert(samples@.take(1) =~= seq![samples@[0]]);
    }
    while i < samples.len()
        invariant
            1 <= i <= samples@.len(),
            cur == seq_min(samples@.take(i as int)),
        decreases samples@.len() - i,
    {
        proof {
            assert(samples@.take(i + 1).drop_last() =~= samples@.take(i as int));
        }
        if samples[i] < cur {
            cur = samples[i];
        }
        i = i + 1;
    }
    proof {
        assert(samples@.take(i as int) =~= samples@);
    }
    Some(cur)
}

/// The map of peer states that a list of `(peer id, state)` entries with
/// distinct ids stands for.
pub open spec fn entries_map(entries: Seq<(Seq<char>, PeerStateModel)>) -> Map<
    Seq<char>,
    PeerStateModel,
> {
    Map::new(
        |k: Seq<char>| exists|i: int| 0 <= i < entries.len() && (#[trigger] entries[i]).0 == k,
        |k: Seq<char>|
            entries[choose|i: int| 0 <= i < entries.len() && (#[trigger] entries[i]).0 == k].1,
    )
}

pub open spec fn distinct_ids(entries: Seq<(Seq<char>, PeerStateModel)>) -> bool {
    forall|i: int, j: int|
        0 <= i < j < entries.len() ==> (#[trigger] entries[i]).0 != (#[trigger] entries[j]).0
}

proof fn lemma_entries_map_at(entries: Seq<(Seq<char>, PeerStateModel)>, i: int)
    requires
        distinct_ids(entries),
        0 <= i < entries.len(),
    ensures
        entries_map(entries).contains_key(entries[i].0),
        entries_map(entries)[entries[i].0] == entries[i].1,
{
    let k = entries[i].0;
    assert(entries[i].0 == k);
    let j = choose|j: int| 0 <= j < entries.len() && (#[trigger] entries[j]).0 == k;
    if j != i {
        if j < i {
            assert(entries[j].0 != entries[i].0);
        } else {
            assert(entries[i].0 != entries[j].0);
        }
    }
}

proof fn lemma_entries_map_update(
    entries: Seq<(Seq<char>, PeerStateModel)>,
    i: int,
    st: PeerStateModel,
)
    requires
        distinct_ids(entries),
        0 <= i < entries.len(),
    ensures
        distinct_ids(entries.update(i, (entries[i].0, st))),
        entries_map(entries.update(i, (entries[i].0, st))) == entries_map(entries).insert(
            entries[i].0,
            st,
        ),
{
    let e2 = entries.update(i, (entries[i].0, st));
    assert forall|a: int, b: int| 0 <= a < b < e2.len() implies (#[trigger] e2[a]).0 != (
    #[trigger] e2[b]).0 by {
        assert(entries[a].0 != entries[b].0);
    }
    let m1 = entries_map(e2);
    let m2 = entries_map(entries).insert(entries[i].0, st);
    assert forall|k: Seq<char>| m1.contains_key(k) <==> m2.contains_key(k) by {
        assert(e2[i].0 == entries[i].0);
        assert(entries[i].0 == entries[i].0);
        if m2.contains_key(k) && k != entries[i].0 {
            let j = choose|j: int| 0 <= j < entries.len() && (#[trigger] entries[j]).0 == k;
            assert(e2[j].0 == k);
        }
        if m1.contains_key(k) {
            let j = choose|j: int| 0 <= j < e2.len() && (#[trigger] e2[j]).0 == k;
            assert(entries[j].0 == k);
        }
    }
    assert forall|k: Seq<char>| m1.contains_key(k) implies m1[k] == m2[k] by {
        let j = choose|j: int| 0 <= j < e2.len() && (#[trigger] e2[j]).0 == k;
        lemma_entries_map_at(e2, j);
        if j != i {
            lemma_entries_map_at(entries, j);
        }
    }
    assert(m1 =~= m2);
}

proof fn lemma_entries_map_push(
    entries: Seq<(Seq<char>, PeerStateModel)>,
    k: Seq<char>,
    st: PeerStateModel,
)
    requires
        distinct_ids(entries),
        !entries_map(entries).contains_key(k),
    ensures
        distinct_ids(entries.push((k, st))),
        entries_map(entries.push((k, st))) == entries_map(entries).insert(k, st),
{
    let e2 = entries.push((k, st));
    assert forall|a: int, b: int| 0 <= a < b < e2.len() implies (#[trigger] e2[a]).0 != (
    #[trigger] e2[b]).0 by {
        if b == entries.len() {
            assert(entries[a].0 == e2[a].0);
        } else {
            assert(entries[a].0 != entries[b].0);
        }
    }
    let m1 = entries_map(e2);
    let m2 = entries_map(entries).insert(k, st);
    assert forall|x: Seq<char>| m1.contains_key(x) <==> m2.contains_key(x) by {
        if m2.contains_key(x) && x != k {
            let j = choose|j: int| 0 <= j < entries.len() && (#[trigger] entries[j]).0 == x;
            assert(e2[j].0 == x);
        }
        if m1.contains_key(x) && x != k {
            let j = choose|j: int| 0 <= j < e2.len() && (#[trigger] e2[j]).0 == x;
            assert(entries[j].0 == x);
        }
        if x == k {
            assert(e2[entries.len() as int].0 == k);
        }
    }
    assert forall|x: Seq<char>| m1.contains_key(x) implies m1[x] == m2[x] by {
        let j = choose|j: int| 0 <= j < e2.len() && (#[trigger] e2[j]).0 == x;
        lemma_entries_map_at(e2, j);
        if j < entries.len() {
            lemma_entries_map_at(entries, j);
        }
    }
    assert(m1 =~= m2);
}

#[derive(Debug)]
pub struct SendQualityController {
    peers: Vec<(String, PeerState)>,
}

impl SendQualityController {
    pub closed spec fn entries(&self) -> Seq<(Seq<char>, PeerStateModel)> {
        self.peers@.map_values(|e: (String, PeerState)| (e.0@, e.1.model()))
    }

    /// The peer states, by peer id.
    pub closed spec fn view(&self) -> Map<Seq<char>, PeerStateModel> {
        entries_map(self.entries())
    }

    /// Distinct peer ids and well-formed peer states.
    pub closed spec fn wf(&self) -> bool {
        &&& distinct_ids(self.entries())
        &&& forall|i: int| 0 <= i < self.peers@.len() ==> peer_state_wf(#[trigger] self.peers@[i].1.model())
    }

    pub fn new() -> (c: Self)
        ensures
            c.view() == Map::<Seq<char>, PeerStateModel>::empty(),
            c.wf(),
    {
        let c = SendQualityController { peers: Vec::new() };
        assert(c.view() =~= Map::<Seq<char>, PeerStateModel>::empty());
        c
    }

    /// Feed one tick of per-peer signals; returns the level for the shared
    /// encoder (0 = full quality … `MAX_LEVEL` = most constrained).
    pub fn tick(&mut self, signals: &[(String, PeerSignal)]) -> (level: u8)
        requires
            old(self).wf(),
        ensures
            final(self).wf(),
            (final(self).view(), level) == tick_spec(
                old(self).view(),
                signals@.map_values(|s: (String, PeerSignal)| (s.0@, s.1)),
            ),
            level <= MAX_LEVEL,
    {
        let ghost sigs = signals@.map_values(|s: (String, PeerSignal)| (s.0@, s.1));
        proof {
            assert forall|id: Seq<char>| self.view().contains_key(id) implies peer_state_wf(
                #[trigger] self.view()[id],
            ) by {
                let j = choose|j: int|
                    0 <= j < self.entries().len() && (#[trigger] self.entries()[j]).0 == id;
                lemma_entries_map_at(self.entries(), j);
                assert(self.entries()[j].1 == self.peers@[j].1.model());
            }
            lemma_tick_laws(self.view(), sigs);
        }
        self.retain_signalled(signals);
        let mut worst: u8 = 0;
        let mut n: usize = 0;
        while n < signals.len()
            invariant
                n <= signals@.len(),
                sigs == signals@.map_values(|s: (String, PeerSignal)| (s.0@, s.1)),
                self.wf(),
                (self.view(), worst) == tick_fold(
                    old(self).view().restrict(Set::new(|id: Seq<char>| signalled(sigs, id))),
                    sigs,
                    n as nat,
                ),
            decreases signals@.len() - n,
        {
            let ghost before = self.view();
            let idx = self.find(&signals[n].0);
            let ghost id = sigs[n as int].0;
            let i = match idx {
                Some(i) => i,
                None => {
                    let ghost e0 = self.entries();
                    self.peers.push((signals[n].0.clone(), PeerState::fresh()));
                    proof {
                        lemma_entries_map_push(e0, id, fresh_peer_state());
                        assert(self.entries() =~= e0.push((id, fresh_peer_state())));
                    }
                    self.peers.len() - 1
                },
            };
            proof {
                lemma_entries_map_at(self.entries(), i as int);
            }
            let ghost e1 = self.entries();
            let ghost mid = self.view();
            let (pid, mut st) = self.peers.remove(i);
            st.step(signals[n].1);
            let level = st.level;
            self.peers.insert(i, (pid, st));
            proof {
                assert(self.entries() =~= e1.update(i as int, (id, peer_step(e1[i as int].1, sigs[n as int].1))));
                lemma_entries_map_update(e1, i as int, peer_step(e1[i as int].1, sigs[n as int].1));
                assert forall|j: int| 0 <= j < self.peers@.len() implies peer_state_wf(
                    #[trigger] self.peers@[j].1.model(),
                ) by {
                    if j != i {
                        assert(self.peers@[j].1.model() == e1[j].1);
                    } else {
                        lemma_peer_step_hysteresis(e1[i as int].1, sigs[n as int].1);
                    }
                }
            }
            if level > worst {
                worst = level;
            }
            n = n + 1;
        }
        worst
    }

    /// Index of the entry for `id`, if any.
    fn find(&self, id: &String) -> (idx: Option<usize>)
        requires
            self.wf(),
        ensures
            idx matches Some(i) ==> i < self.peers@.len() && self.entries()[i as int].0 == id@,
            idx is None ==> !self.view().contains_key(id@),
    {
        let mut i: usize = 0;
        while i < self.peers.len()
            invariant
                i <= self.peers@.len(),
                forall|j: int| 0 <= j < i ==> (#[trigger] self.entries()[j]).0 != id@,
            decreases self.peers@.len() - i,
        {
            if self.peers[i].0 == *id {
                return Some(i);
            }
            i = i + 1;
        }
        proof {
            if self.view().contains_key(id@) {
                let j = choose|j: int|
                    0 <= j < self.entries().len() && (#[trigger] self.entries()[j]).0 == id@;
            }
        }
        None
    }

    /// Forgets every peer that has no signal in `signals`.
    fn retain_signalled(&mut self, signals: &[(String, PeerSignal)])
        requires
            old(self).wf(),
        ensures
            final(self).wf(),
            final(self).view() == old(self).view().restrict(
                Set::new(
                    |id: Seq<char>|
                        signalled(signals@.map_values(|s: (String, PeerSignal)| (s.0@, s.1)), id),
                ),
            ),
    {
        let ghost sigs = signals@.map_values(|s: (String, PeerSignal)| (s.0@, s.1));
        let ghost keep = Set::new(|id: Seq<char>| signalled(sigs, id));
        let ghost e0 = self.entries();
        let mut i: usize = 0;
        let ghost mut j: int = 0;
        proof {
            assert(self.entries().take(0) =~= Seq::<(Seq<char>, PeerStateModel)>::empty());
            assert(e0.take(0) =~= Seq::<(Seq<char>, PeerStateModel)>::empty());
            assert(entries_map(Seq::<(Seq<char>, PeerStateModel)>::empty()) =~= Map::empty());
            assert(self.entries().skip(0) =~= e0.skip(0));
        }
        while i < self.peers.len()
            invariant
                0 <= i <= j <= e0.len(),
                self.entries().len() == i + (e0.len() - j),
                self.entries().skip(i as int) == e0.skip(j),
                distinct_ids(e0),
                forall|k: int| 0 <= k < e0.len() ==> peer_state_wf(#[trigger] e0[k].1),
                self.wf(),
                entries_map(self.entries().take(i as int)) == entries_map(e0.take(j)).restrict(keep),
                sigs == signals@.map_values(|s: (String, PeerSignal)| (s.0@, s.1)),
                keep == Set::new(|id: Seq<char>| signalled(sigs, id)),
            decreases self.peers@.len() - i,
        {
            let ghost before = self.entries();
            proof {
                assert(before[i as int] == e0[j]) by {
                    assert(before.skip(i as int)[0] == e0.skip(j)[0]);
                }
                assert(e0.take(j + 1) =~= e0.take(j).push(e0[j]));
                assert forall|a: int, b: int| 0 <= a < b < e0.take(j + 1).len() implies (#[trigger] e0.take(j + 1)[a]).0 != (#[trigger] e0.take(j + 1)[b]).0 by {
                    assert(e0[a].0 != e0[b].0);
                }
                assert forall|a: int, b: int| 0 <= a < b < e0.take(j).len() implies (#[trigger] e0.take(j)[a]).0 != (#[trigger] e0.take(j)[b]).0 by {
                    assert(e0[a].0 != e0[b].0);
                }
                if entries_map(e0.take(j)).contains_key(e0[j].0) {
                    let a = choose|a: int| 0 <= a < e0.take(j).len() && (#[trigger] e0.take(j)[a]).0 == e0[j].0;
                    assert(e0[a].0 != e0[j].0);
                }
                lemma_entries_map_push(e0.take(j), e0[j].0, e0[j].1);
            }
            let wanted = signals_contain(signals, &self.peers[i].0);
            if wanted {
                proof {
                    assert(before.take(i + 1) =~= before.take(i as int).push(before[i as int]));
                    assert forall|a: int, b: int| 0 <= a < b < before.take(i as int).len() implies (#[trigger] before.take(i as int)[a]).0 != (#[trigger] before.take(i as int)[b]).0 by {
                        assert(before[a].0 != before[b].0);
                    }
                    if entries_map(before.take(i as int)).contains_key(e0[j].0) {
                        assert(entries_map(e0.take(j)).contains_key(e0[j].0));
                    }
                    lemma_entries_map_push(before.take(i as int), e0[j].0, e0[j].1);
                    assert(entries_map(before.take(i + 1)) =~= entries_map(e0.take(j + 1)).restrict(keep));
                    assert(before.skip(i + 1) =~= e0.skip(j + 1)) by {
                        assert forall|k: int| 0 <= k < before.skip(i + 1).len() implies #[trigger] before.skip(i + 1)[k] == e0.skip(j + 1)[k] by {
                            assert(before.skip(i as int)[k + 1] == e0.skip(j)[k + 1]);
                        }
                    }
                }
                i = i + 1;
            } else {
                self.peers.remove(i);
                proof {
                    let after = self.entries();
                    assert(after =~= before.remove(i as int));
                    assert(after.take(i as int) =~= before.take(i as int));
                    assert(entries_map(after.take(i as int)) =~= entries_map(e0.take(j + 1)).restrict(keep));
                    assert(after.skip(i as int) =~= e0.skip(j + 1)) by {
                        assert forall|k: int| 0 <= k < after.skip(i as int).len() implies #[trigger] after.skip(i as int)[k] == e0.skip(j + 1)[k] by {
                            assert(before.skip(i as int)[k + 1] == e0.skip(j)[k + 1]);
                        }
                    }
                    assert forall|a: int, b: int| 0 <= a < b < after.len() implies (#[trigger] after[a]).0 != (#[trigger] after[b]).0 by {
                        let a2 = if a < i { a } else { a + 1 };
                        let b2 = if b < i { b } else { b + 1 };
                        assert(before[a2].0 != before[b2].0);
                    }
                    assert forall|k: int| 0 <= k < self.peers@.len() implies peer_state_wf(#[trigger] self.peers@[k].1.model()) by {
                        if k < i {
                            assert(after[k] == before[k]);
                        } else {
                            assert(after[k] == before[k + 1]);
                        }
                    }
                }
            }
            proof {
                j = j + 1;
            }
        }
        proof {
            assert(j == e0.len());
            assert(self.entries().take(i as int) =~= self.entries());
            assert(e0.take(j) =~= e0);
        }
    }
}

/// Whether some signal is for `id`.
fn signals_contain(signals: &[(String, PeerSignal)], id: &String) -> (b: bool)
    ensures
        b == signalled(signals@.map_values(|s: (String, PeerSignal)| (s.0@, s.1)), id@),
{
    let ghost sigs = signals@.map_values(|s: (String, PeerSignal)| (s.0@, s.1));
    let mut i: usize = 0;
    while i < signals.len()
        invariant
            i <= signals@.len(),
            sigs == signals@.map_values(|s: (String, PeerSignal)| (s.0@, s.1)),
            forall|j: int| 0 <= j < i ==> (#[trigger] sigs[j]).0 != id@,
        decreases signals@.len() - i,
    {
        if signals[i].0 == *id {
            assert(sigs[i as int].0 == id@);
            return true;
        }
        i = i + 1;
    }
    false
}

/// Base encoding profile chosen for the current call size.
#[derive(Debug, Clone, Copy, PartialEq, Eq)]
pub struct VideoProfile {
    pub bitrate_bps: u32,
    pub fps: u32,
    pub max_width: u32,
    pub max_height: u32,
}

/// What a level means for the encoder and capture: a share of the bitrate
/// (never below 80 kbps, never above the base), a frame-rate cap, and from
/// level 2 on a 320x180 frame cap.
pub open spec fn apply_level_spec(base: VideoProfile, level: u8) -> VideoProfile {
    let l = if level > MAX_LEVEL {
        MAX_LEVEL
    } else {
        level
    };
    let pct: int = if l == 0 {
        100
    } else if l == 1 {
        60
    } else if l == 2 {
        35
    } else {
        20
    };
    let fps_cap: int = if l == 0 {
        u32::MAX as int
    } else if l == 1 {
        8
    } else if l == 2 {
        6
    } else {
        5
    };
    let small = l >= 2;
    let scaled = base.bitrate_bps / 100 * pct;
    let floored = if scaled < 80_000 {
        80_000
    } else {
        scaled
    };
    VideoProfile {
        bitrate_bps: if floored > base.bitrate_bps {
            base.bitrate_bps
        } else {
            floored as u32
        },
        fps: if base.fps < fps_cap {
            base.fps
        } else {
            fps_cap as u32
        },
        max_width: if small && base.max_width > 320 {
            320
        } else {
            base.max_width
        },
        max_height: if small && base.max_height > 180 {
            180
        } else {
            base.max_height
        },
    }
}

pub fn apply_level(base: VideoProfile, level: u8) -> (p: VideoProfile)
    ensures
        p == apply_level_spec(base, level),
{
    let l = if level > MAX_LEVEL {
        MAX_LEVEL
    } else {
        level
    };
    let (bitrate_pct, fps_cap, small): (u32, u32, bool) = if l == 0 {
        (100, u32::MAX, false)
    } else if l == 1 {
        (60, 8, false)
    } else if l == 2 {
        (35, 6, true)
    } else {
        (20, 5, true)
    };
    let (max_width, max_height) = if small {
        (
            if base.max_width > 320 {
                320
            } else {
                base.max_width
            },
            if base.max_height > 180 {
                180
            } else {
                base.max_height
            },
        )
    } else {
        (base.max_width, base.max_height)
    };
    assert(base.bitrate_bps / 100 * bitrate_pct <= u32::MAX) by (nonlinear_arith)
        requires
            bitrate_pct <= 100,
    ;
    let scaled = base.bitrate_bps / 100 * bitrate_pct;
    let floored = if scaled < 80_000 {
        80_000
    } else {
        scaled
    };
    VideoProfile {
        bitrate_bps: if floored > base.bitrate_bps {
            base.bitrate_bps
        } else {
            floored
        },
        fps: if base.fps < fps_cap {
            base.fps
        } else {
            fps_cap
        },
        max_width,
        max_height,
    }
}

/// A higher level never asks for more: bitrate, frame rate and frame size
/// are each at most what a lower level gives, and never above the base.
pub proof fn lemma_apply_level_monotone(base: VideoProfile, lo: u8, hi: u8)
    requires
        lo <= hi,
    ensures
        apply_level_spec(base, hi).bitrate_bps <= apply_level_spec(base, lo).bitrate_bps,
        apply_level_spec(base, hi).fps <= apply_level_spec(base, lo).fps,
        apply_level_spec(base, hi).max_width <= apply_level_spec(base, lo).max_width,
        apply_level_spec(base, hi).max_height <= apply_level_spec(base, lo).max_height,
        apply_level_spec(base, hi).bitrate_bps <= base.bitrate_bps,
        apply_level_spec(base, hi).fps <= base.fps,
        apply_level_spec(base, hi).max_width <= base.max_width,
        apply_level_spec(base, hi).max_height <= base.max_height,
{
    let b = base.bitrate_bps / 100;
    assert(b * 20 <= b * 35 && b * 35 <= b * 60 && b * 60 <= b * 100) by (nonlinear_arith)
        requires
            b >= 0,
    ;
}

/// What each level asks of the encoder, in terms of the base profile:
/// level 0 keeps the base frame rate and size, level 1 caps the frame rate
/// at 8 and keeps the size, and from level 2 on frames are at most 320x180
/// (the base size where it is smaller) at no more than 6 fps (5 from level
/// 3); the bitrate never exceeds the base and never falls below 80 kbps
/// unless the base is lower.
pub proof fn lemma_apply_level_caps(base: VideoProfile, level: u8)
    ensures
        apply_level_spec(base, level).bitrate_bps <= base.bitrate_bps,
        apply_level_spec(base, level).bitrate_bps >= (if base.bitrate_bps < 80_000 {
            base.bitrate_bps
        } else {
            80_000
        }),
        level == 0 ==> apply_level_spec(base, level).fps == base.fps && apply_level_spec(
            base,
            level,
        ).max_width == base.max_width && apply_level_spec(base, level).max_height
            == base.max_height,
        level == 1 ==> apply_level_spec(base, level).fps <= 8 && apply_level_spec(base, level).fps
            <= base.fps && (base.fps <= 8 ==> apply_level_spec(base, level).fps == base.fps)
            && apply_level_spec(base, level).max_width == base.max_width && apply_level_spec(
            base,
            level,
        ).max_height == base.max_height,
        level >= 2 ==> apply_level_spec(base, level).max_width <= 320 && apply_level_spec(
            base,
            level,
        ).max_height <= 180 && apply_level_spec(base, level).fps <= 6,
        level >= 2 ==> (apply_level_spec(base, level).max_width == base.max_width
            || apply_level_spec(base, level).max_width == 320) && (apply_level_spec(
            base,
            level,
        ).max_height == base.max_height || apply_level_spec(base, level).max_height == 180),
        level >= 3 ==> apply_level_spec(base, level).fps <= 5,
{
}

/// The window minimum is at most every sample and is one of them.
pub proof fn lemma_seq_min_is_minimum(s: Seq<u64>)
    requires
        s.len() > 0,
    ensures
        forall|i: int| 0 <= i < s.len() ==> seq_min(s) <= #[trigger] s[i],
        exists|i: int| 0 <= i < s.len() && seq_min(s) == #[trigger] s[i],
    decreases s.len(),
{
    if s.len() == 1 {
        assert(seq_min(s) == s[0]);
    } else {
        let t = s.drop_last();
        lemma_seq_min_is_minimum(t);
        assert forall|i: int| 0 <= i < s.len() implies seq_min(s) <= #[trigger] s[i] by {
            if i < s.len() - 1 {
                assert(t[i] == s[i]);
            }
        }
        let j = choose|j: int| 0 <= j < t.len() && seq_min(t) == #[trigger] t[j];
        if s.last() < seq_min(t) {
            assert(seq_min(s) == s[s.len() - 1]);
        } else {
            assert(seq_min(s) == s[j]);
        }
    }
}

/// Queueing delay is measured from the lowest RTT in the window: it is at
/// least how far the RTT is above each sample, and (unless it is zero) equal
/// to how far it is above one of them; with no samples there is none.
pub proof fn lemma_queue_delay_from_minimum(samples: Seq<u64>, rtt_ms: u64)
    ensures
        samples.len() == 0 ==> queue_delay(samples, rtt_ms) == 0,
        queue_delay(samples, rtt_ms) >= 0,
        forall|i: int| 0 <= i < samples.len() ==> queue_delay(samples, rtt_ms) >= rtt_ms - #[trigger] samples[i],
        samples.len() > 0 && queue_delay(samples, rtt_ms) > 0 ==> exists|i: int|
            0 <= i < samples.len() && queue_delay(samples, rtt_ms) == rtt_ms - #[trigger] samples[i],
        (forall|i: int| 0 <= i < samples.len() ==> #[trigger] samples[i] >= rtt_ms) ==> queue_delay(
            samples,
            rtt_ms,
        ) == 0,
{
    if samples.len() > 0 {
        lemma_seq_min_is_minimum(samples);
        let j = choose|j: int| 0 <= j < samples.len() && seq_min(samples) == #[trigger] samples[j];
        assert(samples[j] == seq_min(samples));
    }
}

/// Packets lost on a peer's path since the last tick: transport loss
/// counts are cumulative over the connection, so congestion is judged on the
/// difference (none on the first tick, never negative).
pub fn lost_since_last_tick(previous: Option<u64>, cumulative: u64) -> (n: u64)
    ensures
        n == match previous {
            Some(p) => if cumulative >= p {
                (cumulative - p) as u64
            } else {
                0
            },
            None => 0,
        },
{
    match previous {
        Some(p) => {
            if cumulative >= p {
                cumulative - p
            } else {
                0
            }
        },
        None => 0,
    }
}

/// The bitrate the shared encoder runs at: the controller's target, capped
/// by the strictest per-peer limit when one is set (non-zero).
pub fn encoder_bitrate(target_bps: u32, peer_cap_bps: u32) -> (b: u32)
    ensures
        b == (if peer_cap_bps > 0 && peer_cap_bps < target_bps {
            peer_cap_bps
        } else {
            target_bps
        }),
{
    if peer_cap_bps > 0 && peer_cap_bps < target_bps {
        peer_cap_bps
    } else {
        target_bps
    }
}

} // verus!
