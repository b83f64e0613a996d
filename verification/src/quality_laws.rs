//! Laws of the send-quality controller over many ticks: every peer evolves
//! on its own, as if it were alone, and the shared level follows the worst
//! of them; a peer moves one level at a time, steps down only on congestion
//! and with a cooldown, and steps back up only after a run of good ticks.

use vstd::prelude::*;

use crate::quality::{
    fresh_peer_state, is_congested, lemma_peer_step_hysteresis, peer_state_wf, peer_step, sat_inc,
    signalled, tick_fold, tick_spec, PeerSignal, PeerStateModel, MAX_LEVEL,
    RECOVER_AFTER_GOOD_TICKS, RTT_WINDOW_TICKS,
};

verus! {

/// No peer id is signalled twice in one tick.
pub open spec fn distinct_ids(signals: Seq<(Seq<char>, PeerSignal)>) -> bool {
    forall|i: int, j: int|
        0 <= i < signals.len() && 0 <= j < signals.len() && i != j ==> #[trigger] signals[i].0
            != #[trigger] signals[j].0
}

/// The state a peer continues from: its stored state, or a fresh one.
pub open spec fn prior_state(m: Map<Seq<char>, PeerStateModel>, id: Seq<char>) -> PeerStateModel {
    if m.contains_key(id) {
        m[id]
    } else {
        fresh_peer_state()
    }
}

proof fn lemma_fold_independent(
    m: Map<Seq<char>, PeerStateModel>,
    signals: Seq<(Seq<char>, PeerSignal)>,
    n: nat,
)
    requires
        n <= signals.len(),
        distinct_ids(signals),
    ensures
        forall|i: int|
            0 <= i < n ==> (#[trigger] tick_fold(m, signals, n).0.contains_key(signals[i].0)
                && tick_fold(m, signals, n).0[signals[i].0] == peer_step(
                prior_state(m, signals[i].0),
                signals[i].1,
            )),
        forall|id: Seq<char>|
            (forall|i: int| 0 <= i < n ==> (#[trigger] signals[i]).0 != id) ==> (
            #[trigger] tick_fold(m, signals, n).0.contains_key(id) == m.contains_key(id) && (
            m.contains_key(id) ==> tick_fold(m, signals, n).0[id] == m[id])),
        forall|i: int|
            0 <= i < n ==> peer_step(prior_state(m, (#[trigger] signals[i]).0), signals[i].1).level
                <= tick_fold(m, signals, n).1,
        n == 0 ==> tick_fold(m, signals, n).1 == 0,
        n > 0 ==> exists|i: int|
            0 <= i < n && tick_fold(m, signals, n).1 == peer_step(
                prior_state(m, (#[trigger] signals[i]).0),
                signals[i].1,
            ).level,
    decreases n,
{
    if n > 0 {
        let k = (n - 1) as int;
        lemma_fold_independent(m, signals, (n - 1) as nat);
        let (m1, worst) = tick_fold(m, signals, (n - 1) as nat);
        let (id, sig) = signals[k];
        assert(forall|i: int| 0 <= i < n - 1 ==> (#[trigger] signals[i]).0 != id) by {
            assert forall|i: int| 0 <= i < n - 1 implies (#[trigger] signals[i]).0 != id by {
                assert(signals[i].0 != signals[k].0);
            }
        }
        assert(prior_state(m1, id) == prior_state(m, id));
        let (m2, w2) = tick_fold(m, signals, n);
        assert forall|i: int| 0 <= i < n implies (#[trigger] m2.contains_key(signals[i].0) && m2[signals[i].0]
            == peer_step(prior_state(m, signals[i].0), signals[i].1)) by {
            if i < k {
                assert(signals[i].0 != signals[k].0);
                assert(m1.contains_key(signals[i].0));
            } else {
                assert(m2[signals[k].0] == peer_step(prior_state(m1, id), sig));
            }
        }
        assert forall|i: int| 0 <= i < n implies peer_step(
            prior_state(m, (#[trigger] signals[i]).0),
            signals[i].1,
        ).level <= w2 by {}
        if n == 1 {
            assert(w2 == peer_step(prior_state(m, signals[0].0), signals[0].1).level);
        } else {
            let j = choose|j: int|
                0 <= j < n - 1 && worst == peer_step(
                    prior_state(m, (#[trigger] signals[j]).0),
                    signals[j].1,
                ).level;
            if w2 == worst {
                assert(w2 == peer_step(prior_state(m, signals[j].0), signals[j].1).level);
            } else {
                assert(w2 == peer_step(prior_state(m, signals[k].0), signals[k].1).level);
            }
        }
    }
}

/// Within one tick with distinct peer ids, each peer's new state depends on
/// its own earlier state (a fresh one for a newcomer) and its own signal
/// only, and the level for the shared encoder is the highest new level
/// among them (0 without signals).
pub proof fn lemma_tick_per_peer(
    m: Map<Seq<char>, PeerStateModel>,
    signals: Seq<(Seq<char>, PeerSignal)>,
)
    requires
        distinct_ids(signals),
    ensures
        forall|i: int|
            0 <= i < signals.len() ==> (#[trigger] tick_spec(m, signals).0.contains_key(
                signals[i].0,
            ) && tick_spec(m, signals).0[signals[i].0] == peer_step(
                prior_state(m, signals[i].0),
                signals[i].1,
            )),
        forall|i: int|
            0 <= i < signals.len() ==> #[trigger] tick_spec(m, signals).0[signals[i].0].level
                <= tick_spec(m, signals).1,
        signals.len() == 0 ==> tick_spec(m, signals).1 == 0,
        signals.len() > 0 ==> exists|i: int|
            0 <= i < signals.len() && tick_spec(m, signals).1 == (#[trigger] tick_spec(
                m,
                signals,
            ).0[signals[i].0]).level,
        forall|id: Seq<char>|
            !signalled(signals, id) ==> !#[trigger] tick_spec(m, signals).0.contains_key(id),
{
    let r = m.restrict(Set::new(|id: Seq<char>| signalled(signals, id)));
    lemma_fold_independent(r, signals, signals.len());
    assert forall|id: Seq<char>| !signalled(signals, id) implies !#[trigger] tick_spec(
        m,
        signals,
    ).0.contains_key(id) by {
        assert forall|i: int| 0 <= i < signals.len() implies (#[trigger] signals[i]).0 != id by {
            if signals[i].0 == id {
                assert(signalled(signals, id));
            }
        }
        assert(!r.contains_key(id));
        assert(tick_spec(m, signals) == tick_fold(r, signals, signals.len()));
    }
    assert forall|i: int| 0 <= i < signals.len() implies #[trigger] prior_state(r, signals[i].0)
        == prior_state(m, signals[i].0) by {
        assert(signalled(signals, signals[i].0));
    }
    let t = tick_spec(m, signals);
    assert(t == tick_fold(r, signals, signals.len()));
    assert forall|i: int| 0 <= i < signals.len() implies #[trigger] t.0[signals[i].0].level <= t.1 by {
        assert(prior_state(r, signals[i].0) == prior_state(m, signals[i].0));
        assert(tick_fold(r, signals, signals.len()).0.contains_key(signals[i].0));
        assert(t.0[signals[i].0] == peer_step(prior_state(r, signals[i].0), signals[i].1));
    }
    assert forall|i: int| 0 <= i < signals.len() implies (#[trigger] t.0.contains_key(signals[i].0)
        && t.0[signals[i].0] == peer_step(prior_state(m, signals[i].0), signals[i].1)) by {
        assert(prior_state(r, signals[i].0) == prior_state(m, signals[i].0));
        assert(tick_fold(r, signals, signals.len()).0.contains_key(signals[i].0));
    }
    if signals.len() > 0 {
        let j = choose|j: int|
            0 <= j < signals.len() && tick_fold(r, signals, signals.len()).1 == peer_step(
                prior_state(r, (#[trigger] signals[j]).0),
                signals[j].1,
            ).level;
        assert(prior_state(r, signals[j].0) == prior_state(m, signals[j].0));
        assert(tick_fold(r, signals, signals.len()).0.contains_key(signals[j].0));
        assert(t.0[signals[j].0] == peer_step(prior_state(r, signals[j].0), signals[j].1));
        assert(t.1 == t.0[signals[j].0].level);
    }
}

/// From the empty controller (as `SendQualityController::new` starts), the
/// first tick with distinct peer ids reports full quality: a new peer can't
/// step down on its first tick (the step-down cooldown).
pub proof fn lemma_first_tick_is_full_quality(signals: Seq<(Seq<char>, PeerSignal)>)
    requires
        distinct_ids(signals),
    ensures
        tick_spec(Map::empty(), signals).1 == 0,
{
    let m = Map::<Seq<char>, PeerStateModel>::empty();
    lemma_tick_per_peer(m, signals);
    if signals.len() > 0 {
        let i = choose|i: int|
            0 <= i < signals.len() && tick_spec(m, signals).1 == (#[trigger] tick_spec(
                m,
                signals,
            ).0[signals[i].0]).level;
        assert(prior_state(m, signals[i].0) == fresh_peer_state());
        let st = peer_step(fresh_peer_state(), signals[i].1);
        assert(tick_spec(m, signals).0.contains_key(signals[i].0));
        assert(tick_spec(m, signals).0[signals[i].0] == st);
        assert(sat_inc(0) == 1);
        assert(st.level == 0);
    }
}

/// The controller's peer states and the level returned by the last tick,
/// after `SendQualityController::new` and one `tick` per element of `ticks`
/// (`new` gives the empty view and `tick` follows `tick_spec`).
pub open spec fn run_ticks(ticks: Seq<Seq<(Seq<char>, PeerSignal)>>) -> (
    Map<Seq<char>, PeerStateModel>,
    u8,
)
    decreases ticks.len(),
{
    if ticks.len() == 0 {
        (Map::empty(), 0)
    } else {
        tick_spec(run_ticks(ticks.drop_last()).0, ticks.last())
    }
}

/// The signal given for `id` in one tick.
pub open spec fn signal_for(signals: Seq<(Seq<char>, PeerSignal)>, id: Seq<char>) -> PeerSignal {
    signals[choose|i: int| 0 <= i < signals.len() && (#[trigger] signals[i]).0 == id].1
}

/// The state `id` would have after `ticks` in a controller of its own:
/// fed only its own signals, and started afresh whenever it was absent
/// from a tick (`None` while absent).
pub open spec fn solo_state(id: Seq<char>, ticks: Seq<Seq<(Seq<char>, PeerSignal)>>) -> Option<
    PeerStateModel,
>
    decreases ticks.len(),
{
    if ticks.len() == 0 {
        None
    } else if signalled(ticks.last(), id) {
        let before = match solo_state(id, ticks.drop_last()) {
            Some(s) => s,
            None => fresh_peer_state(),
        };
        Some(peer_step(before, signal_for(ticks.last(), id)))
    } else {
        None
    }
}

proof fn lemma_signal_for(signals: Seq<(Seq<char>, PeerSignal)>, i: int)
    requires
        distinct_ids(signals),
        0 <= i < signals.len(),
    ensures
        signal_for(signals, signals[i].0) == signals[i].1,
{
    let id = signals[i].0;
    assert(signals[i].0 == id);
    let j = choose|j: int| 0 <= j < signals.len() && (#[trigger] signals[j]).0 == id;
    assert(j == i);
}

/// Over any sequence of ticks (each naming a peer at most once), every peer
/// evolves exactly as it would in a controller of its own, and each tick's
/// level for the shared encoder is the worst of those peers' levels: at
/// least each signalled peer's level and equal to one of them (0 for a tick
/// without signals).
pub proof fn lemma_controller_follows_each_peer(ticks: Seq<Seq<(Seq<char>, PeerSignal)>>)
    requires
        forall|t: int| 0 <= t < ticks.len() ==> distinct_ids(#[trigger] ticks[t]),
    ensures
        forall|id: Seq<char>|
            #[trigger] run_ticks(ticks).0.contains_key(id) <==> solo_state(id, ticks) is Some,
        forall|id: Seq<char>|
            #[trigger] solo_state(id, ticks) matches Some(s) ==> run_ticks(ticks).0[id] == s,
        ticks.len() > 0 ==> ({
            let last = ticks.last();
            &&& forall|i: int|
                0 <= i < last.len() ==> (#[trigger] solo_state(last[i].0, ticks)) is Some
                    && solo_state(last[i].0, ticks).unwrap().level <= run_ticks(ticks).1
            &&& last.len() == 0 ==> run_ticks(ticks).1 == 0
            &&& last.len() > 0 ==> exists|i: int|
                0 <= i < last.len() && run_ticks(ticks).1 == (#[trigger] solo_state(
                    last[i].0,
                    ticks,
                )).unwrap().level
        }),
    decreases ticks.len(),
{
    if ticks.len() > 0 {
        let prev = ticks.drop_last();
        assert forall|t: int| 0 <= t < prev.len() implies distinct_ids(#[trigger] prev[t]) by {
            assert(prev[t] == ticks[t]);
        }
        lemma_controller_follows_each_peer(prev);
        let m = run_ticks(prev).0;
        let last = ticks.last();
        assert(distinct_ids(ticks[ticks.len() - 1]));
        lemma_tick_per_peer(m, last);
        let r = run_ticks(ticks);
        assert(r == tick_spec(m, last));
        assert forall|id: Seq<char>| signalled(last, id) implies #[trigger] r.0.contains_key(id)
            && solo_state(id, ticks) == Some(r.0[id]) by {
            let i = choose|i: int| 0 <= i < last.len() && (#[trigger] last[i]).0 == id;
            lemma_signal_for(last, i);
            assert(r.0.contains_key(last[i].0));
            if m.contains_key(id) {
                assert(run_ticks(prev).0.contains_key(id));
            } else {
                assert(!run_ticks(prev).0.contains_key(id));
            }
        }
        assert forall|id: Seq<char>| #[trigger] r.0.contains_key(id) <==> solo_state(id, ticks) is Some by {
            if signalled(last, id) {
            } else {
                assert(!r.0.contains_key(id));
            }
        }
        assert forall|id: Seq<char>| #[trigger] solo_state(id, ticks) is Some implies r.0[id]
            == solo_state(id, ticks).unwrap() by {
            if signalled(last, id) {
                assert(r.0.contains_key(id));
            }
        }
        assert forall|i: int| 0 <= i < last.len() implies (#[trigger] solo_state(last[i].0, ticks)) is Some
            && solo_state(last[i].0, ticks).unwrap().level <= r.1 by {
            assert(signalled(last, last[i].0));
        }
        if last.len() > 0 {
            let i = choose|i: int|
                0 <= i < last.len() && r.1 == (#[trigger] tick_spec(m, last).0[last[i].0]).level;
            assert(signalled(last, last[i].0));
            assert(r.1 == solo_state(last[i].0, ticks).unwrap().level);
        }
    }
}

/// A peer's state after a run of ticks in a controller of its own.
pub open spec fn solo_run(sigs: Seq<PeerSignal>) -> PeerStateModel
    decreases sigs.len(),
{
    if sigs.len() == 0 {
        fresh_peer_state()
    } else {
        peer_step(solo_run(sigs.drop_last()), sigs.last())
    }
}

/// The non-zero RTT samples among `sigs`, in order.
pub open spec fn nonzero_rtts(sigs: Seq<PeerSignal>) -> Seq<u64>
    decreases sigs.len(),
{
    if sigs.len() == 0 {
        Seq::empty()
    } else if sigs.last().rtt_ms > 0 {
        nonzero_rtts(sigs.drop_last()).push(sigs.last().rtt_ms)
    } else {
        nonzero_rtts(sigs.drop_last())
    }
}

/// The latest (up to [`RTT_WINDOW_TICKS`]) non-zero RTT samples of `sigs`.
pub open spec fn rtt_window(sigs: Seq<PeerSignal>) -> Seq<u64> {
    let nz = nonzero_rtts(sigs);
    if nz.len() > RTT_WINDOW_TICKS {
        nz.skip(nz.len() - RTT_WINDOW_TICKS)
    } else {
        nz
    }
}

/// How many of the latest ticks in a row were free of congestion, each
/// judged against the RTT window before it.
pub open spec fn good_streak(sigs: Seq<PeerSignal>) -> nat
    decreases sigs.len(),
{
    if sigs.len() == 0 {
        0
    } else if is_congested(rtt_window(sigs.drop_last()), sigs.last()) {
        0
    } else {
        1 + good_streak(sigs.drop_last())
    }
}

proof fn lemma_solo_run_facts(sigs: Seq<PeerSignal>)
    ensures
        peer_state_wf(solo_run(sigs)),
        solo_run(sigs).rtt_samples == rtt_window(sigs),
        solo_run(sigs).good_ticks <= good_streak(sigs),
    decreases sigs.len(),
{
    if sigs.len() > 0 {
        let s = sigs.drop_last();
        let x = sigs.last();
        lemma_solo_run_facts(s);
        let a = solo_run(s);
        lemma_peer_step_hysteresis(a, x);
        let nz = nonzero_rtts(s);
        let w = rtt_window(s);
        if x.rtt_ms > 0 {
            let nz2 = nz.push(x.rtt_ms);
            assert(nonzero_rtts(sigs) == nz2);
            if nz.len() < RTT_WINDOW_TICKS {
                assert(w.push(x.rtt_ms) =~= rtt_window(sigs));
            } else if nz.len() == RTT_WINDOW_TICKS {
                assert(w.push(x.rtt_ms).drop_first() =~= rtt_window(sigs));
            } else {
                assert(w.push(x.rtt_ms).drop_first() =~= rtt_window(sigs));
            }
        } else {
            assert(nonzero_rtts(sigs) == nz);
        }
    }
}

/// A good streak of at least `n` ticks: each of the last `n` ticks was free
/// of congestion.
pub proof fn lemma_good_streak_ticks(sigs: Seq<PeerSignal>, n: nat)
    requires
        good_streak(sigs) >= n,
    ensures
        forall|j: int|
            0 <= j && sigs.len() - n <= j < sigs.len() ==> !is_congested(
                rtt_window(sigs.take(j)),
                #[trigger] sigs[j],
            ),
    decreases n,
{
    if n > 0 {
        let s = sigs.drop_last();
        assert(good_streak(sigs) == 1 + good_streak(s));
        lemma_good_streak_ticks(s, (n - 1) as nat);
        assert forall|j: int| 0 <= j && sigs.len() - n <= j < sigs.len() implies !is_congested(
            rtt_window(sigs.take(j)),
            #[trigger] sigs[j],
        ) by {
            if j == sigs.len() - 1 {
                assert(sigs.take(j) =~= s);
            } else {
                assert(s.take(j) =~= sigs.take(j));
                assert(s[j] == sigs[j]);
            }
        }
    }
}

/// One tick of a peer seen in every tick: its level moves by at most one
/// and stays within range; it goes down in quality (up a level) only on a
/// congested tick, judged by dropped frames, lost packets, or an RTT at
/// least 200 ms above the minimum of its latest 30 non-zero RTTs; it goes
/// back up only on a good tick that ends a run of at least
/// [`RECOVER_AFTER_GOOD_TICKS`] good ticks; and right after a step down
/// the next tick can't step down again (the cooldown).
pub proof fn lemma_solo_tick(sigs: Seq<PeerSignal>, x: PeerSignal)
    ensures
        solo_run(sigs.push(x)).level <= MAX_LEVEL,
        solo_run(sigs.push(x)).level <= solo_run(sigs).level + 1,
        solo_run(sigs.push(x)).level + 1 >= solo_run(sigs).level,
        solo_run(sigs.push(x)).level > solo_run(sigs).level ==> is_congested(rtt_window(sigs), x),
        solo_run(sigs.push(x)).level < solo_run(sigs).level ==> !is_congested(rtt_window(sigs), x)
            && good_streak(sigs.push(x)) >= RECOVER_AFTER_GOOD_TICKS,
        solo_run(sigs.push(x)).level > solo_run(sigs).level ==> forall|y: PeerSignal|
            #[trigger] solo_run(sigs.push(x).push(y)).level <= solo_run(sigs.push(x)).level,
{
    let t = sigs.push(x);
    assert(t.drop_last() =~= sigs);
    lemma_solo_run_facts(sigs);
    let a = solo_run(sigs);
    lemma_peer_step_hysteresis(a, x);
    let b = solo_run(t);
    assert(b == peer_step(a, x));
    if b.level < a.level {
        assert(good_streak(t) == 1 + good_streak(sigs));
    }
    if b.level > a.level {
        assert(b.ticks_since_step_down == 0);
        assert forall|y: PeerSignal| #[trigger] solo_run(t.push(y)).level <= b.level by {
            assert(t.push(y).drop_last() =~= t);
            assert(sat_inc(0) == 1);
        }
    }
}

/// The ticks of a controller that only ever sees peer `p`, with signals
/// `sigs`.
pub open spec fn single_peer_ticks(p: Seq<char>, sigs: Seq<PeerSignal>) -> Seq<
    Seq<(Seq<char>, PeerSignal)>,
> {
    Seq::new(sigs.len(), |k: int| seq![(p, sigs[k])])
}

proof fn lemma_single_peer_solo_state(p: Seq<char>, sigs: Seq<PeerSignal>)
    requires
        sigs.len() > 0,
    ensures
        solo_state(p, single_peer_ticks(p, sigs)) == Some(solo_run(sigs)),
    decreases sigs.len(),
{
    let ticks = single_peer_ticks(p, sigs);
    let last = ticks.last();
    assert(last == seq![(p, sigs.last())]);
    assert(last[0].0 == p);
    assert(signalled(last, p));
    lemma_signal_for(last, 0);
    assert(ticks.drop_last() =~= single_peer_ticks(p, sigs.drop_last()));
    if sigs.len() > 1 {
        lemma_single_peer_solo_state(p, sigs.drop_last());
    } else {
        assert(ticks.drop_last().len() == 0);
        assert(sigs.drop_last().len() == 0);
        assert(solo_run(sigs.drop_last()) == fresh_peer_state());
    }
}

/// A controller that only ever sees one peer reports, after each tick, that
/// peer's own level: so the laws of [`lemma_solo_tick`] hold of the levels
/// `SendQualityController::tick` returns on consecutive ticks.
pub proof fn lemma_single_peer_controller(p: Seq<char>, sigs: Seq<PeerSignal>)
    requires
        sigs.len() > 0,
    ensures
        run_ticks(single_peer_ticks(p, sigs)).1 == solo_run(sigs).level,
        run_ticks(single_peer_ticks(p, sigs)).0[p] == solo_run(sigs),
{
    let ticks = single_peer_ticks(p, sigs);
    assert forall|t: int| 0 <= t < ticks.len() implies distinct_ids(#[trigger] ticks[t]) by {
        assert(ticks[t].len() == 1);
    }
    lemma_controller_follows_each_peer(ticks);
    lemma_single_peer_solo_state(p, sigs);
    let last = ticks.last();
    assert(last.len() == 1);
    assert(last[0].0 == p);
    assert(solo_state(p, ticks) is Some);
    let i = choose|i: int|
        0 <= i < last.len() && run_ticks(ticks).1 == (#[trigger] solo_state(last[i].0, ticks)).unwrap().level;
    assert(i == 0);
}

} // verus!
