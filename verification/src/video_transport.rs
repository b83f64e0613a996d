//! Per-frame video transport.
//!
//! Every encoded frame travels on its own QUIC uni-stream:
//! `[STREAM_VIDEO][seq: u32 BE][timestamp_ms: u64 BE][annex-b payload]`.
//!
//! Frames can complete out of order, and an abandoned frame leaves a hole:
//! [`VideoReorderBuffer`] on the receiver restores order and only ever hands
//! the decoder an unbroken reference chain (anything after a hole waits for
//! the next keyframe).

use vstd::prelude::*;

use crate::bytes::{
    be32, be64, from_be32, from_be64, lemma_be32_roundtrip, lemma_be64_roundtrip, push_all,
    push_be32, push_be64, read_be32, read_be64,
};
use crate::messages::STREAM_VIDEO;

verus! {

pub const VIDEO_FRAME_HEADER_LEN: usize = 12;

/// Upper bound for one encoded frame's payload; anything larger is refused.
pub const MAX_VIDEO_FRAME_BYTES: usize = 1048576;

/// Sender: frames written but not yet acknowledged beyond which newer frames
/// are skipped.
pub const MAX_IN_FLIGHT_FRAMES: usize = 6;

/// Sender: a delta frame not acknowledged within this many milliseconds is
/// abandoned.
pub const DELTA_DELIVERY_DEADLINE_MS: u64 = 1200;

/// Sender: a keyframe not acknowledged within this many milliseconds is
/// abandoned.
pub const KEYFRAME_DELIVERY_DEADLINE_MS: u64 = 2500;

/// Receiver: a frame stream must complete within this many milliseconds.
pub const VIDEO_FRAME_READ_TIMEOUT_MS: u64 = 4000;

/// Sender: a frame that waited longer than this many milliseconds for
/// in-flight capacity is too stale to send.
pub const MAX_QUEUED_FRAME_AGE_MS: u64 = 500;

/// Receiver: how long (milliseconds) a later frame may wait for a missing
/// earlier one before the hole is declared permanent.
pub const REORDER_GAP_TIMEOUT_MS: u64 = 300;

/// Receiver: cap on frames held back while waiting for a hole to fill.
pub const REORDER_MAX_HELD: usize = 8;

/// The bytes of one frame stream: the stream type, the big-endian sequence
/// number and timestamp, then the payload.
pub open spec fn video_frame_bytes(seq: u32, timestamp_ms: u64, payload: Seq<u8>) -> Seq<u8> {
    seq![STREAM_VIDEO] + be32(seq) + be64(timestamp_ms) + payload
}

/// Encodes one frame stream.
pub fn encode_video_frame(seq: u32, timestamp_ms: u64, payload: &[u8]) -> (out: Vec<u8>)
    ensures
        out@ == video_frame_bytes(seq, timestamp_ms, payload@),
{
    let mut buf: Vec<u8> = Vec::new();
    buf.push(STREAM_VIDEO);
    push_be32(&mut buf, seq);
    push_be64(&mut buf, timestamp_ms);
    push_all(&mut buf, payload);
    buf
}

/// Parses a frame body (everything after the stream-type byte): `None` when
/// the body holds no payload byte after the header, otherwise the sequence
/// number, the timestamp and the payload.
pub fn decode_video_frame(body: &[u8]) -> (out: Option<(u32, u64, &[u8])>)
    ensures
        body@.len() <= VIDEO_FRAME_HEADER_LEN ==> out is None,
        body@.len() > VIDEO_FRAME_HEADER_LEN ==> (out matches Some((seq, ts, payload)) && seq
            == from_be32(body@.subrange(0, 4)) && ts == from_be64(body@.subrange(4, 12))
            && payload@ == body@.subrange(12, body@.len() as int)),
{
    if body.len() <= VIDEO_FRAME_HEADER_LEN {
        return None;
    }
    let seq = read_be32(body, 0);
    let timestamp_ms = read_be64(body, 4);
    let (_, payload) = body.split_at(VIDEO_FRAME_HEADER_LEN);
    Some((seq, timestamp_ms, payload))
}

/// A frame that encodes with a non-empty payload decodes back to its
/// sequence number, timestamp and payload.
pub proof fn lemma_video_frame_roundtrip(seq: u32, timestamp_ms: u64, payload: Seq<u8>)
    requires
        payload.len() > 0,
    ensures
        ({
            let body = video_frame_bytes(seq, timestamp_ms, payload).drop_first();
            &&& body.len() > VIDEO_FRAME_HEADER_LEN
            &&& from_be32(body.subrange(0, 4)) == seq
            &&& from_be64(body.subrange(4, 12)) == timestamp_ms
            &&& body.subrange(12, body.len() as int) == payload
        }),
{
    let body = video_frame_bytes(seq, timestamp_ms, payload).drop_first();
    assert(body =~= be32(seq) + be64(timestamp_ms) + payload);
    assert(body.subrange(0, 4) =~= be32(seq));
    assert(body.subrange(4, 12) =~= be64(timestamp_ms));
    assert(body.subrange(12, body.len() as int) =~= payload);
    lemma_be32_roundtrip(seq);
    lemma_be64_roundtrip(timestamp_ms);
}

// ── Receiver ──────────────────────────────────────────────────────────
#[derive(Debug, Clone, PartialEq, Eq)]
pub struct ReceivedVideoFrame {
    pub seq: u32,
    pub timestamp_ms: u64,
    pub is_keyframe: bool,
    pub payload: Vec<u8>,
}

#[derive(Debug)]
pub struct ReorderOutput {
    /// Frames safe to decode, in order.
    pub ready: Vec<ReceivedVideoFrame>,
    /// The chain is broken; the sender should be asked for a keyframe.
    pub need_keyframe: bool,
}

/// The state of a reorder buffer: the sequence number that continues the
/// current reference chain (none while waiting for a keyframe), the frames
/// held back in sequence order, and since when a hole has been open.
pub struct ReorderModel {
    pub expected: Option<u32>,
    pub held: Seq<ReceivedVideoFrame>,
    pub gap_since: Option<u64>,
}

/// Strictly increasing sequence numbers: at most one held frame per number,
/// in the order of the numbers.
pub open spec fn sorted_by_seq(h: Seq<ReceivedVideoFrame>) -> bool {
    forall|i: int, j: int| 0 <= i < j < h.len() ==> h[i].seq < h[j].seq
}

/// A reorder state that the buffer's operations keep: the held frames are
/// ordered, bounded in number, and (while a chain runs) all lie ahead of it.
pub open spec fn reorder_model_wf(m: ReorderModel) -> bool {
    &&& sorted_by_seq(m.held)
    &&& m.held.len() <= REORDER_MAX_HELD
    &&& (m.expected matches Some(e) ==> forall|i: int|
        0 <= i < m.held.len() ==> e < #[trigger] m.held[i].seq)
}

pub open spec fn seq_below(s: u32) -> spec_fn(ReceivedVideoFrame) -> bool {
    |x: ReceivedVideoFrame| x.seq < s
}

pub open spec fn seq_above(s: u32) -> spec_fn(ReceivedVideoFrame) -> bool {
    |x: ReceivedVideoFrame| x.seq > s
}

/// `held` with `f` placed by its sequence number, replacing a held frame
/// with the same number.
pub open spec fn insert_by_seq(held: Seq<ReceivedVideoFrame>, f: ReceivedVideoFrame) -> Seq<
    ReceivedVideoFrame,
> {
    held.filter(seq_below(f.seq)) + seq![f] + held.filter(seq_above(f.seq))
}

/// How many frames at the front of `held` carry the consecutive numbers
/// `next`, `next + 1`, ….
pub open spec fn chain_run(held: Seq<ReceivedVideoFrame>, next: int) -> nat
    decreases held.len(),
{
    if held.len() > 0 && held[0].seq == next {
        1 + chain_run(held.drop_first(), next + 1)
    } else {
        0
    }
}

/// The `u32` sequence number that follows a chain ending just before `n`
/// (`n` is at most `u32::MAX + 1`, which wraps to 0).
pub open spec fn wrap_next(n: int) -> u32 {
    if n > u32::MAX {
        0
    } else {
        n as u32
    }
}

/// Starting a chain at `f`: held frames at or before it are dropped, `f` and
/// the held frames that continue it without a hole are released, and the
/// chain then expects the number after the last one released.
pub open spec fn start_chain_spec(m: ReorderModel, f: ReceivedVideoFrame, now: u64) -> (
    ReorderModel,
    Seq<ReceivedVideoFrame>,
) {
    let kept = m.held.filter(seq_above(f.seq));
    let k = chain_run(kept, f.seq + 1);
    let rest = kept.skip(k as int);
    (
        ReorderModel {
            expected: Some(wrap_next(f.seq + 1 + k)),
            held: rest,
            gap_since: if rest.len() == 0 {
                None
            } else {
                Some(now)
            },
        },
        seq![f] + kept.take(k as int),
    )
}

/// Whether an open hole has waited at least the gap timeout.
pub open spec fn gap_expired(gap_since: Option<u64>, now: u64) -> bool {
    match gap_since {
        Some(since) => now - since >= REORDER_GAP_TIMEOUT_MS,
        None => false,
    }
}

/// What pushing `f` at time `now` does: the next state, the frames released
/// to the decoder, and whether a keyframe must be requested.
pub open spec fn push_spec(m: ReorderModel, f: ReceivedVideoFrame, now: u64) -> (
    ReorderModel,
    Seq<ReceivedVideoFrame>,
    bool,
) {
    let (m1, ready, need) = match m.expected {
        None => {
            if f.is_keyframe {
                let (a, r) = start_chain_spec(m, f, now);
                (a, r, false)
            } else {
                let h = insert_by_seq(m.held, f);
                (
                    ReorderModel {
                        expected: m.expected,
                        held: if h.len() > REORDER_MAX_HELD {
                            h.drop_first()
                        } else {
                            h
                        },
                        gap_since: m.gap_since,
                    },
                    Seq::empty(),
                    true,
                )
            }
        },
        Some(e) => {
            if f.seq < e {
                (m, Seq::empty(), false)
            } else if f.seq == e || f.is_keyframe {
                let (a, r) = start_chain_spec(m, f, now);
                (a, r, false)
            } else {
                (
                    ReorderModel {
                        expected: m.expected,
                        held: insert_by_seq(m.held, f),
                        gap_since: if m.gap_since is None {
                            Some(now)
                        } else {
                            m.gap_since
                        },
                    },
                    Seq::empty(),
                    false,
                )
            }
        },
    };
    if m1.expected is Some && (gap_expired(m1.gap_since, now) || m1.held.len() > REORDER_MAX_HELD) {
        (ReorderModel { expected: None, held: Seq::empty(), gap_since: None }, ready, true)
    } else {
        (m1, ready, need)
    }
}

// ── Lemmas on the model ───────────────────────────────────────────────
proof fn lemma_filter_all(s: Seq<ReceivedVideoFrame>, p: spec_fn(ReceivedVideoFrame) -> bool)
    requires
        forall|i: int| 0 <= i < s.len() ==> p(#[trigger] s[i]),
    ensures
        s.filter(p) == s,
    decreases s.len(),
{
    reveal(Seq::filter);
    if s.len() > 0 {
        lemma_filter_all(s.drop_last(), p);
        assert(s.drop_last().push(s.last()) =~= s);
    }
}

proof fn lemma_filter_none(s: Seq<ReceivedVideoFrame>, p: spec_fn(ReceivedVideoFrame) -> bool)
    requires
        forall|i: int| 0 <= i < s.len() ==> !p(#[trigger] s[i]),
    ensures
        s.filter(p) == Seq::<ReceivedVideoFrame>::empty(),
    decreases s.len(),
{
    reveal(Seq::filter);
    if s.len() > 0 {
        lemma_filter_none(s.drop_last(), p);
    }
    assert(s.filter(p) =~= Seq::<ReceivedVideoFrame>::empty());
}

/// Filtering a sequence whose first `i` elements satisfy `p` and whose other
/// elements do not keeps exactly the first `i`.
proof fn lemma_filter_prefix(s: Seq<ReceivedVideoFrame>, p: spec_fn(ReceivedVideoFrame) -> bool, i: int)
    requires
        0 <= i <= s.len(),
        forall|j: int| 0 <= j < i ==> p(#[trigger] s[j]),
        forall|j: int| i <= j < s.len() ==> !p(#[trigger] s[j]),
    ensures
        s.filter(p) == s.take(i),
{
    assert(s =~= s.take(i) + s.skip(i));
    Seq::filter_distributes_over_add(s.take(i), s.skip(i), p);
    lemma_filter_all(s.take(i), p);
    lemma_filter_none(s.skip(i), p);
    assert(s.take(i) + Seq::<ReceivedVideoFrame>::empty() =~= s.take(i));
}

/// Filtering a sequence whose first `i` elements fail `p` and whose other
/// elements satisfy it keeps exactly those from `i` on.
proof fn lemma_filter_suffix(s: Seq<ReceivedVideoFrame>, p: spec_fn(ReceivedVideoFrame) -> bool, i: int)
    requires
        0 <= i <= s.len(),
        forall|j: int| 0 <= j < i ==> !p(#[trigger] s[j]),
        forall|j: int| i <= j < s.len() ==> p(#[trigger] s[j]),
    ensures
        s.filter(p) == s.skip(i),
{
    assert(s =~= s.take(i) + s.skip(i));
    Seq::filter_distributes_over_add(s.take(i), s.skip(i), p);
    lemma_filter_none(s.take(i), p);
    lemma_filter_all(s.skip(i), p);
    assert(Seq::<ReceivedVideoFrame>::empty() + s.skip(i) =~= s.skip(i));
}

/// The boundary of a sorted sequence at `v`: the elements before it are
/// below `v`, the others are not.
proof fn lemma_sorted_boundary(h: Seq<ReceivedVideoFrame>, v: int) -> (i: int)
    requires
        sorted_by_seq(h),
    ensures
        0 <= i <= h.len(),
        forall|j: int| 0 <= j < i ==> (#[trigger] h[j]).seq < v,
        forall|j: int| i <= j < h.len() ==> (#[trigger] h[j]).seq >= v,
    decreases h.len(),
{
    if h.len() == 0 {
        0
    } else if h.last().seq < v {
        h.len() as int
    } else {
        let i = lemma_sorted_boundary(h.drop_last(), v);
        assert forall|j: int| i <= j < h.len() implies (#[trigger] h[j]).seq >= v by {
            if j < h.len() - 1 {
                assert(h.drop_last()[j] == h[j]);
            }
        }
        assert forall|j: int| 0 <= j < i implies (#[trigger] h[j]).seq < v by {
            assert(h.drop_last()[j] == h[j]);
        }
        i
    }
}

/// Inserting by sequence number into a sorted sequence splits it at the
/// boundary: the part below, the new frame, and the part above.
proof fn lemma_insert_by_seq(h: Seq<ReceivedVideoFrame>, f: ReceivedVideoFrame)
    requires
        sorted_by_seq(h),
    ensures
        sorted_by_seq(insert_by_seq(h, f)),
        insert_by_seq(h, f).len() <= h.len() + 1,
        forall|x: ReceivedVideoFrame|
            insert_by_seq(h, f).contains(x) ==> x == f || h.contains(x),
        insert_by_seq(h, f).contains(f),
{
    let i = lemma_sorted_boundary(h, f.seq as int);
    lemma_filter_prefix(h, seq_below(f.seq), i);
    let i2 = if i < h.len() && h[i].seq == f.seq {
        i + 1
    } else {
        i
    };
    assert forall|j: int| i2 <= j < h.len() implies (#[trigger] h[j]).seq > f.seq by {
        if j > i {
            assert(h[i].seq < h[j].seq);
        }
    }
    lemma_filter_suffix(h, seq_above(f.seq), i2);
    let r = insert_by_seq(h, f);
    assert(r =~= h.take(i) + seq![f] + h.skip(i2));
    assert forall|a: int, b: int| 0 <= a < b < r.len() implies r[a].seq < r[b].seq by {
        if a < i && b < i {
        } else if a < i && b == i {
        } else if a < i {
            assert(r[b] == h[b - i - 1 + i2]);
        } else if a == i {
            assert(r[b] == h[b - i - 1 + i2]);
        } else {
            assert(r[a] == h[a - i - 1 + i2]);
            assert(r[b] == h[b - i - 1 + i2]);
        }
    }
    assert forall|x: ReceivedVideoFrame| r.contains(x) implies x == f || h.contains(x) by {
        let j = choose|j: int| 0 <= j < r.len() && r[j] == x;
        if j < i {
            assert(h[j] == x);
        } else if j > i {
            assert(h[j - i - 1 + i2] == x);
        }
    }
    assert(r[i] == f);
}

/// The frames counted by `chain_run` carry consecutive numbers from `next`,
/// and the one after them (if any) does not continue the run.
proof fn lemma_chain_run(h: Seq<ReceivedVideoFrame>, next: int)
    ensures
        chain_run(h, next) <= h.len(),
        forall|j: int| 0 <= j < chain_run(h, next) ==> (#[trigger] h[j]).seq == next + j,
        chain_run(h, next) < h.len() ==> h[chain_run(h, next) as int].seq != next + chain_run(
            h,
            next,
        ),
    decreases h.len(),
{
    if h.len() > 0 && h[0].seq == next {
        lemma_chain_run(h.drop_first(), next + 1);
        assert forall|j: int| 0 <= j < chain_run(h, next) implies (#[trigger] h[j]).seq == next
            + j by {
            if j > 0 {
                assert(h.drop_first()[j - 1] == h[j]);
            }
        }
        if chain_run(h, next) < h.len() {
            assert(h.drop_first()[chain_run(h, next) - 1] == h[chain_run(h, next) as int]);
        }
    }
}

/// Facts about starting a chain from a well-formed state: the result is
/// well-formed (before any reset), and the released frames start at `f`
/// and carry consecutive numbers.
proof fn lemma_start_chain(m: ReorderModel, f: ReceivedVideoFrame, now: u64)
    requires
        reorder_model_wf(m),
    ensures
        ({
            let (a, r) = start_chain_spec(m, f, now);
            &&& reorder_model_wf(a)
            &&& a.expected is Some
            &&& r.len() >= 1
            &&& r[0] == f
            &&& forall|j: int| 0 <= j < r.len() - 1 ==> #[trigger] r[j + 1].seq == r[j].seq + 1
            &&& a.expected == Some(wrap_next(f.seq + r.len()))
            &&& forall|j: int| 1 <= j < r.len() ==> m.held.contains(#[trigger] r[j])
            &&& forall|j: int| 0 <= j < a.held.len() ==> m.held.contains(#[trigger] a.held[j])
            &&& forall|j: int| 0 <= j < a.held.len() ==> f.seq + r.len() <= #[trigger] a.held[j].seq
        }),
{
    let kept = m.held.filter(seq_above(f.seq));
    let i = lemma_sorted_boundary(m.held, f.seq + 1);
    lemma_filter_suffix(m.held, seq_above(f.seq), i);
    assert(kept =~= m.held.skip(i));
    let k = chain_run(kept, f.seq + 1);
    lemma_chain_run(kept, f.seq + 1);
    let rest = kept.skip(k as int);
    let (a, r) = start_chain_spec(m, f, now);
    assert(r =~= seq![f] + kept.take(k as int));
    assert forall|j: int| 0 <= j < r.len() - 1 implies #[trigger] r[j + 1].seq == r[j].seq + 1 by {
        assert(r[j + 1] == kept[j]);
        if j > 0 {
            assert(r[j] == kept[j - 1]);
        }
    }
    assert(r.len() == 1 + k);
    assert forall|j: int| 1 <= j < r.len() implies m.held.contains(#[trigger] r[j]) by {
        assert(r[j] == kept[j - 1]);
        assert(kept[j - 1] == m.held[i + j - 1]);
    }
    assert forall|x: int| 0 <= x < rest.len() implies m.held.contains(#[trigger] rest[x]) by {
        assert(rest[x] == m.held[i + k + x]);
    }
    // The rest stays ordered, bounded, and ahead of the new expectation.
    assert forall|x: int, y: int| 0 <= x < y < rest.len() implies rest[x].seq < rest[y].seq by {
        assert(rest[x] == m.held[i + k + x]);
        assert(rest[y] == m.held[i + k + y]);
    }
    assert forall|x: int| 0 <= x < rest.len() implies wrap_next(f.seq + 1 + k) < #[trigger] rest[x].seq by {
        assert(rest[x] == kept[k + x]);
        assert(kept[k as int] == rest[0]);
        if x > 0 {
            assert(kept[k as int].seq < kept[k + x].seq) by {
                assert(kept[k as int] == m.held[i + k]);
                assert(kept[k + x] == m.held[i + k + x]);
            }
        }
        if k > 0 {
            assert(kept[k - 1].seq == f.seq + k);
            assert(kept[k - 1] == m.held[i + k - 1]);
            assert(kept[k as int] == m.held[i + k]);
        } else {
            assert(kept[0] == m.held[i]);
        }
    }
    assert forall|x: int| 0 <= x < rest.len() implies f.seq + 1 + k <= #[trigger] rest[x].seq by {
        assert(rest[x] == kept[k + x]);
        assert(kept[k as int] == rest[0]);
        if x > 0 {
            assert(kept[k as int].seq < kept[k + x].seq) by {
                assert(kept[k as int] == m.held[i + k]);
                assert(kept[k + x] == m.held[i + k + x]);
            }
        }
        if k > 0 {
            assert(kept[k - 1].seq == f.seq + k);
            assert(kept[k - 1] == m.held[i + k - 1]);
            assert(kept[k as int] == m.held[i + k]);
        } else {
            assert(kept[0] == m.held[i]);
        }
    }
}

/// The laws of `push`, stated on the model: the state stays well-formed;
/// the released frames carry consecutive numbers and start either at a
/// keyframe or at the number the chain expected; a keyframe is asked for
/// exactly when the chain is broken afterwards; and without a chain, a
/// delta is never released.
pub proof fn lemma_push_laws(m: ReorderModel, f: ReceivedVideoFrame, now: u64)
    requires
        reorder_model_wf(m),
    ensures
        ({
            let (m2, ready, need) = push_spec(m, f, now);
            &&& reorder_model_wf(m2)
            &&& forall|j: int| 0 <= j < ready.len() - 1 ==> #[trigger] ready[j + 1].seq == ready[j].seq
                + 1
            &&& ready.len() > 0 ==> ready[0] == f && (f.is_keyframe || m.expected == Some(f.seq))
            &&& need <==> m2.expected is None
            &&& (m.expected is None && !f.is_keyframe) ==> ready.len() == 0
        }),
{
    let (m2, ready, need) = push_spec(m, f, now);
    match m.expected {
        None => {
            if f.is_keyframe {
                lemma_start_chain(m, f, now);
            } else {
                lemma_insert_by_seq(m.held, f);
                let h = insert_by_seq(m.held, f);
                if h.len() > REORDER_MAX_HELD {
                    assert forall|x: int, y: int|
                        0 <= x < y < h.drop_first().len() implies h.drop_first()[x].seq
                        < h.drop_first()[y].seq by {
                        assert(h.drop_first()[x] == h[x + 1]);
                        assert(h.drop_first()[y] == h[y + 1]);
                    }
                }
            }
        },
        Some(e) => {
            if f.seq < e {
            } else if f.seq == e || f.is_keyframe {
                lemma_start_chain(m, f, now);
            } else {
                lemma_insert_by_seq(m.held, f);
                let h = insert_by_seq(m.held, f);
                assert forall|x: int| 0 <= x < h.len() implies e < #[trigger] h[x].seq by {
                    assert(h.contains(h[x]));
                    if h[x] != f {
                        assert(m.held.contains(h[x]));
                        let y = choose|y: int| 0 <= y < m.held.len() && m.held[y] == h[x];
                        assert(e < m.held[y].seq);
                    }
                }
            }
        },
    }
}

// ── Laws over sequences of pushes ─────────────────────────────────────

/// The state of a new buffer.
pub open spec fn initial_reorder_model() -> ReorderModel {
    ReorderModel { expected: None, held: Seq::empty(), gap_since: None }
}

/// The state after pushing `pushes` (frames with their arrival times) into
/// a new buffer, and every frame released along the way, in order.
pub open spec fn run_pushes(pushes: Seq<(ReceivedVideoFrame, u64)>) -> (
    ReorderModel,
    Seq<ReceivedVideoFrame>,
)
    decreases pushes.len(),
{
    if pushes.len() == 0 {
        (initial_reorder_model(), Seq::empty())
    } else {
        let (m, released) = run_pushes(pushes.drop_last());
        let (m2, ready, need) = push_spec(m, pushes.last().0, pushes.last().1);
        (m2, released + ready)
    }
}

/// Every delta among `released` directly follows the frame before it
/// (sequence numbers wrap at 2^32), so the first released frame and every
/// frame after a break is a keyframe.
pub open spec fn unbroken_chain(released: Seq<ReceivedVideoFrame>) -> bool {
    forall|k: int|
        0 <= k < released.len() && !(#[trigger] released[k]).is_keyframe ==> k > 0
            && released[k].seq == wrap_next(released[k - 1].seq + 1)
}

/// What a buffer keeps over its life: its state is well-formed, a running
/// chain expects the number after the last frame released, and the frames
/// released so far form an unbroken chain.
pub open spec fn chain_invariant(m: ReorderModel, released: Seq<ReceivedVideoFrame>) -> bool {
    &&& reorder_model_wf(m)
    &&& m.expected matches Some(e) ==> released.len() > 0 && e == wrap_next(
        released.last().seq + 1,
    )
    &&& unbroken_chain(released)
}

proof fn lemma_consecutive_from(r: Seq<ReceivedVideoFrame>)
    requires
        r.len() >= 1,
        forall|j: int| 0 <= j < r.len() - 1 ==> #[trigger] r[j + 1].seq == r[j].seq + 1,
    ensures
        forall|j: int| 0 <= j < r.len() ==> #[trigger] r[j].seq == r[0].seq + j,
    decreases r.len(),
{
    if r.len() > 1 {
        let s = r.drop_last();
        assert forall|j: int| 0 <= j < s.len() - 1 implies #[trigger] s[j + 1].seq == s[j].seq + 1 by {
            assert(s[j + 1] == r[j + 1]);
            assert(s[j] == r[j]);
        }
        lemma_consecutive_from(s);
        assert forall|j: int| 0 <= j < r.len() implies #[trigger] r[j].seq == r[0].seq + j by {
            if j < r.len() - 1 {
                assert(s[j] == r[j]);
            } else {
                let i = j - 1;
                assert(r[i + 1].seq == r[i].seq + 1);
                assert(s[i] == r[i]);
            }
        }
    }
}

/// One push keeps the chain invariant.
proof fn lemma_push_keeps_chain(
    m: ReorderModel,
    released: Seq<ReceivedVideoFrame>,
    f: ReceivedVideoFrame,
    now: u64,
)
    requires
        chain_invariant(m, released),
    ensures
        ({
            let (m2, ready, need) = push_spec(m, f, now);
            chain_invariant(m2, released + ready)
        }),
{
    lemma_push_laws(m, f, now);
    let (m2, ready, need) = push_spec(m, f, now);
    let all = released + ready;
    let n = released.len();
    let starts = match m.expected {
        None => f.is_keyframe,
        Some(e) => f.seq >= e && (f.seq == e || f.is_keyframe),
    };
    if starts {
        lemma_start_chain(m, f, now);
        let (a, r) = start_chain_spec(m, f, now);
        assert(ready == r);
        lemma_consecutive_from(r);
        if m2.expected is Some {
            assert(m2 == a);
            assert(all.last() == r[r.len() - 1]);
            assert(r[r.len() - 1].seq == f.seq + r.len() - 1);
        }
    } else {
        assert(ready.len() == 0);
        assert(all =~= released);
    }
    assert forall|k: int| 0 <= k < all.len() && !(#[trigger] all[k]).is_keyframe implies k > 0
        && all[k].seq == wrap_next(all[k - 1].seq + 1) by {
        if k < n {
            assert(all[k] == released[k]);
            assert(all[k - 1] == released[k - 1]);
        } else {
            let j = k - n;
            assert(all[k] == ready[j]);
            if j == 0 {
                assert(ready[0] == f);
                assert(m.expected == Some(f.seq));
                assert(all[k - 1] == released.last());
            } else {
                assert(all[k - 1] == ready[j - 1]);
                assert(ready[j].seq == ready[j - 1].seq + 1);
            }
        }
    }
}

/// The chain invariant holds after any sequence of pushes into a new buffer.
pub proof fn lemma_run_pushes_chain(pushes: Seq<(ReceivedVideoFrame, u64)>)
    ensures
        chain_invariant(run_pushes(pushes).0, run_pushes(pushes).1),
    decreases pushes.len(),
{
    if pushes.len() > 0 {
        lemma_run_pushes_chain(pushes.drop_last());
        let (m, released) = run_pushes(pushes.drop_last());
        lemma_push_keeps_chain(m, released, pushes.last().0, pushes.last().1);
    } else {
        assert(unbroken_chain(Seq::<ReceivedVideoFrame>::empty()));
    }
}

/// However frames arrive (reordered, duplicated, lost, late), everything a
/// buffer has released forms an unbroken reference chain: its first frame
/// is a keyframe and every delta directly follows the frame released just
/// before it, so the decoder never gets a delta whose reference is missing.
pub proof fn lemma_released_chain_is_unbroken(pushes: Seq<(ReceivedVideoFrame, u64)>)
    ensures
        unbroken_chain(run_pushes(pushes).1),
{
    lemma_run_pushes_chain(pushes);
}

/// A keyframe numbered above every frame released so far resynchronises at
/// once: it is released first, no keyframe is asked for, and the frames
/// released with it continue it consecutively.
pub proof fn lemma_keyframe_resyncs(
    pushes: Seq<(ReceivedVideoFrame, u64)>,
    f: ReceivedVideoFrame,
    now: u64,
)
    requires
        f.is_keyframe,
        forall|k: int|
            0 <= k < run_pushes(pushes).1.len() ==> (#[trigger] run_pushes(pushes).1[k]).seq < f.seq,
    ensures
        ({
            let (m2, ready, need) = push_spec(run_pushes(pushes).0, f, now);
            &&& ready.len() >= 1
            &&& ready[0] == f
            &&& !need
            &&& forall|i: int| 0 <= i < ready.len() ==> #[trigger] ready[i].seq == f.seq + i
        }),
{
    lemma_run_pushes_chain(pushes);
    let (m, released) = run_pushes(pushes);
    if m.expected is Some {
        assert(released[released.len() - 1].seq < f.seq);
        assert(m.expected.unwrap() <= f.seq);
    }
    lemma_start_chain(m, f, now);
    let (a, r) = start_chain_spec(m, f, now);
    lemma_consecutive_from(r);
    assert(!gap_expired(a.gap_since, now));
    let (m2, ready, need) = push_spec(m, f, now);
    assert(ready == r);
}

/// `x` is one of the pushed frames.
pub open spec fn was_pushed(pushes: Seq<(ReceivedVideoFrame, u64)>, x: ReceivedVideoFrame) -> bool {
    exists|i: int| 0 <= i < pushes.len() && (#[trigger] pushes[i]).0 == x
}

/// No two pushed frames carry the same sequence number.
pub open spec fn distinct_pushed_seqs(pushes: Seq<(ReceivedVideoFrame, u64)>) -> bool {
    forall|i: int, j: int|
        0 <= i < pushes.len() && 0 <= j < pushes.len() && i != j ==> (#[trigger] pushes[i]).0.seq
            != (#[trigger] pushes[j]).0.seq
}

/// Released and held frames were all pushed, no number is released twice,
/// and no held frame has been released already.
pub open spec fn released_once(
    pushes: Seq<(ReceivedVideoFrame, u64)>,
    m: ReorderModel,
    released: Seq<ReceivedVideoFrame>,
) -> bool {
    &&& forall|k: int| 0 <= k < released.len() ==> was_pushed(pushes, #[trigger] released[k])
    &&& forall|k: int| 0 <= k < m.held.len() ==> was_pushed(pushes, #[trigger] m.held[k])
    &&& forall|a: int, b: int|
        0 <= a < released.len() && 0 <= b < released.len() && a != b ==> (#[trigger] released[a]).seq
            != (#[trigger] released[b]).seq
    &&& forall|a: int, b: int|
        0 <= a < released.len() && 0 <= b < m.held.len() ==> (#[trigger] released[a]).seq != (
        #[trigger] m.held[b]).seq
}

proof fn lemma_push_keeps_once(
    pushes: Seq<(ReceivedVideoFrame, u64)>,
    m: ReorderModel,
    released: Seq<ReceivedVideoFrame>,
    f: ReceivedVideoFrame,
    now: u64,
)
    requires
        reorder_model_wf(m),
        released_once(pushes, m, released),
        distinct_pushed_seqs(pushes.push((f, now))),
    ensures
        ({
            let (m2, ready, need) = push_spec(m, f, now);
            released_once(pushes.push((f, now)), m2, released + ready)
        }),
{
    let p2 = pushes.push((f, now));
    let n = pushes.len();
    assert(p2[n as int].0 == f);
    assert forall|x: ReceivedVideoFrame| was_pushed(pushes, x) implies was_pushed(p2, x) && x.seq
        != f.seq by {
        let i = choose|i: int| 0 <= i < pushes.len() && (#[trigger] pushes[i]).0 == x;
        assert(p2[i] == pushes[i]);
        assert(p2[i].0.seq != p2[n as int].0.seq);
    }
    assert(was_pushed(p2, f));
    lemma_push_laws(m, f, now);
    let (m2, ready, need) = push_spec(m, f, now);
    let all = released + ready;
    let nr = released.len();
    // Every frame the step may release or keep: `f` or a held one.
    let starts = match m.expected {
        None => f.is_keyframe,
        Some(e) => f.seq >= e && (f.seq == e || f.is_keyframe),
    };
    if starts {
        lemma_start_chain(m, f, now);
        let (a, r) = start_chain_spec(m, f, now);
        assert(ready == r);
        lemma_consecutive_from(r);
        assert forall|j: int| 0 <= j < r.len() implies was_pushed(p2, #[trigger] r[j]) && (j == 0
            || m.held.contains(r[j])) by {
            if j > 0 {
                let h = choose|h: int| 0 <= h < m.held.len() && m.held[h] == r[j];
                assert(was_pushed(pushes, m.held[h]));
            }
        }
        assert forall|a1: int, b1: int|
            0 <= a1 < all.len() && 0 <= b1 < all.len() && a1 != b1 implies (#[trigger] all[a1]).seq
            != (#[trigger] all[b1]).seq by {
            if a1 < nr && b1 < nr {
                assert(all[a1] == released[a1]);
                assert(all[b1] == released[b1]);
            } else if a1 >= nr && b1 >= nr {
                assert(all[a1] == r[a1 - nr]);
                assert(all[b1] == r[b1 - nr]);
            } else {
                let (x, y) = if a1 < nr {
                    (a1, b1 - nr)
                } else {
                    (b1, a1 - nr)
                };
                assert(all[x] == released[x]);
                assert(was_pushed(pushes, released[x]));
                if y == 0 {
                    assert(r[0] == f);
                } else {
                    let h = choose|h: int| 0 <= h < m.held.len() && m.held[h] == r[y];
                    assert(released[x].seq != m.held[h].seq);
                }
                assert(all[a1] == released[a1] || all[a1] == r[a1 - nr]);
            }
        }
        if m2 == a {
            assert forall|a1: int, b1: int| 0 <= a1 < all.len() && 0 <= b1 < m2.held.len() implies (
            #[trigger] all[a1]).seq != (#[trigger] m2.held[b1]).seq by {
                let h = choose|h: int| 0 <= h < m.held.len() && m.held[h] == a.held[b1];
                if a1 < nr {
                    assert(all[a1] == released[a1]);
                    assert(released[a1].seq != m.held[h].seq);
                } else {
                    assert(all[a1] == r[a1 - nr]);
                    assert(f.seq + r.len() <= a.held[b1].seq);
                }
            }
            assert forall|k: int| 0 <= k < m2.held.len() implies was_pushed(p2, #[trigger] m2.held[k]) by {
                let h = choose|h: int| 0 <= h < m.held.len() && m.held[h] == a.held[k];
                assert(was_pushed(pushes, m.held[h]));
            }
        } else {
            assert(m2.held.len() == 0);
        }
        assert forall|k: int| 0 <= k < all.len() implies was_pushed(p2, #[trigger] all[k]) by {
            if k < nr {
                assert(all[k] == released[k]);
                assert(was_pushed(pushes, released[k]));
            } else {
                assert(all[k] == r[k - nr]);
            }
        }
    } else {
        assert(ready.len() == 0);
        assert(all =~= released);
        assert forall|k: int| 0 <= k < all.len() implies was_pushed(p2, #[trigger] all[k]) by {
            assert(was_pushed(pushes, released[k]));
        }
        // The held frames are the old ones, maybe `f`, maybe minus one.
        let h = insert_by_seq(m.held, f);
        lemma_insert_by_seq(m.held, f);
        assert forall|k: int| 0 <= k < m2.held.len() implies (#[trigger] m2.held[k] == f
            || m.held.contains(m2.held[k])) by {
            if m2.held.len() > 0 {
                if m2.held == m.held {
                    assert(m.held.contains(m.held[k]));
                } else if m2.held == h {
                    assert(h.contains(h[k]));
                } else {
                    assert(m2.held == h.drop_first());
                    assert(h.drop_first()[k] == h[k + 1]);
                    assert(h.contains(h[k + 1]));
                }
            }
        }
        assert forall|k: int| 0 <= k < m2.held.len() implies was_pushed(p2, #[trigger] m2.held[k]) by {
            if m2.held[k] != f {
                let j = choose|j: int| 0 <= j < m.held.len() && m.held[j] == m2.held[k];
                assert(was_pushed(pushes, m.held[j]));
            }
        }
        assert forall|a1: int, b1: int| 0 <= a1 < all.len() && 0 <= b1 < m2.held.len() implies (
        #[trigger] all[a1]).seq != (#[trigger] m2.held[b1]).seq by {
            assert(was_pushed(pushes, released[a1]));
            if m2.held[b1] != f {
                let j = choose|j: int| 0 <= j < m.held.len() && m.held[j] == m2.held[b1];
            }
        }
    }
}

/// Pushing frames with distinct numbers (in any order, with any losses and
/// delays): every released frame was pushed, and none is released twice.
pub proof fn lemma_released_once(pushes: Seq<(ReceivedVideoFrame, u64)>)
    requires
        distinct_pushed_seqs(pushes),
    ensures
        released_once(pushes, run_pushes(pushes).0, run_pushes(pushes).1),
        forall|k: int|
            0 <= k < run_pushes(pushes).1.len() ==> was_pushed(pushes, #[trigger] run_pushes(pushes).1[k]),
        forall|a: int, b: int|
            0 <= a < run_pushes(pushes).1.len() && 0 <= b < run_pushes(pushes).1.len() && a != b
                ==> #[trigger] run_pushes(pushes).1[a] != #[trigger] run_pushes(pushes).1[b],
    decreases pushes.len(),
{
    lemma_run_pushes_chain(pushes);
    if pushes.len() > 0 {
        let prev = pushes.drop_last();
        assert forall|i: int, j: int|
            0 <= i < prev.len() && 0 <= j < prev.len() && i != j implies (#[trigger] prev[i]).0.seq
            != (#[trigger] prev[j]).0.seq by {
            assert(prev[i] == pushes[i]);
            assert(prev[j] == pushes[j]);
        }
        lemma_released_once(prev);
        lemma_run_pushes_chain(prev);
        let (m, released) = run_pushes(prev);
        assert(prev.push(pushes.last()) =~= pushes);
        lemma_push_keeps_once(prev, m, released, pushes.last().0, pushes.last().1);
    }
    let r = run_pushes(pushes).1;
    assert forall|a: int, b: int| 0 <= a < r.len() && 0 <= b < r.len() && a != b implies #[trigger] r[a]
        != #[trigger] r[b] by {
        assert(r[a].seq != r[b].seq);
    }
}

pub struct VideoReorderBuffer {
    /// Next sequence number that continues the current reference chain.
    expected: Option<u32>,
    /// Frames held back, in increasing sequence order.
    held: Vec<ReceivedVideoFrame>,
    /// Since when (milliseconds) a hole has been open.
    gap_since: Option<u64>,
}

impl View for VideoReorderBuffer {
    type V = ReorderModel;

    closed spec fn view(&self) -> ReorderModel {
        ReorderModel { expected: self.expected, held: self.held@, gap_since: self.gap_since }
    }
}

impl VideoReorderBuffer {
    /// The buffer's invariant: see [`reorder_model_wf`].
    pub open spec fn wf(&self) -> bool {
        reorder_model_wf(self@)
    }

    /// An empty buffer with no chain: the first frame released will be a
    /// keyframe.
    pub fn new() -> (b: Self)
        ensures
            b@ == (ReorderModel { expected: None, held: Seq::empty(), gap_since: None }),
            b.wf(),
    {
        VideoReorderBuffer { expected: None, held: Vec::new(), gap_since: None }
    }

    /// Takes in one received frame at time `now_ms` (milliseconds on a
    /// monotonic clock) and returns the frames now safe to decode, in order,
    /// and whether the sender should be asked for a keyframe.
    pub fn push(&mut self, frame: ReceivedVideoFrame, now_ms: u64) -> (out: ReorderOutput)
        requires
            old(self).wf(),
        ensures
            (final(self)@, out.ready@, out.need_keyframe) == push_spec(old(self)@, frame, now_ms),
            final(self).wf(),
            forall|j: int|
                0 <= j < out.ready@.len() - 1 ==> #[trigger] out.ready@[j + 1].seq == out.ready@[j].seq
                    + 1,
            out.ready@.len() > 0 ==> out.ready@[0] == frame && (frame.is_keyframe || old(
                self,
            )@.expected == Some(frame.seq)),
            out.need_keyframe <==> final(self)@.expected is None,
    {
        proof {
            lemma_push_laws(self@, frame, now_ms);
        }
        let ghost f = frame;
        let ghost m0 = self@;
        let mut out = ReorderOutput { ready: Vec::new(), need_keyframe: false };
        match self.expected {
            None => {
                if frame.is_keyframe {
                    self.start_chain(frame, now_ms, &mut out);
                } else {
                    insert_held(&mut self.held, frame);
                    if self.held.len() > REORDER_MAX_HELD {
                        self.held.remove(0);
                    }
                    out.need_keyframe = true;
                }
            },
            Some(expected) => {
                if frame.seq < expected {
                } else if frame.seq == expected || frame.is_keyframe {
                    self.start_chain(frame, now_ms, &mut out);
                } else {
                    insert_held(&mut self.held, frame);
                    if self.gap_since.is_none() {
                        self.gap_since = Some(now_ms);
                    }
                }
            },
        }
        let gap_expired = match self.gap_since {
            Some(since) => now_ms >= since && now_ms - since >= REORDER_GAP_TIMEOUT_MS,
            None => false,
        };
        if self.expected.is_some() && (gap_expired || self.held.len() > REORDER_MAX_HELD) {
            self.expected = None;
            self.held = Vec::new();
            self.gap_since = None;
            out.need_keyframe = true;
        }
        proof {
            assert(self@.held =~= push_spec(m0, f, now_ms).0.held);
            assert(out.ready@ =~= push_spec(m0, f, now_ms).1);
        }
        out
    }

    fn start_chain(&mut self, frame: ReceivedVideoFrame, now_ms: u64, out: &mut ReorderOutput)
        requires
            old(out).ready@.len() == 0,
            reorder_model_wf(old(self)@),
        ensures
            (final(self)@, final(out).ready@) == start_chain_spec(old(self)@, frame, now_ms),
            final(out).need_keyframe == old(out).need_keyframe,
    {
        let ghost m0 = self@;
        let seq = frame.seq;
        // Drop held frames at or before the new chain's start.
        let ghost i0 = lemma_sorted_boundary(self.held@, seq + 1);
        let ghost h0 = self.held@;
        while self.held.len() > 0 && self.held[0].seq <= seq
            invariant
                0 <= i0 <= h0.len(),
                forall|j: int| 0 <= j < i0 ==> (#[trigger] h0[j]).seq < seq + 1,
                forall|j: int| i0 <= j < h0.len() ==> (#[trigger] h0[j]).seq >= seq + 1,
                h0.len() - self.held@.len() <= i0,
                self.held@.len() <= h0.len(),
                self.held@ == h0.skip(h0.len() - self.held@.len()),
                seq == frame.seq,
            decreases self.held@.len(),
        {
            let ghost before = self.held@;
            let ghost d = h0.len() - before.len();
            proof {
                assert(before[0] == h0[d]);
            }
            self.held.remove(0);
            assert(self.held@ =~= before.subrange(1, before.len() as int));
            assert(self.held@ =~= h0.skip(d + 1));
        }
        proof {
            lemma_filter_suffix(h0, seq_above(seq), i0);
            let d = h0.len() - self.held@.len();
            if d < i0 {
                assert(self.held@[0] == h0[d]);
            }
            assert(self.held@ =~= h0.skip(i0));
        }
        let ghost kept = self.held@;
        proof {
            lemma_chain_run(kept, seq + 1);
        }
        out.ready.push(frame);
        // Release the held frames that continue the chain without a hole.
        let mut next: u64 = seq as u64 + 1;
        while self.held.len() > 0 && self.held[0].seq as u64 == next
            invariant
                next == seq + 1 + (kept.len() - self.held@.len()),
                kept.len() - self.held@.len() <= chain_run(kept, seq + 1),
                self.held@ == kept.skip(kept.len() - self.held@.len()),
                out.ready@ == seq![frame] + kept.take(kept.len() - self.held@.len()),
                forall|j: int| 0 <= j < chain_run(kept, seq + 1) ==> (#[trigger] kept[j]).seq == seq
                    + 1 + j,
                chain_run(kept, seq + 1) < kept.len() ==> kept[chain_run(kept, seq + 1) as int].seq
                    != seq + 1 + chain_run(kept, seq + 1),
                chain_run(kept, seq + 1) <= kept.len(),
                self.held@.len() <= kept.len(),
                seq == frame.seq,
                out.ready@.len() >= 1,
                out.need_keyframe == old(out).need_keyframe,
            decreases self.held@.len(),
        {
            let ghost before = self.held@;
            let ghost taken = kept.len() - before.len();
            proof {
                assert(before[0] == kept[taken]);
            }
            let f = self.held.remove(0);
            out.ready.push(f);
            next = next + 1;
            assert(self.held@ =~= before.subrange(1, before.len() as int));
            assert(self.held@ =~= kept.skip(taken + 1));
            assert(out.ready@ =~= seq![frame] + kept.take(kept.len() - self.held@.len()));
        }
        proof {
            let taken = kept.len() - self.held@.len();
            if taken < chain_run(kept, seq + 1) {
                assert(self.held@[0] == kept[taken]);
            }
        }
        self.expected = Some(if next > u32::MAX as u64 {
            0
        } else {
            next as u32
        });
        self.gap_since = if self.held.len() == 0 {
            None
        } else {
            Some(now_ms)
        };
    }
}

/// Places `frame` among the held frames by its sequence number, replacing a
/// held frame with the same number.
fn insert_held(held: &mut Vec<ReceivedVideoFrame>, frame: ReceivedVideoFrame)
    requires
        sorted_by_seq(old(held)@),
    ensures
        final(held)@ == insert_by_seq(old(held)@, frame),
{
    let ghost h = held@;
    let ghost f = frame;
    let mut i: usize = 0;
    while i < held.len() && held[i].seq < frame.seq
        invariant
            i <= held@.len(),
            held@ == h,
            frame == f,
            forall|j: int| 0 <= j < i ==> (#[trigger] h[j]).seq < f.seq,
        decreases held@.len() - i,
    {
        i = i + 1;
    }
    proof {
        assert forall|j: int| i <= j < h.len() implies (#[trigger] h[j]).seq >= f.seq by {
            if j > i {
                assert(h[i as int].seq < h[j].seq);
            }
        }
        lemma_filter_prefix(h, seq_below(f.seq), i as int);
    }
    let replace = i < held.len() && held[i].seq == frame.seq;
    let ghost i2: int = if replace {
        i + 1
    } else {
        i as int
    };
    proof {
        assert forall|j: int| i2 <= j < h.len() implies (#[trigger] h[j]).seq > f.seq by {
            if j > i {
                assert(h[i as int].seq < h[j].seq);
            }
        }
        lemma_filter_suffix(h, seq_above(f.seq), i2);
    }
    if replace {
        held.remove(i);
    }
    held.insert(i, frame);
    assert(held@ =~= h.take(i as int) + seq![f] + h.skip(i2));
}

// ── Sender ────────────────────────────────────────────────────────────
/// An encoded frame waiting to be written to one peer.
#[derive(Debug, Clone, PartialEq, Eq)]
pub struct PendingVideoFrame {
    pub timestamp_ms: u64,
    pub payload: Vec<u8>,
    pub is_keyframe: bool,
    /// When it was queued, milliseconds on a monotonic clock.
    pub queued_at_ms: u64,
}

/// Per-peer outbound video queue: a single "next frame" slot, whether the
/// peer's reference chain is broken, whether the encoder should be asked
/// for a keyframe, and how many frames were skipped or lost since the last
/// report.
pub struct PeerVideoWriter {
    pub pending: Option<PendingVideoFrame>,
    /// The peer's reference chain is broken (a frame was skipped or lost);
    /// deltas are useless until the next keyframe.
    pub awaiting_keyframe: bool,
    /// Set to ask the encoder for a keyframe.
    pub request_keyframe: bool,
    pub dropped_frames: u32,
}

pub open spec fn wrapping_inc(x: u32) -> u32 {
    if x == u32::MAX {
        0
    } else {
        (x + 1) as u32
    }
}

impl PeerVideoWriter {
    /// A writer for a new connection: no reference chain yet.
    pub fn new() -> (w: Self)
        ensures
            w.pending is None,
            w.awaiting_keyframe,
            !w.request_keyframe,
            w.dropped_frames == 0,
    {
        PeerVideoWriter {
            pending: None,
            awaiting_keyframe: true,
            request_keyframe: false,
            dropped_frames: 0,
        }
    }

    /// Offers a freshly encoded frame. A keyframe always takes the slot and
    /// restores the chain. A delta is taken only while the chain is intact
    /// and the slot is free; a delta arriving on a broken chain asks for a
    /// keyframe, and one that finds the slot busy is skipped, which breaks
    /// the chain.
    pub fn enqueue(&mut self, frame: PendingVideoFrame)
        ensures
            frame.is_keyframe ==> {
                &&& final(self).pending == Some(frame)
                &&& !final(self).awaiting_keyframe
                &&& final(self).request_keyframe == old(self).request_keyframe
                &&& final(self).dropped_frames == old(self).dropped_frames
            },
            (!frame.is_keyframe && old(self).awaiting_keyframe) ==> {
                &&& final(self).pending == old(self).pending
                &&& final(self).awaiting_keyframe
                &&& final(self).request_keyframe
                &&& final(self).dropped_frames == old(self).dropped_frames
            },
            (!frame.is_keyframe && !old(self).awaiting_keyframe && (old(self).pending is Some)) ==> {
                &&& final(self).pending == old(self).pending
                &&& final(self).awaiting_keyframe
                &&& final(self).request_keyframe
                &&& final(self).dropped_frames == wrapping_inc(old(self).dropped_frames)
            },
            (!frame.is_keyframe && !old(self).awaiting_keyframe && (old(self).pending is None)) ==> {
                &&& final(self).pending == Some(frame)
                &&& !final(self).awaiting_keyframe
                &&& final(self).request_keyframe == old(self).request_keyframe
                &&& final(self).dropped_frames == old(self).dropped_frames
            },
    {
        if frame.is_keyframe {
            self.awaiting_keyframe = false;
            self.pending = Some(frame);
        } else if self.awaiting_keyframe {
            self.request_keyframe = true;
        } else if self.pending.is_some() {
            self.awaiting_keyframe = true;
            self.request_keyframe = true;
            self.dropped_frames = if self.dropped_frames == u32::MAX {
                0
            } else {
                self.dropped_frames + 1
            };
        } else {
            self.pending = Some(frame);
        }
    }

    /// Frames stopped flowing to this peer: the next one it gets must be a
    /// keyframe, so a queued delta is discarded.
    pub fn mark_gap(&mut self)
        ensures
            final(self).awaiting_keyframe,
            final(self).pending == (match old(self).pending {
                Some(f) => if f.is_keyframe {
                    Some(f)
                } else {
                    None
                },
                None => None,
            }),
            final(self).request_keyframe == old(self).request_keyframe,
            final(self).dropped_frames == old(self).dropped_frames,
    {
        self.awaiting_keyframe = true;
        let discard = match &self.pending {
            Some(f) => !f.is_keyframe,
            None => false,
        };
        if discard {
            self.pending = None;
        }
    }

    /// Frames skipped or abandoned since the last call; resets the count.
    pub fn take_dropped_frames(&mut self) -> (n: u32)
        ensures
            n == old(self).dropped_frames,
            final(self).dropped_frames == 0,
            final(self).pending == old(self).pending,
            final(self).awaiting_keyframe == old(self).awaiting_keyframe,
            final(self).request_keyframe == old(self).request_keyframe,
    {
        let n = self.dropped_frames;
        self.dropped_frames = 0;
        n
    }

    /// Takes the keyframe request, if any, for the encoder.
    pub fn take_keyframe_request(&mut self) -> (r: bool)
        ensures
            r == old(self).request_keyframe,
            !final(self).request_keyframe,
            final(self).pending == old(self).pending,
            final(self).awaiting_keyframe == old(self).awaiting_keyframe,
            final(self).dropped_frames == old(self).dropped_frames,
    {
        let r = self.request_keyframe;
        self.request_keyframe = false;
        r
    }

    /// A frame in flight was not delivered: the chain is broken, a keyframe
    /// is requested and the loss counted.
    pub fn frame_lost(&mut self)
        ensures
            final(self).awaiting_keyframe,
            final(self).request_keyframe,
            final(self).dropped_frames == wrapping_inc(old(self).dropped_frames),
            final(self).pending == (match old(self).pending {
                Some(f) => if f.is_keyframe {
                    Some(f)
                } else {
                    None
                },
                None => None,
            }),
    {
        self.mark_gap();
        self.request_keyframe = true;
        self.dropped_frames = if self.dropped_frames == u32::MAX {
            0
        } else {
            self.dropped_frames + 1
        };
    }

    /// The next frame to write at `now_ms`. A delta that waited longer than
    /// [`MAX_QUEUED_FRAME_AGE_MS`] is too stale to send and counts as lost;
    /// a stale keyframe is still sent, being the only way to restart the
    /// chain.
    pub fn take_next(&mut self, now_ms: u64) -> (r: Option<PendingVideoFrame>)
        ensures
            final(self).pending is None,
            old(self).pending is None ==> {
                &&& r is None
                &&& final(self).awaiting_keyframe == old(self).awaiting_keyframe
                &&& final(self).request_keyframe == old(self).request_keyframe
                &&& final(self).dropped_frames == old(self).dropped_frames
            },
            old(self).pending matches Some(f) ==> if !f.is_keyframe && now_ms > f.queued_at_ms
                + MAX_QUEUED_FRAME_AGE_MS {
                &&& r is None
                &&& final(self).awaiting_keyframe
                &&& final(self).request_keyframe
                &&& final(self).dropped_frames == wrapping_inc(old(self).dropped_frames)
            } else {
                &&& r == Some(f)
                &&& final(self).awaiting_keyframe == old(self).awaiting_keyframe
                &&& final(self).request_keyframe == old(self).request_keyframe
                &&& final(self).dropped_frames == old(self).dropped_frames
            },
    {
        let frame = match self.pending.take() {
            Some(f) => f,
            None => {
                return None;
            },
        };
        let age = if now_ms >= frame.queued_at_ms {
            now_ms - frame.queued_at_ms
        } else {
            0
        };
        if age > MAX_QUEUED_FRAME_AGE_MS && !frame.is_keyframe {
            self.frame_lost();
            return None;
        }
        Some(frame)
    }
}

} // verus!
