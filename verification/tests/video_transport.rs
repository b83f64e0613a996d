use nafaq::messages::STREAM_VIDEO;
use nafaq::video_transport::{
    decode_video_frame, encode_video_frame, PeerVideoWriter, PendingVideoFrame,
    ReceivedVideoFrame, ReorderOutput, VideoReorderBuffer, MAX_QUEUED_FRAME_AGE_MS,
    REORDER_GAP_TIMEOUT_MS, REORDER_MAX_HELD,
};

fn frame(seq: u32, key: bool) -> ReceivedVideoFrame {
    ReceivedVideoFrame {
        seq,
        timestamp_ms: seq as u64 * 83,
        is_keyframe: key,
        payload: vec![seq as u8],
    }
}

fn seqs(out: &ReorderOutput) -> Vec<u32> {
    out.ready.iter().map(|f| f.seq).collect()
}

#[test]
fn header_round_trips() {
    let bytes = encode_video_frame(7, 1234, &[1, 2, 3]);
    assert_eq!(bytes[0], STREAM_VIDEO);
    let (seq, ts, payload) = decode_video_frame(&bytes[1..]).unwrap();
    assert_eq!((seq, ts, payload), (7, 1234, &[1u8, 2, 3][..]));
    assert!(decode_video_frame(&bytes[1..13]).is_none());
}

#[test]
fn deltas_before_first_keyframe_are_withheld() {
    let mut buf = VideoReorderBuffer::new();
    let now = 1_000;
    let out = buf.push(frame(1, false), now);
    assert!(out.ready.is_empty());
    assert!(out.need_keyframe);
    let out = buf.push(frame(2, true), now);
    assert_eq!(seqs(&out), vec![2]);
    assert!(!out.need_keyframe);
}

#[test]
fn reordered_frames_are_released_in_order() {
    let mut buf = VideoReorderBuffer::new();
    let now = 1_000;
    buf.push(frame(1, true), now);
    assert!(buf.push(frame(3, false), now).ready.is_empty());
    let out = buf.push(frame(2, false), now);
    assert_eq!(seqs(&out), vec![2, 3]);
}

#[test]
fn delta_arriving_before_its_keyframe_is_kept() {
    let mut buf = VideoReorderBuffer::new();
    let now = 1_000;
    buf.push(frame(1, true), now);
    buf.push(frame(2, false), now);
    // Big keyframe 3 finishes after delta 4.
    assert!(buf.push(frame(4, false), now).ready.is_empty());
    let out = buf.push(frame(3, true), now);
    assert_eq!(seqs(&out), vec![3, 4]);
}

#[test]
fn permanent_hole_drops_dependents_and_requests_keyframe() {
    let mut buf = VideoReorderBuffer::new();
    let start = 1_000;
    buf.push(frame(1, true), start);
    buf.push(frame(3, false), start);
    let out = buf.push(frame(4, false), start + REORDER_GAP_TIMEOUT_MS);
    assert!(out.ready.is_empty());
    assert!(out.need_keyframe);
    // Late arrival of the missing frame no longer resurrects the chain.
    let out = buf.push(frame(2, false), start + REORDER_GAP_TIMEOUT_MS);
    assert!(out.ready.is_empty());
    let out = buf.push(frame(5, true), start + REORDER_GAP_TIMEOUT_MS);
    assert_eq!(seqs(&out), vec![5]);
}

#[test]
fn overflowing_the_hold_while_chained_resets_and_requests_keyframe() {
    let mut buf = VideoReorderBuffer::new();
    let now = 1_000;
    buf.push(frame(1, true), now);
    // Frame 2 is missing; 3.. pile up before the gap timeout.
    for seq in 3..(3 + REORDER_MAX_HELD as u32) {
        let out = buf.push(frame(seq, false), now);
        assert!(out.ready.is_empty());
        assert!(!out.need_keyframe, "held {seq} within the cap");
    }
    let out = buf.push(frame(3 + REORDER_MAX_HELD as u32, false), now);
    assert!(out.ready.is_empty());
    assert!(out.need_keyframe, "overflow must reset and ask for a keyframe");
    // The chain restarts only at a keyframe.
    assert!(buf.push(frame(2, false), now).ready.is_empty());
    let key = 4 + REORDER_MAX_HELD as u32;
    assert_eq!(seqs(&buf.push(frame(key, true), now)), vec![key]);
}

#[test]
fn keyframe_after_hole_resyncs_immediately() {
    let mut buf = VideoReorderBuffer::new();
    let now = 1_000;
    buf.push(frame(1, true), now);
    buf.push(frame(3, false), now);
    let out = buf.push(frame(4, true), now);
    assert_eq!(seqs(&out), vec![4]);
    assert!(buf.push(frame(3, false), now).ready.is_empty());
}

#[test]
fn duplicates_and_late_frames_are_ignored() {
    let mut buf = VideoReorderBuffer::new();
    let now = 1_000;
    buf.push(frame(1, true), now);
    buf.push(frame(2, false), now);
    assert!(buf.push(frame(2, false), now).ready.is_empty());
    assert!(buf.push(frame(1, true), now).ready.is_empty());
}

#[test]
fn in_order_stream_flows_straight_through_across_the_sequence_wrap() {
    let mut buf = VideoReorderBuffer::new();
    let now = 5;
    assert_eq!(seqs(&buf.push(frame(u32::MAX, true), now)), vec![u32::MAX]);
    assert_eq!(seqs(&buf.push(frame(0, false), now)), vec![0]);
    assert_eq!(seqs(&buf.push(frame(1, false), now)), vec![1]);
}

#[test]
fn hole_within_the_gap_timeout_keeps_waiting() {
    let mut buf = VideoReorderBuffer::new();
    buf.push(frame(1, true), 0);
    let out = buf.push(frame(3, false), 0);
    assert!(out.ready.is_empty() && !out.need_keyframe);
    let out = buf.push(frame(4, false), REORDER_GAP_TIMEOUT_MS - 1);
    assert!(out.ready.is_empty() && !out.need_keyframe);
    assert_eq!(seqs(&buf.push(frame(2, false), REORDER_GAP_TIMEOUT_MS - 1)), vec![2, 3, 4]);
}

fn pending(key: bool) -> PendingVideoFrame {
    PendingVideoFrame {
        timestamp_ms: 0,
        payload: vec![0],
        is_keyframe: key,
        queued_at_ms: 0,
    }
}

#[test]
fn writer_waits_for_keyframe_on_a_new_connection() {
    let mut writer = PeerVideoWriter::new();
    writer.enqueue(pending(false));
    assert!(writer.pending.is_none());
    assert!(writer.request_keyframe);
    writer.enqueue(pending(true));
    assert!(writer.pending.is_some());
}

#[test]
fn skipping_a_delta_breaks_the_chain_until_the_next_keyframe() {
    let mut writer = PeerVideoWriter::new();
    writer.enqueue(pending(true));
    writer.request_keyframe = false;
    // Slot still busy with the keyframe: this delta must be skipped...
    writer.enqueue(pending(false));
    assert!(writer.awaiting_keyframe);
    assert!(writer.request_keyframe);
    assert_eq!(writer.take_dropped_frames(), 1);
    // ...and so must every delta after it, even once the slot drains.
    assert!(writer.take_next(0).is_some_and(|f| f.is_keyframe));
    writer.enqueue(pending(false));
    assert!(writer.pending.is_none());
    writer.enqueue(pending(true));
    assert!(!writer.awaiting_keyframe);
}

#[test]
fn mark_gap_discards_a_queued_delta() {
    let mut writer = PeerVideoWriter::new();
    writer.enqueue(pending(true));
    writer.take_next(0);
    writer.enqueue(pending(false));
    writer.mark_gap();
    assert!(writer.pending.is_none());
    assert!(writer.awaiting_keyframe);
}

#[test]
fn stale_delta_is_dropped_but_stale_keyframe_is_sent() {
    let mut writer = PeerVideoWriter::new();
    writer.enqueue(pending(true));
    assert!(writer.take_next(MAX_QUEUED_FRAME_AGE_MS + 1).is_some());
    writer.enqueue(pending(false));
    assert!(writer.pending.is_some());
    assert!(writer.take_next(MAX_QUEUED_FRAME_AGE_MS + 1).is_none());
    assert!(writer.awaiting_keyframe);
    assert!(writer.take_keyframe_request());
    assert!(!writer.request_keyframe);
    assert_eq!(writer.take_dropped_frames(), 1);
    assert_eq!(writer.take_dropped_frames(), 0);
    // A delta queued just in time still goes out.
    writer.enqueue(pending(true));
    writer.take_next(0);
    writer.enqueue(pending(false));
    assert!(writer.take_next(MAX_QUEUED_FRAME_AGE_MS).is_some());
}

#[test]
fn lost_frame_breaks_the_chain_and_counts() {
    let mut writer = PeerVideoWriter::new();
    writer.enqueue(pending(true));
    writer.take_next(0);
    writer.frame_lost();
    assert!(writer.awaiting_keyframe && writer.request_keyframe);
    assert_eq!(writer.take_dropped_frames(), 1);
}
