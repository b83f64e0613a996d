//! Media handed between the network and the frontend: audio sequence
//! tracking on the receive path, and the binary packets written to the
//! frontend's media channels.
//!
//! Channel packets are little-endian: `[peer_id_len: u16][peer_id]
//! [timestamp_ms: u64]` followed by the media part of each packet kind.

use vstd::prelude::*;
use vstd::string::StringSliceAdditionalSpecFns;

use crate::bytes::{from_le16, le16, le32, le64, push_all, push_le16, push_le32, push_le64, read_le16};

verus! {

/// How far `sequence` is ahead of `previous`, counting modulo 2^16.
pub open spec fn sequence_advance(previous: u16, sequence: u16) -> int {
    if sequence >= previous {
        sequence - previous
    } else {
        sequence - previous + 65536
    }
}

pub open spec fn sequence_gap_spec(previous: Option<u16>, sequence: u16) -> Option<u16> {
    match previous {
        None => Some(0u16),
        Some(p) => {
            let advance = sequence_advance(p, sequence);
            if advance == 0 || advance >= 0x8000 {
                None
            } else {
                Some((advance - 1) as u16)
            }
        },
    }
}

/// Wrapping-aware high-water mark for a peer's audio datagrams: how many
/// packets were lost before `sequence`, or none if it must be dropped (a
/// duplicate, or a late packet whose slot concealment already filled).
pub fn audio_sequence_gap(previous: Option<u16>, sequence: u16) -> (gap: Option<u16>)
    ensures
        gap == sequence_gap_spec(previous, sequence),
{
    match previous {
        None => Some(0),
        Some(p) => {
            let advance: u16 = if sequence >= p {
                sequence - p
            } else {
                (65535 - p) + sequence + 1
            };
            if advance == 0 || advance >= 0x8000 {
                None
            } else {
                Some(advance - 1)
            }
        },
    }
}

/// A packet that follows the previous one directly reports no loss, and
/// the next sequence number after any accepted packet is always accepted,
/// across the wrap at 2^16.
pub proof fn lemma_next_sequence_has_no_gap(previous: u16)
    ensures
        sequence_gap_spec(Some(previous), (if previous == 65535 {
            0
        } else {
            previous + 1
        }) as u16) == Some(0u16),
        sequence_gap_spec(Some(previous), previous) is None,
{
}

/// The common head of every channel packet.
pub open spec fn channel_head(peer_id: Seq<u8>, timestamp_ms: u64) -> Seq<u8> {
    le16(peer_id.len() as u16) + peer_id + le64(timestamp_ms)
}

pub open spec fn audio_channel_bytes(peer_id: Seq<u8>, timestamp_ms: u64, pcm: Seq<u8>) -> Seq<u8> {
    channel_head(peer_id, timestamp_ms) + le32(pcm.len() as u32) + pcm
}

pub open spec fn raw_nalu_channel_bytes(
    peer_id: Seq<u8>,
    timestamp_ms: u64,
    h264: Seq<u8>,
    is_keyframe: bool,
) -> Seq<u8> {
    channel_head(peer_id, timestamp_ms) + seq![
        if is_keyframe {
            1u8
        } else {
            0u8
        },
    ] + le32(h264.len() as u32) + h264
}

pub open spec fn jpeg_channel_bytes(
    peer_id: Seq<u8>,
    timestamp_ms: u64,
    width: u32,
    height: u32,
    jpeg: Seq<u8>,
) -> Seq<u8> {
    channel_head(peer_id, timestamp_ms) + le32(width) + le32(height) + le32(jpeg.len() as u32) + jpeg
}

/// Whether the lengths fit the packet's length fields.
pub open spec fn fits_channel(peer_id: Seq<u8>, media: Seq<u8>) -> bool {
    peer_id.len() <= 65535 && media.len() <= 4294967295
}

fn push_channel_head(buf: &mut Vec<u8>, peer: &[u8], timestamp_ms: u64)
    requires
        peer@.len() <= 65535,
    ensures
        final(buf)@ == old(buf)@ + channel_head(peer@, timestamp_ms),
{
    push_le16(buf, peer.len() as u16);
    push_all(buf, peer);
    push_le64(buf, timestamp_ms);
    assert(buf@ =~= old(buf)@ + channel_head(peer@, timestamp_ms));
}

/// An audio channel packet: the head, then `[pcm_len: u32][pcm]`. None when
/// a length does not fit its field.
pub fn pack_audio_channel_packet(peer_id: &str, timestamp: u64, pcm: &[u8]) -> (p: Option<Vec<u8>>)
    ensures
        p is Some <==> fits_channel(peer_id.spec_bytes(), pcm@),
        p matches Some(v) ==> v@ == audio_channel_bytes(peer_id.spec_bytes(), timestamp, pcm@),
{
    let peer = peer_id.as_bytes();
    if peer.len() > 65535 || pcm.len() as u64 > 4294967295u64 {
        return None;
    }
    let mut packet: Vec<u8> = Vec::new();
    push_channel_head(&mut packet, peer, timestamp);
    push_le32(&mut packet, pcm.len() as u32);
    push_all(&mut packet, pcm);
    assert(packet@ =~= audio_channel_bytes(peer_id.spec_bytes(), timestamp, pcm@));
    Some(packet)
}

/// A raw H.264 channel packet: the head, then `[keyframe: u8][len: u32]
/// [annex-b]`. None when a length does not fit its field.
pub fn pack_video_channel_raw_nalu(
    peer_id: &str,
    timestamp: u64,
    h264_data: &[u8],
    is_keyframe: bool,
) -> (p: Option<Vec<u8>>)
    ensures
        p is Some <==> fits_channel(peer_id.spec_bytes(), h264_data@),
        p matches Some(v) ==> v@ == raw_nalu_channel_bytes(
            peer_id.spec_bytes(),
            timestamp,
            h264_data@,
            is_keyframe,
        ),
{
    let peer = peer_id.as_bytes();
    if peer.len() > 65535 || h264_data.len() as u64 > 4294967295u64 {
        return None;
    }
    let mut packet: Vec<u8> = Vec::new();
    push_channel_head(&mut packet, peer, timestamp);
    packet.push(
        if is_keyframe {
            1
        } else {
            0
        },
    );
    push_le32(&mut packet, h264_data.len() as u32);
    push_all(&mut packet, h264_data);
    assert(packet@ =~= raw_nalu_channel_bytes(
        peer_id.spec_bytes(),
        timestamp,
        h264_data@,
        is_keyframe,
    ));
    Some(packet)
}

/// A decoded-video channel packet: the head, then `[width: u32]
/// [height: u32][jpeg_len: u32][jpeg]`. None when a length does not fit its
/// field.
pub fn pack_video_channel_packet(
    peer_id: &str,
    timestamp: u64,
    width: u32,
    height: u32,
    jpeg: &[u8],
) -> (p: Option<Vec<u8>>)
    ensures
        p is Some <==> fits_channel(peer_id.spec_bytes(), jpeg@),
        p matches Some(v) ==> v@ == jpeg_channel_bytes(
            peer_id.spec_bytes(),
            timestamp,
            width,
            height,
            jpeg@,
        ),
{
    let peer = peer_id.as_bytes();
    if peer.len() > 65535 || jpeg.len() as u64 > 4294967295u64 {
        return None;
    }
    let mut packet: Vec<u8> = Vec::new();
    push_channel_head(&mut packet, peer, timestamp);
    push_le32(&mut packet, width);
    push_le32(&mut packet, height);
    push_le32(&mut packet, jpeg.len() as u32);
    push_all(&mut packet, jpeg);
    assert(packet@ =~= jpeg_channel_bytes(peer_id.spec_bytes(), timestamp, width, height, jpeg@));
    Some(packet)
}

/// The little-endian bytes of 16-bit PCM samples.
pub open spec fn pcm_bytes(pcm: Seq<i16>) -> Seq<u8>
    decreases pcm.len(),
{
    if pcm.len() == 0 {
        Seq::empty()
    } else {
        pcm_bytes(pcm.drop_last()) + le16(pcm.last() as u16)
    }
}

/// Writes 16-bit PCM samples as little-endian bytes.
pub fn pcm_to_le_bytes(pcm: &[i16]) -> (out: Vec<u8>)
    ensures
        out@ == pcm_bytes(pcm@),
{
    let mut out: Vec<u8> = Vec::new();
    let mut i: usize = 0;
    while i < pcm.len()
        invariant
            i <= pcm@.len(),
            out@ == pcm_bytes(pcm@.take(i as int)),
        decreases pcm@.len() - i,
    {
        push_le16(&mut out, pcm[i] as u16);
        assert(pcm@.take(i + 1).drop_last() =~= pcm@.take(i as int));
        i = i + 1;
    }
    assert(pcm@.take(i as int) =~= pcm@);
    out
}

/// Reads little-endian 16-bit PCM samples; a trailing odd byte is ignored.
pub fn pcm_from_le_bytes(data: &[u8]) -> (pcm: Vec<i16>)
    ensures
        pcm@.len() == data@.len() / 2,
        forall|i: int| 0 <= i < pcm@.len() ==> #[trigger] pcm@[i] == from_le16(
            data@.subrange(2 * i, 2 * i + 2),
        ) as i16,
{
    let len = data.len();
    let n = len / 2;
    let mut pcm: Vec<i16> = Vec::new();
    let mut i: usize = 0;
    while i < n
        invariant
            len == data@.len(),
            n == data@.len() / 2,
            i <= n,
            pcm@.len() == i,
            forall|j: int| 0 <= j < i ==> #[trigger] pcm@[j] == from_le16(
                data@.subrange(2 * j, 2 * j + 2),
            ) as i16,
        decreases n - i,
    {
        assert(2 * i + 2 <= data@.len());
        let v = read_le16(data, 2 * i);
        pcm.push(v as i16);
        i = i + 1;
    }
    pcm
}

/// How many concealment frames are decoded before a packet that follows
/// `lost` missing ones: up to two for the earlier holes, plus one recovered
/// from the packet's forward error correction when anything was lost.
pub fn concealment_frames(lost: u16) -> (n: u16)
    ensures
        n == (if lost == 0 {
            0
        } else if lost - 1 < 2 {
            lost
        } else {
            3
        }),
{
    if lost == 0 {
        0
    } else if lost - 1 < 2 {
        lost
    } else {
        3
    }
}

/// The timestamp of frame `i` of `total` decoded from one packet: the
/// concealment frames before the real one are back-dated one 20 ms frame
/// each (never below zero).
pub fn decoded_frame_timestamp(timestamp: u64, total: u64, i: u64) -> (t: u64)
    requires
        i < total,
        20 * (total - 1 - i) <= u64::MAX,
    ensures
        t == (if timestamp >= 20 * (total - 1 - i) {
            timestamp - 20 * (total - 1 - i)
        } else {
            0
        }),
{
    let back = 20 * (total - 1 - i);
    if timestamp >= back {
        timestamp - back
    } else {
        0
    }
}

/// Whether a received video frame of a peer waiting to resynchronise (its
/// frames were lost to lag) is skipped: deltas are, until a keyframe comes.
pub fn skip_until_keyframe(awaiting_resync: bool, is_keyframe: bool) -> (skip: bool)
    ensures
        skip == (awaiting_resync && !is_keyframe),
{
    awaiting_resync && !is_keyframe
}

} // verus!
