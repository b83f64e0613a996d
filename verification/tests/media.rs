use nafaq::media::{
    audio_sequence_gap, concealment_frames, decoded_frame_timestamp, pack_audio_channel_packet,
    pack_video_channel_packet, pack_video_channel_raw_nalu, pcm_from_le_bytes, pcm_to_le_bytes,
    skip_until_keyframe,
};

#[test]
fn first_packet_and_in_order_packets_have_no_gap() {
    assert_eq!(audio_sequence_gap(None, 42), Some(0));
    assert_eq!(audio_sequence_gap(Some(42), 43), Some(0));
}

#[test]
fn a_jump_reports_the_missing_packets() {
    assert_eq!(audio_sequence_gap(Some(5), 8), Some(2));
}

#[test]
fn duplicates_and_late_packets_are_dropped() {
    assert_eq!(audio_sequence_gap(Some(7), 7), None);
    assert_eq!(audio_sequence_gap(Some(7), 6), None);
}

#[test]
fn wraps_around_u16() {
    assert_eq!(audio_sequence_gap(Some(u16::MAX), 0), Some(0));
    assert_eq!(audio_sequence_gap(Some(u16::MAX - 1), 1), Some(2));
    assert_eq!(audio_sequence_gap(Some(0), u16::MAX), None);
}

#[test]
fn half_range_jumps_are_treated_as_late() {
    assert_eq!(audio_sequence_gap(Some(0), 0x7fff), Some(0x7ffe));
    assert_eq!(audio_sequence_gap(Some(0), 0x8000), None);
}

#[test]
fn audio_channel_packet_layout() {
    let packet = pack_audio_channel_packet("ab", 0x0102, &[9, 8, 7]).unwrap();
    assert_eq!(
        packet,
        vec![2, 0, b'a', b'b', 0x02, 0x01, 0, 0, 0, 0, 0, 0, 3, 0, 0, 0, 9, 8, 7]
    );
}

#[test]
fn raw_nalu_packet_layout() {
    let packet = pack_video_channel_raw_nalu("p", 1, &[0xAA], true).unwrap();
    assert_eq!(
        packet,
        vec![1, 0, b'p', 1, 0, 0, 0, 0, 0, 0, 0, 1, 1, 0, 0, 0, 0xAA]
    );
    let delta = pack_video_channel_raw_nalu("p", 1, &[], false).unwrap();
    assert_eq!(delta[11], 0);
}

#[test]
fn jpeg_packet_layout() {
    let packet = pack_video_channel_packet("", 0, 640, 360, &[0xFF, 0xD8]).unwrap();
    assert_eq!(
        packet,
        vec![
            0, 0, 0, 0, 0, 0, 0, 0, 0, 0, 0x80, 0x02, 0, 0, 0x68, 0x01, 0, 0, 2, 0, 0, 0, 0xFF,
            0xD8
        ]
    );
}

#[test]
fn peer_id_too_long_for_its_length_field_is_refused() {
    let long = "x".repeat(65536);
    assert!(pack_audio_channel_packet(&long, 0, &[]).is_none());
    assert!(pack_video_channel_raw_nalu(&long, 0, &[], true).is_none());
    assert!(pack_video_channel_packet(&long, 0, 1, 1, &[]).is_none());
    let max = "x".repeat(65535);
    assert!(pack_audio_channel_packet(&max, 0, &[]).is_some());
}

#[test]
fn pcm_round_trips_through_little_endian_bytes() {
    let pcm = vec![0i16, 1, -1, i16::MAX, i16::MIN, 0x1234];
    let bytes = pcm_to_le_bytes(&pcm);
    assert_eq!(&bytes[..6], &[0, 0, 1, 0, 0xFF, 0xFF]);
    assert_eq!(&bytes[10..], &[0x34, 0x12]);
    assert_eq!(pcm_from_le_bytes(&bytes), pcm);
    // A trailing odd byte is ignored.
    assert_eq!(pcm_from_le_bytes(&[1, 0, 7]), vec![1]);
}

#[test]
fn concealment_before_a_packet_after_losses() {
    assert_eq!(concealment_frames(0), 0);
    assert_eq!(concealment_frames(1), 1);
    assert_eq!(concealment_frames(2), 2);
    assert_eq!(concealment_frames(3), 3);
    assert_eq!(concealment_frames(40), 3);
    // Three concealment frames and the real one: back-dated 20 ms each.
    assert_eq!(decoded_frame_timestamp(1000, 4, 0), 940);
    assert_eq!(decoded_frame_timestamp(1000, 4, 3), 1000);
    assert_eq!(decoded_frame_timestamp(30, 4, 0), 0);
}

#[test]
fn resync_skips_deltas_until_a_keyframe() {
    assert!(skip_until_keyframe(true, false));
    assert!(!skip_until_keyframe(true, true));
    assert!(!skip_until_keyframe(false, false));
}
