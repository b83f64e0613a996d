use nafaq::messages::{
    event_name, frame, frame_len, next_read_slice, AudioDatagram, DmMessage, Event, MediaFrame,
    VideoLayerRequest, FRAME_READ_SLICE, MAX_CHAT_FRAME_BYTES, STREAM_VIDEO,
};

#[test]
fn test_media_frame_roundtrip() {
    let frame = MediaFrame {
        stream_type: STREAM_VIDEO,
        peer_id: [0xAB; 32],
        timestamp_ms: 1234567890,
        payload: vec![1, 2, 3, 4, 5],
    };
    let encoded = frame.encode();
    assert_eq!(encoded.len(), MediaFrame::HEADER_SIZE + 5);

    let decoded = MediaFrame::decode(&encoded).unwrap();
    assert_eq!(decoded.stream_type, STREAM_VIDEO);
    assert_eq!(decoded.peer_id, [0xAB; 32]);
    assert_eq!(decoded.timestamp_ms, 1234567890);
    assert_eq!(decoded.payload, vec![1, 2, 3, 4, 5]);
}

#[test]
fn test_media_frame_decode_too_short() {
    let data = vec![0; 10];
    assert!(MediaFrame::decode(&data).is_none());
}

#[test]
fn test_audio_datagram_roundtrip() {
    let encoded = AudioDatagram::encode(42, 1234, &[1, 2, 3, 4]);
    let decoded = AudioDatagram::decode(&encoded).unwrap();
    assert_eq!(decoded.sequence, 42);
    assert_eq!(decoded.timestamp_ms, 1234);
    assert_eq!(decoded.payload, vec![1, 2, 3, 4]);
}

#[test]
fn test_audio_datagram_decode_too_short() {
    assert!(AudioDatagram::decode(&[1, 2, 3]).is_none());
}

#[test]
fn audio_datagram_layout_is_big_endian_sequence_then_timestamp() {
    let encoded = AudioDatagram::encode(0x0102, 0x0304050607080910, &[0xEE]);
    assert_eq!(
        encoded,
        vec![0x01, 0x02, 0x03, 0x04, 0x05, 0x06, 0x07, 0x08, 0x09, 0x10, 0xEE]
    );
    assert_eq!(AudioDatagram::HEADER_SIZE, 10);
    // Exactly a header decodes to an empty payload.
    let header_only = AudioDatagram::decode(&encoded[..10]).unwrap();
    assert!(header_only.payload.is_empty());
}

#[test]
fn media_frame_header_layout() {
    let frame = MediaFrame {
        stream_type: 7,
        peer_id: [1; 32],
        timestamp_ms: 0x0A0B,
        payload: vec![],
    };
    let encoded = frame.encode();
    assert_eq!(encoded.len(), 41);
    assert_eq!(encoded[0], 7);
    assert_eq!(&encoded[1..33], &[1u8; 32][..]);
    assert_eq!(&encoded[33..41], &[0, 0, 0, 0, 0, 0, 0x0A, 0x0B][..]);
    let decoded = MediaFrame::decode(&encoded).unwrap();
    assert!(decoded.payload.is_empty());
}

#[test]
fn video_layer_codes() {
    assert_eq!(VideoLayerRequest::High.to_u8(), 0);
    assert_eq!(VideoLayerRequest::Low.to_u8(), 1);
    assert_eq!(VideoLayerRequest::NoLayer.to_u8(), 2);
}

#[test]
fn frames_are_length_prefixed_big_endian() {
    let out = frame(b"hey");
    assert_eq!(out, vec![0, 0, 0, 3, b'h', b'e', b'y']);
    assert_eq!(frame(&[]), vec![0, 0, 0, 0]);
}

#[test]
fn frame_header_reads_back_its_length_within_the_cap() {
    let out = frame(&[7u8; 300]);
    let header: [u8; 4] = out[..4].try_into().unwrap();
    assert_eq!(frame_len(&header, MAX_CHAT_FRAME_BYTES), Some(300));
    assert_eq!(frame_len(&header, 300), Some(300));
    assert_eq!(frame_len(&header, 299), None);
    assert_eq!(frame_len(&[0xff, 0xff, 0xff, 0xff], MAX_CHAT_FRAME_BYTES), None);
}

#[test]
fn large_frames_are_read_in_bounded_slices() {
    assert_eq!(next_read_slice(10, 0), 10);
    assert_eq!(next_read_slice(100_000, 0), FRAME_READ_SLICE);
    assert_eq!(next_read_slice(100_000, 100_000 - 5), 5);
}

#[test]
fn events_are_named_for_the_frontend() {
    let peer_id = "p".to_string();
    assert_eq!(event_name(&Event::PeerConnected { peer_id: peer_id.clone() }), "peer-connected");
    assert_eq!(
        event_name(&Event::DmReceived {
            peer_id: peer_id.clone(),
            message: DmMessage::Heartbeat,
        }),
        "dm-received"
    );
    assert_eq!(
        event_name(&Event::DmFileTransferFailed {
            peer_id: peer_id.clone(),
            file_id: "f".to_string(),
            reason: None,
        }),
        "dm-file-transfer-failed"
    );
    assert_eq!(event_name(&Event::PresenceChanged { peer_id, online: true }), "presence-changed");
    assert_eq!(event_name(&Event::TicketRefreshed { ticket: "t".to_string() }), "ticket-refreshed");
}
