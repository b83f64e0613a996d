use nafaq::commands::{
    check_chat_message, check_display_name, check_dm_message, check_encoded_frame,
    check_frontend_control, check_outgoing_file_size, check_setting, check_ticket, clear_applies,
    is_allowed_settings_key, pack_audio_probe_packet, parse_audio_body, parse_encoded_video_body,
    parse_video_body, pinned_name, probe_plan, quality_profile, select_media_profile,
    upsert_contact, validate_bitrate, validate_peer_id, validate_resolution, without_contact,
    SettingValueKind, SettingVerdict, PROBE_PEER_ID,
};
use nafaq::messages::{
    Contact, ContactSource, ControlAction, DmMessage, MediaBridgeMode, MediaBridgeRegistration,
    MediaReceiveVideoMode, MediaSessionProfile, VideoLayerRequest,
};

#[test]
fn probe_packet_is_an_empty_audio_packet_of_the_probe_peer() {
    let packet = pack_audio_probe_packet();
    let id = PROBE_PEER_ID.as_bytes();
    assert_eq!(packet.len(), 2 + id.len() + 8 + 4);
    assert_eq!(&packet[..2], &(id.len() as u16).to_le_bytes());
    assert_eq!(&packet[2..2 + id.len()], id);
    assert!(packet[2 + id.len()..].iter().all(|b| *b == 0));
}

#[test]
fn peer_ids_and_resolutions_are_bounded() {
    assert_eq!(validate_peer_id(""), Err("Invalid peer_id".to_string()));
    assert_eq!(validate_peer_id(&"p".repeat(256)), Ok(()));
    assert!(validate_peer_id(&"p".repeat(257)).is_err());
    assert_eq!(validate_resolution(640, 360), Ok(()));
    assert_eq!(validate_resolution(4096, 4096), Ok(()));
    assert_eq!(validate_resolution(0, 360), Err("Invalid resolution".to_string()));
    assert!(validate_resolution(640, 4097).is_err());
}

#[test]
fn bitrates_outside_the_range_are_refused_with_the_value() {
    assert_eq!(validate_bitrate(400_000), Ok(400_000));
    assert_eq!(validate_bitrate(50_000), Ok(50_000));
    assert_eq!(validate_bitrate(4_000_000), Ok(4_000_000));
    assert_eq!(validate_bitrate(49_999), Err("Invalid bitrate 49999".to_string()));
    assert_eq!(validate_bitrate(0), Err("Invalid bitrate 0".to_string()));
}

#[test]
fn message_lengths_are_bounded() {
    assert_eq!(check_chat_message(&"m".repeat(65536)), Ok(()));
    assert_eq!(check_chat_message(&"m".repeat(65537)), Err("Message too long".to_string()));
    assert_eq!(check_ticket(&"t".repeat(4097)), Err("Ticket too large".to_string()));
    assert_eq!(check_display_name(&"n".repeat(64)), Ok(()));
    assert_eq!(check_display_name(&"n".repeat(65)), Err("Display name too long".to_string()));
    let long_text = DmMessage::Text {
        content: "d".repeat(65537),
        timestamp: 0,
        id: None,
    };
    assert_eq!(check_dm_message(&long_text), Err("DM text too long".to_string()));
    assert_eq!(check_dm_message(&DmMessage::CallCancel), Ok(()));
}

#[test]
fn frontend_may_only_send_user_controls() {
    assert_eq!(check_frontend_control(&ControlAction::Mute { muted: true }), Ok(()));
    assert_eq!(
        check_frontend_control(&ControlAction::KeyframeRequest {
            layer: VideoLayerRequest::High
        }),
        Ok(())
    );
    assert_eq!(
        check_frontend_control(&ControlAction::PeerAnnounce {
            peer_id: "x".into(),
            ticket: "t".into()
        }),
        Err("Control action not allowed from frontend".to_string())
    );
    assert!(check_frontend_control(&ControlAction::PerPeerQualityBps { bitrate_bps: 1 }).is_err());
    assert!(check_frontend_control(&ControlAction::Heartbeat).is_err());
    assert_eq!(
        check_frontend_control(&ControlAction::SetDisplayName {
            name: "n".repeat(65)
        }),
        Err("Display name too long".to_string())
    );
}

#[test]
fn media_profile_prefers_the_binary_channel() {
    let registration = MediaBridgeRegistration {
        session_id: "s1".into(),
        preferred_bridge_modes: vec![MediaBridgeMode::EventBase64, MediaBridgeMode::ChannelBinary],
        webcodecs_active: true,
    };
    let profile = select_media_profile(&registration).unwrap();
    assert_eq!(
        profile,
        MediaSessionProfile {
            session_id: "s1".into(),
            receive_bridge_mode: MediaBridgeMode::ChannelBinary,
            receive_video_mode: MediaReceiveVideoMode::RawH264Nalu,
        }
    );
    let events_only = MediaBridgeRegistration {
        session_id: "s2".into(),
        preferred_bridge_modes: vec![MediaBridgeMode::EventBase64],
        webcodecs_active: false,
    };
    let profile = select_media_profile(&events_only).unwrap();
    assert_eq!(profile.receive_bridge_mode, MediaBridgeMode::EventBase64);
    assert_eq!(profile.receive_video_mode, MediaReceiveVideoMode::DecodedJpeg);
    let missing = MediaBridgeRegistration {
        session_id: String::new(),
        preferred_bridge_modes: vec![],
        webcodecs_active: false,
    };
    assert_eq!(select_media_profile(&missing), Err("Missing session_id".to_string()));
}

#[test]
fn bridge_clear_and_probe() {
    assert!(clear_applies(Some("s1"), "s1"));
    assert!(!clear_applies(Some("s1"), "s2"));
    assert!(!clear_applies(None, "s1"));
    let profile = MediaSessionProfile {
        session_id: "s1".into(),
        receive_bridge_mode: MediaBridgeMode::ChannelBinary,
        receive_video_mode: MediaReceiveVideoMode::DecodedJpeg,
    };
    assert_eq!(probe_plan(None, false, "s1"), Err("No registered media bridge".to_string()));
    assert_eq!(
        probe_plan(Some(&profile), true, "s2"),
        Err("Media bridge session mismatch".to_string())
    );
    assert_eq!(
        probe_plan(Some(&profile), false, "s1"),
        Err("Missing audio probe channel".to_string())
    );
    assert_eq!(probe_plan(Some(&profile), true, "s1"), Ok(MediaBridgeMode::ChannelBinary));
}

#[test]
fn raw_request_bodies_are_parsed() {
    assert_eq!(parse_audio_body(&[1, 2, 3]), Err("Payload too short".to_string()));
    let mut body = 7u64.to_le_bytes().to_vec();
    body.extend_from_slice(&[5, 6]);
    assert_eq!(parse_audio_body(&body), Ok((7, vec![5, 6])));

    let mut video = Vec::new();
    video.extend_from_slice(&2u32.to_le_bytes());
    video.extend_from_slice(&1u32.to_le_bytes());
    video.push(1);
    video.extend_from_slice(&99u64.to_le_bytes());
    video.extend_from_slice(&[1, 2, 3, 4, 5, 6, 7, 8]);
    let frame = parse_video_body(&video).unwrap();
    assert_eq!((frame.width, frame.height, frame.keyframe, frame.timestamp_ms), (2, 1, true, 99));
    assert_eq!(frame.rgba.len(), 8);
    assert_eq!(parse_video_body(&video[..16]), Err("Payload too short".to_string()));
    let mut zero = video.clone();
    zero[0] = 0;
    zero[1] = 0;
    assert_eq!(parse_video_body(&zero), Err("Invalid resolution".to_string()));

    assert_eq!(parse_encoded_video_body(&[0; 8]), Err("Payload too short".to_string()));
    let mut encoded = 5u64.to_le_bytes().to_vec();
    encoded.push(0x65);
    assert_eq!(parse_encoded_video_body(&encoded), Ok((5, vec![0x65])));
    assert_eq!(check_encoded_frame(1_048_577), Err("Encoded frame too large".to_string()));
    assert_eq!(check_encoded_frame(1_048_576), Ok(()));
}

#[test]
fn oversized_files_are_refused_with_their_size() {
    assert_eq!(check_outgoing_file_size(104_857_600), Ok(()));
    assert_eq!(
        check_outgoing_file_size(104_857_601),
        Err("File too large (104857601 bytes, max 104857600 bytes)".to_string())
    );
}

#[test]
fn quality_profile_matches_the_call_size() {
    let q = quality_profile(3);
    assert_eq!(
        (q.peer_count, q.bitrate_bps, q.fps, q.max_width, q.max_height),
        (3, 250_000, 10, 480, 270)
    );
}

#[test]
fn only_known_settings_are_written() {
    assert!(is_allowed_settings_key("preferredMic"));
    assert!(!is_allowed_settings_key("identityStatus"));
    assert_eq!(check_setting("identityStatus", SettingValueKind::Bool, 0), SettingVerdict::Ignore);
    assert_eq!(check_setting("dataSaver", SettingValueKind::Bool, 0), SettingVerdict::Accept);
    assert_eq!(check_setting("videoQuality", SettingValueKind::Text, 1024), SettingVerdict::Accept);
    assert_eq!(
        check_setting("videoQuality", SettingValueKind::Text, 1025),
        SettingVerdict::Reject("Invalid value for settings key videoQuality".to_string())
    );
    assert_eq!(
        check_setting("preferredCamera", SettingValueKind::Object, 0),
        SettingVerdict::Reject("Invalid value for settings key preferredCamera".to_string())
    );
}

#[test]
fn pinned_name_only_while_pinned() {
    assert_eq!(pinned_name(Some(true), Some("Ada".into())), Some("Ada".to_string()));
    assert_eq!(pinned_name(Some(false), Some("Ada".into())), None);
    assert_eq!(pinned_name(None, Some("Ada".into())), None);
    assert_eq!(pinned_name(Some(true), None), None);
}

fn contact(id: &str, name: &str, seen: u64) -> Contact {
    Contact {
        node_id: id.into(),
        display_name: name.into(),
        added_at: 1,
        last_seen: seen,
        source: ContactSource::Call,
    }
}

#[test]
fn contacts_are_upserted_by_node_id() {
    let mut contacts = vec![contact("a", "Ann", 5)];
    assert!(upsert_contact(&mut contacts, contact("b", "Bob", 6)));
    let mut renamed = contact("a", "Anna", 9);
    renamed.added_at = 77;
    renamed.source = ContactSource::Manual;
    assert!(!upsert_contact(&mut contacts, renamed));
    assert_eq!(contacts.len(), 2);
    assert_eq!(contacts[0].display_name, "Anna");
    assert_eq!(contacts[0].last_seen, 9);
    // What was known about the contact stays.
    assert_eq!(contacts[0].added_at, 1);
    assert_eq!(contacts[0].source, ContactSource::Call);
    let remaining = without_contact(&contacts, "a");
    assert_eq!(remaining, vec![contact("b", "Bob", 6)]);
}
