use nafaq::connection::CallCloseDisposition::{ForgetTicket, KeepTicket, Reconnect};
use nafaq::connection::ConnectionDirection::{Inbound, Outbound};
use std::collections::HashSet;

use nafaq::connection::{
    accept_call_bi_stream_type, call_candidate_verdict, check_announce, clamp_peer_bitrate,
    classify_call_close, classify_call_close_reason, cleanup_forgets_ticket,
    cleanup_removes_entry, close_watcher_action, decline_ends_session, keyframe_requested,
    liveness_step, mark_active, min_peer_outbound_bitrate, preferred_connection_direction,
    quality_profile_change, quality_profile_for_peers, relay_targets_for_announce,
    should_accept_call_connection_candidate, should_replace_connection, suspect_should_reconnect,
    tickets_to_announce, video_frame_oversized, video_layer_update, video_send_target,
    AnnounceCheck, CallCandidateVerdict, FrameWriteError, CallCloseCause, CallCloseDisposition, CallStream,
    CloseWatcherAction, ConnectionDirection, EvictReason, ExistingCallEntry, LivenessStep,
    PeerTicketCache, PeerTicketRecord, CLOSE_CALL_ENDED, CLOSE_CALL_NOT_ACTIVE,
    CLOSE_CHAT_STREAM_STALLED, CLOSE_CONTROL_STREAM_STALLED, CLOSE_DUPLICATE_CALL_CONNECTION,
    CLOSE_PEER_REJOINED_GOSSIP, CLOSE_PEER_TIMEOUT, CLOSE_RECONNECT_NO_LONGER_WANTED,
    CLOSE_REPLACED_CALL_CONNECTION, CLOSE_STALE_CALL_CONNECTION, CLOSE_SUPERSEDED_BY_REDIAL,
    DISCONNECT_AFTER_MS, MAX_PEER_TICKETS, RECONNECT_AFTER_MS, RECONNECT_RETRY_AFTER_MS,
    SUSPECT_AFTER_MS,
};
use nafaq::messages::{
    PeerConnectionKind, VideoLayerRequest, STREAM_CHAT, STREAM_CONTROL, STREAM_DM, STREAM_VIDEO,
};

#[test]
fn call_connection_accepts_one_bi_stream_per_type() {
    let mut seen = HashSet::new();
    assert!(accept_call_bi_stream_type(&mut seen, STREAM_CHAT));
    assert!(accept_call_bi_stream_type(&mut seen, STREAM_CONTROL));
    assert!(accept_call_bi_stream_type(&mut seen, STREAM_DM));
    assert!(!accept_call_bi_stream_type(&mut seen, STREAM_CHAT));
    assert!(!accept_call_bi_stream_type(&mut seen, STREAM_CONTROL));
    assert!(!accept_call_bi_stream_type(&mut seen, STREAM_DM));
    assert!(!accept_call_bi_stream_type(
        &mut HashSet::new(),
        STREAM_VIDEO
    ));
    assert!(!accept_call_bi_stream_type(&mut HashSet::new(), 0x7f));
}

#[test]
fn duplicate_tie_break_prefers_outbound_for_higher_local_id() {
    assert_eq!(
        preferred_connection_direction("node-z", "node-a"),
        ConnectionDirection::Outbound
    );
    assert_eq!(
        preferred_connection_direction("node-a", "node-z"),
        ConnectionDirection::Inbound
    );
}

#[test]
fn duplicate_tie_break_is_complementary_for_simultaneous_dials() {
    let low = "node-a";
    let high = "node-z";

    assert!(should_replace_connection(
        low,
        high,
        ConnectionDirection::Outbound,
        ConnectionDirection::Inbound
    ));
    assert!(!should_replace_connection(
        low,
        high,
        ConnectionDirection::Inbound,
        ConnectionDirection::Outbound
    ));
    assert!(should_replace_connection(
        high,
        low,
        ConnectionDirection::Inbound,
        ConnectionDirection::Outbound
    ));
    assert!(!should_replace_connection(
        high,
        low,
        ConnectionDirection::Outbound,
        ConnectionDirection::Inbound
    ));
}

#[test]
fn reconnecting_call_candidate_can_replace_same_direction_connection() {
    assert!(should_accept_call_connection_candidate(
        None,
        "node-z",
        ConnectionDirection::Outbound,
        &PeerConnectionKind::Reconnecting,
        ConnectionDirection::Outbound,
    ));
    assert!(!should_accept_call_connection_candidate(
        None,
        "node-z",
        ConnectionDirection::Outbound,
        &PeerConnectionKind::Connected,
        ConnectionDirection::Outbound,
    ));
}

#[test]
fn only_tickets_of_currently_connected_peers_are_announced() {
    let record = |ticket: &str| PeerTicketRecord {
        ticket: ticket.to_string(),
        last_updated_ms: 0,
        last_dial_failed_ms: None,
        dial_failures: 0,
    };
    let tickets = vec![
        ("in-call".to_string(), record("t-in-call")),
        ("past-call".to_string(), record("t-past-call")),
        ("newcomer".to_string(), record("t-newcomer")),
    ];
    let connected = vec!["in-call".to_string(), "newcomer".to_string()];

    let announced = tickets_to_announce(&tickets, &connected, "newcomer");

    assert_eq!(
        announced,
        vec![("in-call".to_string(), "t-in-call".to_string())]
    );
}

#[test]
fn relay_target_selection_is_independent_of_auto_dial_outcome() {
    let peers = [
        "sender".to_string(),
        "relay-target".to_string(),
        "announced".to_string(),
    ];

    let relay_targets = relay_targets_for_announce(&peers, "sender", "announced");

    assert_eq!(relay_targets, vec!["relay-target".to_string()]);
}

#[test]
fn call_close_reasons_are_classified_explicitly() {
    let app = |reason: &str| {
        classify_call_close(&CallCloseCause::ApplicationClosed {
            reason: reason.as_bytes().to_vec(),
        })
    };

    // Real hang-ups / teardowns forget the ticket.
    for reason in [
        CLOSE_CALL_ENDED,
        CLOSE_PEER_TIMEOUT,
        CLOSE_CALL_NOT_ACTIVE,
        CLOSE_RECONNECT_NO_LONGER_WANTED,
        "",
    ] {
        assert_eq!(app(reason), ForgetTicket, "{:?}", reason);
    }
    // Replacement / arbitration closes reach peers still in the call.
    for reason in [
        CLOSE_DUPLICATE_CALL_CONNECTION,
        CLOSE_REPLACED_CALL_CONNECTION,
        CLOSE_STALE_CALL_CONNECTION,
        CLOSE_PEER_REJOINED_GOSSIP,
        CLOSE_SUPERSEDED_BY_REDIAL,
        "some_future_reason",
    ] {
        assert_eq!(app(reason), KeepTicket, "{:?}", reason);
    }
    // A reset chat/control stream can only be replaced by a new connection.
    assert_eq!(app(CLOSE_CONTROL_STREAM_STALLED), Reconnect);
    assert_eq!(app(CLOSE_CHAT_STREAM_STALLED), Reconnect);
    assert_eq!(classify_call_close(&CallCloseCause::TimedOut), Reconnect);
    assert_eq!(
        classify_call_close(&CallCloseCause::LocallyClosed),
        Reconnect
    );
    assert_eq!(classify_call_close(&CallCloseCause::Other), KeepTicket);
}

#[test]
fn close_reason_bytes_are_compared_exactly() {
    assert_eq!(
        classify_call_close_reason(b"call ended "),
        CallCloseDisposition::KeepTicket
    );
    assert_eq!(
        classify_call_close_reason(b"Call ended"),
        CallCloseDisposition::KeepTicket
    );
    assert_eq!(
        classify_call_close_reason(b"call ended"),
        CallCloseDisposition::ForgetTicket
    );
}

#[test]
fn call_streams_have_names_timeouts_and_stall_reasons() {
    assert_eq!(CallStream::Chat.name(), "chat");
    assert_eq!(CallStream::Control.name(), "control");
    assert_eq!(CallStream::Chat.write_timeout(), 5000);
    assert_eq!(CallStream::Control.write_timeout(), 5000);
    assert_eq!(CallStream::Chat.stall_close_reason(), "chat_stream_stalled");
    assert_eq!(
        CallStream::Control.stall_close_reason(),
        "control_stream_stalled"
    );
}

#[test]
fn crossed_dial_keeps_the_same_connection_on_both_sides() {
    // a dialed one connection (outbound at a, inbound at b), b the other.
    for (a, b) in [("node-a", "node-z"), ("node-z", "node-a"), ("ab", "abc")] {
        for d in [ConnectionDirection::Inbound, ConnectionDirection::Outbound] {
            let flip = match d {
                ConnectionDirection::Inbound => ConnectionDirection::Outbound,
                ConnectionDirection::Outbound => ConnectionDirection::Inbound,
            };
            assert_eq!(
                should_replace_connection(a, b, flip, d),
                should_replace_connection(b, a, d, flip)
            );
        }
        assert_ne!(
            preferred_connection_direction(a, b),
            preferred_connection_direction(b, a)
        );
    }
    // A prefix sorts first.
    assert_eq!(
        preferred_connection_direction("abc", "ab"),
        ConnectionDirection::Outbound
    );
}

#[test]
fn ticket_cache_upsert_keeps_counters_for_identical_ticket() {
    let mut cache = PeerTicketCache::new();
    assert!(cache.upsert("peer-a", "ticket-1", 10));
    cache.record_dial_failure("peer-a", 20);
    assert!(!cache.upsert("peer-a", "ticket-1", 30));
    let record = &cache.entries[0].1;
    assert_eq!(record.dial_failures, 1);
    assert_eq!(record.last_dial_failed_ms, Some(20));
    assert_eq!(record.last_updated_ms, 10);
}

#[test]
fn ticket_cache_changed_ticket_resets_failures() {
    let mut cache = PeerTicketCache::new();
    assert!(cache.upsert("peer-a", "ticket-1", 10));
    cache.record_dial_failure("peer-a", 20);
    cache.record_dial_failure("peer-a", 25);
    assert!(cache.upsert("peer-a", "ticket-2", 30));
    let record = &cache.entries[0].1;
    assert_eq!(record.ticket, "ticket-2");
    assert_eq!(record.dial_failures, 0);
    assert_eq!(record.last_dial_failed_ms, None);
    assert_eq!(record.last_updated_ms, 30);
    assert_eq!(cache.entries.len(), 1);
}

#[test]
fn ticket_cache_evicts_the_stalest_when_full() {
    let mut cache = PeerTicketCache::new();
    for n in 0..MAX_PEER_TICKETS {
        // peer-7 is the stalest.
        let at = if n == 7 { 1 } else { 100 + n as u64 };
        assert!(cache.upsert(&format!("peer-{n}"), "t", at));
    }
    assert!(cache.upsert("newcomer", "t", 5000));
    assert_eq!(cache.entries.len(), MAX_PEER_TICKETS);
    assert!(!cache.contains("peer-7"));
    assert!(cache.contains("newcomer"));
    assert!(cache.contains("peer-8"));
}

#[test]
fn recent_dial_failure_delays_reconnect() {
    let mut cache = PeerTicketCache::new();
    cache.upsert("peer-a", "ticket-1", 0);
    assert_eq!(cache.reconnect_ticket("peer-a", 1000).as_deref(), Some("ticket-1"));
    cache.record_dial_failure("peer-a", 1000);
    assert_eq!(cache.reconnect_ticket("peer-a", 1000 + RECONNECT_RETRY_AFTER_MS - 1), None);
    assert_eq!(
        cache.reconnect_ticket("peer-a", 1000 + RECONNECT_RETRY_AFTER_MS).as_deref(),
        Some("ticket-1")
    );
    assert_eq!(cache.reconnect_ticket("peer-b", 1000), None);
    cache.forget("peer-a");
    assert!(!cache.contains("peer-a"));
    assert_eq!(cache.reconnect_ticket("peer-a", 100_000), None);
}

#[test]
fn cleanup_forgets_ticket_only_on_deliberate_or_owning_teardown() {
    // A deliberate disconnect forgets the ticket even when the close watcher
    // already removed the entry.
    assert!(cleanup_forgets_ticket(false, false, None));
    // A stale connection's watcher that finds no matching entry leaves the
    // ticket of whatever replaced it.
    assert!(!cleanup_removes_entry(Some(1), Some(12345)));
    assert!(!cleanup_forgets_ticket(false, false, Some(12345)));
    // Reconnect-preserving cleanups keep it.
    assert!(!cleanup_forgets_ticket(true, true, None));
    assert!(cleanup_forgets_ticket(false, true, Some(1)));
    assert!(cleanup_removes_entry(Some(1), Some(1)));
    assert!(cleanup_removes_entry(Some(1), None));
    assert!(!cleanup_removes_entry(None, None));
}

#[test]
fn liveness_ladder_steps() {
    let now = 1_000_000;
    let at = |idle: u64| now - idle;
    assert_eq!(
        liveness_step(PeerConnectionKind::Connected, at(15_000), now),
        LivenessStep::MarkSuspect
    );
    assert_eq!(
        liveness_step(PeerConnectionKind::Connected, at(SUSPECT_AFTER_MS), now),
        LivenessStep::Keep
    );
    assert_eq!(
        liveness_step(PeerConnectionKind::Suspect, at(RECONNECT_AFTER_MS + 1), now),
        LivenessStep::TryReconnect
    );
    assert_eq!(
        liveness_step(PeerConnectionKind::Suspect, at(20_000), now),
        LivenessStep::Keep
    );
    assert_eq!(
        liveness_step(PeerConnectionKind::Reconnecting, at(40_000), now),
        LivenessStep::Redial
    );
    assert_eq!(
        liveness_step(PeerConnectionKind::Suspect, at(1_000), now),
        LivenessStep::MarkConnected
    );
    assert_eq!(
        liveness_step(PeerConnectionKind::Reconnecting, at(DISCONNECT_AFTER_MS + 1), now),
        LivenessStep::Disconnect
    );
    assert_eq!(
        liveness_step(PeerConnectionKind::Reconnecting, at(DISCONNECT_AFTER_MS), now),
        LivenessStep::Redial
    );
    // A clock going back counts as fresh activity.
    assert_eq!(
        liveness_step(PeerConnectionKind::Suspect, now + 5, now),
        LivenessStep::MarkConnected
    );
    assert!(suspect_should_reconnect(true, PeerConnectionKind::Suspect, at(40_000), now));
    assert!(!suspect_should_reconnect(false, PeerConnectionKind::Suspect, at(40_000), now));
    assert!(!suspect_should_reconnect(true, PeerConnectionKind::Connected, at(40_000), now));
    assert!(!suspect_should_reconnect(true, PeerConnectionKind::Suspect, at(200_000), now));
}

#[test]
fn quality_profiles_shrink_with_the_call() {
    assert_eq!(quality_profile_for_peers(0), (400_000, 12, 640, 360));
    assert_eq!(quality_profile_for_peers(2), (400_000, 12, 640, 360));
    assert_eq!(quality_profile_for_peers(3), (250_000, 10, 480, 270));
    assert_eq!(quality_profile_for_peers(9), (150_000, 8, 320, 180));
    assert_eq!(quality_profile_change(1, 2), None);
    assert_eq!(quality_profile_change(2, 3), Some((250_000, 10, 480, 270)));
    assert_eq!(quality_profile_change(4, 5), None);
}

#[test]
fn per_peer_bitrate_caps() {
    assert_eq!(min_peer_outbound_bitrate(&[]), 0);
    assert_eq!(min_peer_outbound_bitrate(&[0, 0]), 0);
    assert_eq!(min_peer_outbound_bitrate(&[0, 300_000, 120_000, 0]), 120_000);
    assert_eq!(clamp_peer_bitrate(0), 0);
    assert_eq!(clamp_peer_bitrate(1), 50_000);
    assert_eq!(clamp_peer_bitrate(700_000), 700_000);
    assert_eq!(clamp_peer_bitrate(9_000_000), 2_000_000);
}

#[test]
fn video_layer_requests() {
    assert_eq!(video_layer_update(0, VideoLayerRequest::High), (None, false));
    assert_eq!(video_layer_update(2, VideoLayerRequest::Low), (Some(1), true));
    assert_eq!(video_layer_update(0, VideoLayerRequest::NoLayer), (Some(2), false));
    assert!(keyframe_requested(VideoLayerRequest::High));
    assert!(!keyframe_requested(VideoLayerRequest::NoLayer));
    assert!(video_send_target(PeerConnectionKind::Connected, 0));
    assert!(video_send_target(PeerConnectionKind::Connecting, 1));
    assert!(!video_send_target(PeerConnectionKind::Suspect, 0));
    assert!(!video_send_target(PeerConnectionKind::Connected, 2));
    assert!(video_frame_oversized(1_048_577));
    assert!(!video_frame_oversized(1_048_576));
}

#[test]
fn call_candidates_are_judged_in_order() {
    let entry = |closed, direction, predates_rejoin| ExistingCallEntry {
        closed,
        direction,
        status: PeerConnectionKind::Connected,
        predates_rejoin,
    };
    assert_eq!(
        call_candidate_verdict(false, None, Inbound, Some("node-a"), "node-z"),
        CallCandidateVerdict::NotActive
    );
    assert_eq!(
        call_candidate_verdict(true, None, Inbound, Some("node-a"), "node-z"),
        CallCandidateVerdict::Accept
    );
    assert_eq!(
        call_candidate_verdict(true, Some(entry(true, Outbound, false)), Inbound, None, "node-z"),
        CallCandidateVerdict::EvictThenAccept(EvictReason::Stale)
    );
    assert_eq!(
        call_candidate_verdict(true, Some(entry(false, Outbound, true)), Inbound, None, "node-z"),
        CallCandidateVerdict::EvictThenAccept(EvictReason::PeerRejoined)
    );
    assert_eq!(
        call_candidate_verdict(true, Some(entry(false, Inbound, false)), Inbound, None, "node-z"),
        CallCandidateVerdict::EvictThenAccept(EvictReason::SupersededByRedial)
    );
    // Crossed dial: the higher id keeps its outbound connection.
    assert_eq!(
        call_candidate_verdict(
            true,
            Some(entry(false, Outbound, false)),
            Inbound,
            Some("node-a"),
            "node-z"
        ),
        CallCandidateVerdict::Accept
    );
    assert_eq!(
        call_candidate_verdict(
            true,
            Some(entry(false, Inbound, false)),
            Outbound,
            Some("node-a"),
            "node-z"
        ),
        CallCandidateVerdict::RejectDuplicate
    );
    assert_eq!(EvictReason::Stale.close_reason(), "stale_call_connection");
}

#[test]
fn call_decline_closes_only_our_pending_invite() {
    assert!(decline_ends_session(Some("peer-b"), "peer-b", 0));
    assert!(!decline_ends_session(Some("peer-b"), "peer-c", 0));
    assert!(!decline_ends_session(Some("peer-b"), "peer-b", 1));
    assert!(!decline_ends_session(None, "peer-b", 0));
}

#[test]
fn close_watcher_redials_only_an_owned_broken_path() {
    assert_eq!(
        close_watcher_action(&CallCloseCause::TimedOut, true, Some(3), 3),
        CloseWatcherAction::BeginReconnect
    );
    assert_eq!(
        close_watcher_action(&CallCloseCause::TimedOut, false, Some(3), 3),
        CloseWatcherAction::Cleanup { preserve_ticket: true }
    );
    assert_eq!(
        close_watcher_action(&CallCloseCause::TimedOut, true, Some(4), 3),
        CloseWatcherAction::Cleanup { preserve_ticket: true }
    );
    let hangup = CallCloseCause::ApplicationClosed {
        reason: CLOSE_CALL_ENDED.as_bytes().to_vec(),
    };
    assert_eq!(
        close_watcher_action(&hangup, true, Some(3), 3),
        CloseWatcherAction::Cleanup { preserve_ticket: false }
    );
}

#[test]
fn announces_are_checked_against_their_ticket() {
    assert_eq!(check_announce("peer-x", "peer-y", Some("me")), AnnounceCheck::Mismatch);
    assert_eq!(check_announce("me", "me", Some("me")), AnnounceCheck::OwnTicket);
    assert_eq!(check_announce("peer-x", "peer-x", Some("me")), AnnounceCheck::Accept);
    assert_eq!(check_announce("peer-x", "peer-x", None), AnnounceCheck::Accept);
}

#[test]
fn activity_is_recorded() {
    let mut last = 5;
    mark_active(&mut last, 42);
    assert_eq!(last, 42);
}

#[test]
fn frame_write_errors_describe_the_stream() {
    let lock = FrameWriteError::LockTimeout("control".to_string());
    let unavailable = FrameWriteError::Unavailable("chat".to_string());
    let stalled = FrameWriteError::Stalled("DM".to_string());
    let io = FrameWriteError::Io("connection lost".to_string());
    assert_eq!(lock.message(), "timed out waiting for control stream");
    assert_eq!(unavailable.message(), "chat stream is unavailable");
    assert_eq!(stalled.message(), "timed out writing DM frame; stream reset");
    assert_eq!(io.message(), "connection lost");
    assert!(stalled.is_stalled());
    assert!(!lock.is_stalled() && !unavailable.is_stalled() && !io.is_stalled());
}
