use nafaq::connection::ConnectionDirection::{Inbound, Outbound};
use nafaq::dm::DmConnectionOwnership::{Dedicated, SharedCall};
use nafaq::connection::ConnectionDirection;
use nafaq::dm::{
    arbitrate_dm_candidate, dm_entry_is_stale, dm_store_action, incoming_dm_decision,
    reattach_decision, route_dm, DmArbitration, DmConnectionOwnership, DmDecision, DmEviction,
    DmPeerConnection, DmRoute, DmStoreAction, ExistingDmEntry, RecentDmIds, RecentIds,
    RECENT_DM_IDS_CAPACITY, RECENT_DM_PEERS_CAPACITY,
};
use nafaq::messages::DmMessage;

#[test]
fn recent_dm_ids_evict_the_least_recently_active_peer() {
    let mut recent = RecentDmIds::new();
    for n in 0..RECENT_DM_PEERS_CAPACITY {
        assert!(!recent.check_and_insert(&format!("peer-{n}"), "m"));
    }
    // peer-0 becomes the most recently active; peer-1 is now the LRU.
    assert!(recent.check_and_insert("peer-0", "m"));
    assert!(!recent.check_and_insert("newcomer", "m"));
    assert_eq!(recent.peers.len(), RECENT_DM_PEERS_CAPACITY);
    assert!(!recent.tracks_peer("peer-1"));
    assert!(
        recent.check_and_insert("peer-0", "m"),
        "peer-0 kept its ids"
    );
}

#[test]
fn dm_arbitration_covers_redial_crossed_dial_and_unknown_local_id() {
    // Same direction: always a redial, regardless of ids.
    assert_eq!(
        arbitrate_dm_candidate(Some("node-a"), "node-z", Inbound, Inbound),
        DmArbitration::Redial
    );
    assert_eq!(
        arbitrate_dm_candidate(None, "node-z", Outbound, Outbound),
        DmArbitration::Redial
    );
    // Crossed dial: the higher id keeps its outbound connection.
    assert_eq!(
        arbitrate_dm_candidate(Some("node-z"), "node-a", Inbound, Outbound),
        DmArbitration::CandidateWins
    );
    assert_eq!(
        arbitrate_dm_candidate(Some("node-z"), "node-a", Outbound, Inbound),
        DmArbitration::ExistingWins
    );
    assert_eq!(
        arbitrate_dm_candidate(None, "node-a", Outbound, Inbound),
        DmArbitration::Undecidable
    );
}

#[test]
fn recent_ids_remember_the_newest_and_forget_the_oldest() {
    let mut ids = RecentIds::new();
    assert!(!ids.check_and_insert("first"));
    assert!(ids.check_and_insert("first"));
    for n in 0..RECENT_DM_IDS_CAPACITY {
        assert!(!ids.check_and_insert(&format!("id-{n}")));
    }
    assert_eq!(ids.order.len(), RECENT_DM_IDS_CAPACITY);
    // "first" was the oldest and has been dropped.
    assert!(!ids.check_and_insert("first"));
    assert!(ids.check_and_insert(&format!("id-{}", RECENT_DM_IDS_CAPACITY - 1)));
}

#[test]
fn duplicate_text_is_recognised_per_peer() {
    let mut recent = RecentDmIds::new();
    assert!(!recent.check_and_insert("peer-a", "m1"));
    assert!(!recent.check_and_insert("peer-b", "m1"));
    assert!(recent.check_and_insert("peer-a", "m1"));
    assert_eq!(recent.clock, 3);
}

#[test]
fn only_dedicated_dm_connections_are_closed() {
    let dedicated = DmPeerConnection {
        connection_id: 1,
        direction: ConnectionDirection::Inbound,
        ownership: DmConnectionOwnership::Dedicated,
    };
    let shared = DmPeerConnection {
        ownership: DmConnectionOwnership::SharedCall,
        ..dedicated
    };
    assert_eq!(dedicated.close_if_owned("dm_closed"), Some("dm_closed"));
    assert_eq!(shared.close_if_owned("dm_closed"), None);
}

fn entry(direction: ConnectionDirection) -> ExistingDmEntry {
    ExistingDmEntry {
        connection_id: 9,
        direction,
        ownership: DmConnectionOwnership::Dedicated,
        closed: false,
        has_send_stream: true,
        predates_rejoin: false,
    }
}

#[test]
fn stale_dm_entries_are_evicted_before_arbitration() {
    let dead = ExistingDmEntry {
        has_send_stream: false,
        ..entry(Outbound)
    };
    assert!(dm_entry_is_stale(&dead, None));
    assert!(!dm_entry_is_stale(&dead, Some(9)));
    assert!(!dm_entry_is_stale(&entry(Outbound), None));
    assert_eq!(
        incoming_dm_decision(Some(dead), Inbound, Some("node-a"), "node-z"),
        (DmEviction::Stale, DmDecision::Store)
    );
    let rejoined = ExistingDmEntry {
        predates_rejoin: true,
        ..entry(Outbound)
    };
    assert_eq!(
        incoming_dm_decision(Some(rejoined), Inbound, Some("node-a"), "node-z"),
        (DmEviction::PeerRejoined, DmDecision::Store)
    );
    assert_eq!(
        incoming_dm_decision(Some(entry(Inbound)), Inbound, Some("node-a"), "node-z"),
        (DmEviction::SupersededByRedial, DmDecision::Store)
    );
    assert_eq!(
        incoming_dm_decision(Some(entry(Outbound)), Inbound, Some("node-z"), "node-a"),
        (DmEviction::Keep, DmDecision::DrainDuplicate)
    );
    assert_eq!(
        incoming_dm_decision(Some(entry(Outbound)), Inbound, None, "node-a"),
        (DmEviction::Keep, DmDecision::CloseDuplicate)
    );
    assert_eq!(
        incoming_dm_decision(None, Inbound, None, "node-a"),
        (DmEviction::Keep, DmDecision::Store)
    );
}

#[test]
fn dm_store_actions() {
    assert_eq!(
        dm_store_action(None, Inbound, Dedicated, None, "node-a"),
        DmStoreAction::Insert { close_replaced: true }
    );
    assert_eq!(
        dm_store_action(Some((true, Inbound)), Inbound, Dedicated, None, "node-a"),
        DmStoreAction::Reattach
    );
    assert_eq!(
        dm_store_action(Some((true, Inbound)), Inbound, SharedCall, None, "node-a"),
        DmStoreAction::Ignore(DmDecision::CloseDuplicate)
    );
    assert_eq!(
        dm_store_action(Some((false, Inbound)), Outbound, Dedicated, Some("node-z"), "node-a"),
        DmStoreAction::Insert { close_replaced: false }
    );
    assert_eq!(
        dm_store_action(Some((false, Outbound)), Inbound, Dedicated, Some("node-z"), "node-a"),
        DmStoreAction::Ignore(DmDecision::DrainDuplicate)
    );
    assert_eq!(
        dm_store_action(Some((false, Outbound)), Inbound, SharedCall, Some("node-z"), "node-a"),
        DmStoreAction::Ignore(DmDecision::CloseDuplicate)
    );
    assert_eq!(
        dm_store_action(Some((false, Outbound)), Inbound, Dedicated, None, "node-a"),
        DmStoreAction::CloseCandidate
    );
    assert_eq!(reattach_decision(true, true), DmDecision::DrainDuplicate);
    assert_eq!(reattach_decision(false, false), DmDecision::CloseDuplicate);
    assert_eq!(reattach_decision(false, true), DmDecision::Store);
}

#[test]
fn dm_frames_are_routed() {
    assert_eq!(route_dm(&DmMessage::Heartbeat), DmRoute::Ignore);
    assert_eq!(
        route_dm(&DmMessage::Ack { id: "x".into() }),
        DmRoute::Ack { id: "x".into() }
    );
    assert_eq!(route_dm(&DmMessage::CallDecline), DmRoute::CallDecline);
    assert_eq!(
        route_dm(&DmMessage::Text {
            content: "hi".into(),
            timestamp: 1,
            id: Some("m1".into())
        }),
        DmRoute::TextWithId { id: "m1".into() }
    );
    assert_eq!(
        route_dm(&DmMessage::Text {
            content: "hi".into(),
            timestamp: 1,
            id: None
        }),
        DmRoute::Deliver
    );
    assert_eq!(
        route_dm(&DmMessage::FileEnd { id: "f".into() }),
        DmRoute::Deliver
    );
}
