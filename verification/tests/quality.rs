use nafaq::quality::{
    apply_level, encoder_bitrate, lost_since_last_tick, PeerSignal, SendQualityController,
    VideoProfile, RECOVER_AFTER_GOOD_TICKS,
};

fn tick(ctrl: &mut SendQualityController, signal: PeerSignal) -> u8 {
    ctrl.tick(&[("a".to_string(), signal)])
}

fn healthy(rtt_ms: u64) -> PeerSignal {
    PeerSignal {
        rtt_ms,
        ..Default::default()
    }
}

#[test]
fn high_but_stable_rtt_is_not_congestion() {
    let mut ctrl = SendQualityController::new();
    for _ in 0..20 {
        assert_eq!(tick(&mut ctrl, healthy(260)), 0);
    }
}

#[test]
fn rising_rtt_is_congestion() {
    let mut ctrl = SendQualityController::new();
    tick(&mut ctrl, healthy(80));
    tick(&mut ctrl, healthy(80));
    assert_eq!(tick(&mut ctrl, healthy(400)), 1);
}

#[test]
fn steps_down_with_cooldown_and_recovers_slowly() {
    let mut ctrl = SendQualityController::new();
    let bad = PeerSignal {
        rtt_ms: 50,
        dropped_video_frames: 5,
        ..Default::default()
    };
    tick(&mut ctrl, healthy(50));
    assert_eq!(tick(&mut ctrl, bad), 1);
    // Cooldown: an immediately following bad tick doesn't step again.
    assert_eq!(tick(&mut ctrl, bad), 1);
    assert_eq!(tick(&mut ctrl, bad), 2);
    for _ in 0..RECOVER_AFTER_GOOD_TICKS - 1 {
        assert_eq!(tick(&mut ctrl, healthy(50)), 2);
    }
    assert_eq!(tick(&mut ctrl, healthy(50)), 1);
}

#[test]
fn worst_peer_wins_and_departed_peers_are_forgotten() {
    let mut ctrl = SendQualityController::new();
    let bad = PeerSignal {
        lost_packets: 100,
        ..Default::default()
    };
    ctrl.tick(&[("a".into(), healthy(40)), ("b".into(), healthy(40))]);
    let level = ctrl.tick(&[("a".into(), healthy(40)), ("b".into(), bad)]);
    assert_eq!(level, 1);
    assert_eq!(ctrl.tick(&[("a".into(), healthy(40))]), 0);
}

#[test]
fn levels_scale_the_base_profile() {
    let base = VideoProfile {
        bitrate_bps: 400_000,
        fps: 12,
        max_width: 640,
        max_height: 360,
    };
    assert_eq!(apply_level(base, 0), base);
    let l1 = apply_level(base, 1);
    assert_eq!((l1.bitrate_bps, l1.fps, l1.max_width), (240_000, 8, 640));
    let l3 = apply_level(base, 3);
    assert_eq!((l3.bitrate_bps, l3.fps, l3.max_width, l3.max_height), (80_000, 5, 320, 180));
}

#[test]
fn no_peers_means_full_quality() {
    let mut ctrl = SendQualityController::new();
    assert_eq!(ctrl.tick(&[]), 0);
}

#[test]
fn level_never_exceeds_the_floor_level() {
    let mut ctrl = SendQualityController::new();
    let bad = PeerSignal {
        lost_packets: 1000,
        ..Default::default()
    };
    let mut last = 0;
    for _ in 0..40 {
        last = tick(&mut ctrl, bad);
        assert!(last <= 3);
    }
    assert_eq!(last, 3);
}

#[test]
fn loss_is_judged_per_tick() {
    assert_eq!(lost_since_last_tick(None, 500), 0);
    assert_eq!(lost_since_last_tick(Some(500), 530), 30);
    assert_eq!(lost_since_last_tick(Some(530), 10), 0);
}

#[test]
fn strictest_peer_cap_limits_the_encoder() {
    assert_eq!(encoder_bitrate(400_000, 0), 400_000);
    assert_eq!(encoder_bitrate(400_000, 100_000), 100_000);
    assert_eq!(encoder_bitrate(240_000, 500_000), 240_000);
}

#[test]
fn first_tick_is_full_quality_and_the_worst_peer_sets_the_level() {
    let bad = PeerSignal {
        rtt_ms: 50,
        lost_packets: 100,
        dropped_video_frames: 5,
    };
    let good = PeerSignal {
        rtt_ms: 50,
        lost_packets: 0,
        dropped_video_frames: 0,
    };
    let mut ctrl = SendQualityController::new();
    let signals = vec![("a".to_string(), bad), ("b".to_string(), good)];
    assert_eq!(ctrl.tick(&signals), 0);
    assert_eq!(ctrl.tick(&signals), 1);
    // The cooldown: no second step down right after the first.
    assert_eq!(ctrl.tick(&signals), 1);
    assert_eq!(ctrl.tick(&signals), 2);
    // A peer seen alone again starts afresh; the shared level follows it.
    let mut fresh = SendQualityController::new();
    assert_eq!(fresh.tick(&[("b".to_string(), good)]), 0);
    assert_eq!(ctrl.tick(&[("b".to_string(), good)]), 0);
    assert_eq!(ctrl.tick(&[]), 0);
}
