use std::collections::VecDeque;

use bevy_netahoy::math::{sample_buffer_at, RemoteSnapshotSample, SamplePick, TickPoint};
use bevy_netahoy::protocol::{AhoyButtons, AhoySnapshot, NetAhoyMoveState, Vec2Bits, Vec3Bits};

fn sample(tick: u64, x: f32) -> RemoteSnapshotSample {
    RemoteSnapshotSample {
        server_tick: tick,
        position: Vec3Bits { x: x.to_bits(), y: 0, z: 0 },
        ..Default::default()
    }
}

fn at(tick: u64, between_ticks: bool) -> TickPoint {
    TickPoint { tick, between_ticks }
}

#[test]
fn empty_buffer_has_no_sample() {
    assert_eq!(sample_buffer_at(&VecDeque::new(), at(5, false)), None);
}

#[test]
fn before_first_holds_first() {
    let samples: VecDeque<_> = [sample(10, 1.0), sample(12, 2.0)].into_iter().collect();
    assert_eq!(sample_buffer_at(&samples, at(3, true)), Some(SamplePick::Hold(samples[0])));
    assert_eq!(sample_buffer_at(&samples, at(10, false)), Some(SamplePick::Hold(samples[0])));
}

#[test]
fn at_or_past_last_holds_last() {
    let samples: VecDeque<_> = [sample(10, 1.0), sample(12, 2.0)].into_iter().collect();
    assert_eq!(sample_buffer_at(&samples, at(12, false)), Some(SamplePick::Hold(samples[1])));
    assert_eq!(sample_buffer_at(&samples, at(40, true)), Some(SamplePick::Hold(samples[1])));
}

#[test]
fn between_samples_blends_bracketing_pair() {
    let samples: VecDeque<_> =
        [sample(10, 1.0), sample(12, 2.0), sample(14, 3.0), sample(20, 4.0)].into_iter().collect();
    assert_eq!(
        sample_buffer_at(&samples, at(10, true)),
        Some(SamplePick::Blend(samples[0], samples[1]))
    );
    assert_eq!(
        sample_buffer_at(&samples, at(12, false)),
        Some(SamplePick::Blend(samples[0], samples[1]))
    );
    assert_eq!(
        sample_buffer_at(&samples, at(12, true)),
        Some(SamplePick::Blend(samples[1], samples[2]))
    );
    assert_eq!(
        sample_buffer_at(&samples, at(17, false)),
        Some(SamplePick::Blend(samples[2], samples[3]))
    );
}

#[test]
fn from_snapshot_copies_pose() {
    let snapshot = AhoySnapshot {
        server_tick: 77,
        last_processed_sequence: 5,
        last_processed_buttons: AhoyButtons::from_bits_retain(3),
        position: Vec3Bits { x: 1, y: 2, z: 3 },
        velocity: Vec3Bits { x: 4, y: 5, z: 6 },
        look: Vec2Bits { x: 7, y: 8 },
        state: NetAhoyMoveState {
            grounded: true,
            crouching: false,
            mantle_height_left: Some(9),
            crane_height_left: None,
        },
    };
    let s = RemoteSnapshotSample::from_snapshot(&snapshot);
    assert_eq!(s.server_tick, 77);
    assert_eq!(s.position, snapshot.position);
    assert_eq!(s.velocity, snapshot.velocity);
    assert_eq!(s.look, snapshot.look);
    assert_eq!(s.state, snapshot.state);
}

#[test]
fn motion_segment_breaks_on_gap_or_teleport() {
    let previous = sample(100, 0.0);
    assert!(!sample(120, 0.0).starts_new_motion_segment_after(previous, false));
    assert!(sample(121, 0.0).starts_new_motion_segment_after(previous, false));
    assert!(sample(101, 0.0).starts_new_motion_segment_after(previous, true));
    // An older sample has no forward gap.
    assert!(!sample(50, 0.0).starts_new_motion_segment_after(previous, false));
}
