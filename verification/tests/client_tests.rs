use bevy_netahoy::client::{
    correction_after, replay_plan, CorrectionProgress, ErrorUpdate, OffsetUpdate,
    replay_mode, reconcile_step, ClientInputState, CorrectionMode, LocalCommandHistory,
    LocalPlayerId, PredictionHistory, ReconcileStep, RemoteInterpolationBuffer,
    PREDICTION_HISTORY_CAPACITY, REMOTE_INTERPOLATION_CAPACITY, REMOTE_INTERPOLATION_DELAY_TICKS,
    USERCMD_BACKUP_COUNT,
};
use bevy_netahoy::math::{RemoteSnapshotSample, SamplePick, TickPoint};
use bevy_netahoy::pmove::AhoyPredictionFrame;
use bevy_netahoy::protocol::{AhoyButtons, AhoyUserCmd, NetAhoyMoveState, Vec2Bits, Vec3Bits};

fn cmd(sequence: u32) -> AhoyUserCmd {
    AhoyUserCmd { sequence, ..Default::default() }
}

fn frame(sequence: u32, tag: u32) -> AhoyPredictionFrame<u32> {
    AhoyPredictionFrame {
        command: cmd(sequence),
        position: Vec3Bits { x: tag, y: 0, z: 0 },
        velocity: Vec3Bits::default(),
        look: Vec2Bits::default(),
        state: NetAhoyMoveState::default(),
        controller: tag,
    }
}

fn sample(tick: u64, tag: u32) -> RemoteSnapshotSample {
    RemoteSnapshotSample {
        server_tick: tick,
        position: Vec3Bits { x: tag, y: 0, z: 0 },
        ..Default::default()
    }
}

fn ticks(buffer: &RemoteInterpolationBuffer) -> Vec<u64> {
    buffer.samples.iter().map(|s| s.server_tick).collect()
}

#[test]
fn local_player_label_and_assignment() {
    assert_eq!(LocalPlayerId(Some(42)).label(), "player 42");
    assert_eq!(LocalPlayerId(Some(0)).label(), "player 0");
    assert_eq!(LocalPlayerId(Some(u64::MAX)).label(), "player 18446744073709551615");
    assert_eq!(LocalPlayerId(None).label(), "joining");
    assert!(LocalPlayerId(Some(3)).is_assigned_to(3));
    assert!(!LocalPlayerId(Some(3)).is_assigned_to(4));
    assert!(!LocalPlayerId(None).is_assigned_to(0));
}

#[test]
fn prediction_push_then_get_returns_frame() {
    let mut history = PredictionHistory::<u32>::default();
    history.push(frame(1, 10));
    history.push(frame(2, 20));
    assert_eq!(history.get(2).map(|f| f.controller), Some(20));
    assert_eq!(history.get(1).map(|f| f.controller), Some(10));
    assert!(history.get(3).is_none());
}

#[test]
fn prediction_push_replaces_same_sequence() {
    let mut history = PredictionHistory::<u32>::default();
    history.push(frame(1, 10));
    history.push(frame(2, 20));
    history.push(frame(1, 11));
    assert_eq!(history.frames.len(), 2);
    assert_eq!(history.frames[0].controller, 11);
    assert_eq!(history.get(1).map(|f| f.controller), Some(11));
}

#[test]
fn prediction_history_evicts_oldest_at_capacity() {
    let mut history = PredictionHistory::<u32>::default();
    for sequence in 1..=(PREDICTION_HISTORY_CAPACITY as u32 + 1) {
        history.push(frame(sequence, sequence));
    }
    assert_eq!(history.frames.len(), PREDICTION_HISTORY_CAPACITY);
    assert!(history.get(1).is_none());
    assert_eq!(history.frames[0].command.sequence, 2);
    assert_eq!(history.get(257).map(|f| f.controller), Some(257));
}

#[test]
fn prediction_retain_after_keeps_newer_across_wrap() {
    let mut history = PredictionHistory::<u32>::default();
    for sequence in [u32::MAX - 1, u32::MAX, 0, 1, 2] {
        history.push(frame(sequence, 0));
    }
    history.retain_after(u32::MAX);
    let kept: Vec<u32> = history.frames.iter().map(|f| f.command.sequence).collect();
    assert_eq!(kept, vec![0, 1, 2]);
    history.clear();
    assert!(history.frames.is_empty());
}

#[test]
fn command_history_recent_and_after() {
    let mut history = LocalCommandHistory::default();
    for sequence in 1..=10 {
        history.push(cmd(sequence));
    }
    let recent: Vec<u32> = history.recent(3).iter().map(|c| c.sequence).collect();
    assert_eq!(recent, vec![8, 9, 10]);
    assert_eq!(history.recent(100).len(), 10);
    assert!(history.recent(0).is_empty());
    let after: Vec<u32> = history.after_sequence(7).iter().map(|c| c.sequence).collect();
    assert_eq!(after, vec![8, 9, 10]);
}

#[test]
fn command_history_capacity() {
    let mut history = LocalCommandHistory::default();
    for sequence in 1..=300 {
        history.push(cmd(sequence));
    }
    assert_eq!(history.commands.len(), PREDICTION_HISTORY_CAPACITY);
    assert_eq!(history.commands[0].sequence, 45);
}

#[test]
fn issue_command_numbers_and_backs_up() {
    let mut state = ClientInputState::default();
    let mut history = LocalCommandHistory::default();
    let movement = Vec2Bits { x: 1.0f32.to_bits(), y: 0 };
    let mut last = None;
    for i in 1..=10u32 {
        let buttons = AhoyButtons::from_bits_retain(i);
        let issued = state.issue_command(&mut history, movement, Vec2Bits::default(), buttons);
        assert_eq!(issued.command.sequence, i);
        assert_eq!(issued.command.movement, movement);
        assert_eq!(issued.previous_buttons.bits(), i - 1);
        assert_eq!(state.next_sequence, i);
        assert_eq!(state.pending_record_command, Some(issued.command));
        last = Some(issued);
    }
    let packet = last.unwrap().packet;
    assert_eq!(packet.commands.len(), USERCMD_BACKUP_COUNT);
    let sequences: Vec<u32> = packet.commands.iter().map(|c| c.sequence).collect();
    assert_eq!(sequences, vec![3, 4, 5, 6, 7, 8, 9, 10]);
}

#[test]
fn issue_command_wraps_sequence() {
    let mut state = ClientInputState::default();
    state.next_sequence = u32::MAX;
    let mut history = LocalCommandHistory::default();
    let issued = state.issue_command(
        &mut history,
        Vec2Bits::default(),
        Vec2Bits::default(),
        AhoyButtons::empty(),
    );
    assert_eq!(issued.command.sequence, 0);
    assert_eq!(issued.packet.commands.len(), 1);
}

#[test]
fn reconcile_decisions() {
    assert_eq!(reconcile_step(10, 5, 10, 6, Some(true)), ReconcileStep::Stale);
    assert_eq!(reconcile_step(10, 5, 11, 0, None), ReconcileStep::Wait);
    assert_eq!(
        reconcile_step(10, 5, 11, 5, None),
        ReconcileStep::Ignore { acknowledge: false }
    );
    assert_eq!(
        reconcile_step(10, 5, 11, 6, Some(true)),
        ReconcileStep::Ignore { acknowledge: true }
    );
    assert_eq!(reconcile_step(10, 5, 11, 6, Some(false)), ReconcileStep::Replay);
    assert_eq!(reconcile_step(10, 5, 11, 6, None), ReconcileStep::Replay);
    assert_eq!(replay_mode(false, true), CorrectionMode::MissingHistory);
    assert_eq!(replay_mode(true, true), CorrectionMode::Snapped);
    assert_eq!(replay_mode(true, false), CorrectionMode::Replayed);
}

#[test]
fn interpolation_buffer_orders_and_replaces() {
    let mut buffer = RemoteInterpolationBuffer::default();
    assert_eq!(buffer.delay_ticks, REMOTE_INTERPOLATION_DELAY_TICKS);
    buffer.push(sample(10, 1), false);
    buffer.push(sample(14, 2), false);
    buffer.push(sample(12, 3), false);
    assert_eq!(ticks(&buffer), vec![10, 12, 14]);
    buffer.push(sample(12, 4), false);
    assert_eq!(ticks(&buffer), vec![10, 12, 14]);
    assert_eq!(buffer.samples[1].position.x, 4);
}

#[test]
fn interpolation_buffer_resets_on_discontinuity() {
    let mut buffer = RemoteInterpolationBuffer::default();
    buffer.push(sample(10, 1), false);
    buffer.push(sample(30, 2), false);
    assert_eq!(ticks(&buffer), vec![10, 30]);
    buffer.push(sample(51, 3), false);
    assert_eq!(ticks(&buffer), vec![51]);
    buffer.push(sample(52, 4), true);
    assert_eq!(ticks(&buffer), vec![52]);
    // An older sample never resets the buffer, even if flagged as a jump.
    buffer.push(sample(40, 5), true);
    assert_eq!(ticks(&buffer), vec![40, 52]);
}

#[test]
fn interpolation_buffer_capacity() {
    let mut buffer = RemoteInterpolationBuffer::default();
    for tick in 1..=70u64 {
        buffer.push(sample(tick, 0), false);
    }
    assert_eq!(buffer.samples.len(), REMOTE_INTERPOLATION_CAPACITY);
    assert_eq!(buffer.samples[0].server_tick, 7);
    // A sample older than everything in a full buffer is dropped again.
    buffer.push(sample(3, 9), false);
    assert_eq!(buffer.samples.len(), REMOTE_INTERPOLATION_CAPACITY);
    assert_eq!(buffer.samples[0].server_tick, 7);
}

#[test]
fn interpolation_buffer_sample_picks() {
    let mut buffer = RemoteInterpolationBuffer::default();
    assert_eq!(buffer.sample(TickPoint { tick: 1, between_ticks: false }), None);
    buffer.push(sample(10, 1), false);
    buffer.push(sample(12, 2), false);
    assert_eq!(
        buffer.sample(TickPoint { tick: 11, between_ticks: true }),
        Some(SamplePick::Blend(buffer.samples[0], buffer.samples[1]))
    );
    assert_eq!(
        buffer.sample(TickPoint { tick: 12, between_ticks: false }),
        Some(SamplePick::Hold(buffer.samples[1]))
    );
}

#[test]
fn newest_snapshot_is_shown_at_its_tick() {
    let mut buffer = RemoteInterpolationBuffer::default();
    buffer.push(sample(10, 1), false);
    buffer.push(sample(11, 2), false);
    buffer.push(sample(13, 3), false);
    assert_eq!(
        buffer.sample(TickPoint { tick: 13, between_ticks: false }),
        Some(SamplePick::Hold(sample(13, 3)))
    );
}

#[test]
fn correction_moves_on_per_step() {
    let progress = CorrectionProgress {
        last_ack_sequence: 5,
        last_server_tick: 10,
        replayed_commands: 3,
        mode: CorrectionMode::Replayed,
    };
    let stale = correction_after(progress, ReconcileStep::Stale, 9, 6, 0, true, false);
    assert_eq!(stale.progress, progress);
    assert_eq!((stale.error, stale.offset), (ErrorUpdate::Keep, OffsetUpdate::Keep));

    let wait = correction_after(progress, ReconcileStep::Wait, 11, 0, 0, false, false);
    assert_eq!(
        wait.progress,
        CorrectionProgress {
            last_ack_sequence: 5,
            last_server_tick: 11,
            replayed_commands: 0,
            mode: CorrectionMode::Waiting
        }
    );
    assert_eq!(wait.error, ErrorUpdate::Zero);

    let same = correction_after(
        progress,
        ReconcileStep::Ignore { acknowledge: false },
        11,
        5,
        0,
        true,
        false,
    );
    assert_eq!(same.progress.last_ack_sequence, 5);
    assert_eq!(same.progress.mode, CorrectionMode::Ignored);
    assert_eq!(same.error, ErrorUpdate::Zero);

    let agrees = correction_after(
        progress,
        ReconcileStep::Ignore { acknowledge: true },
        11,
        7,
        0,
        true,
        false,
    );
    assert_eq!(agrees.progress.last_ack_sequence, 7);
    assert_eq!(agrees.error, ErrorUpdate::HistoryError);
    assert_eq!(agrees.offset, OffsetUpdate::Keep);

    let replay = correction_after(progress, ReconcileStep::Replay, 12, 8, 4, false, true);
    assert_eq!(
        replay.progress,
        CorrectionProgress {
            last_ack_sequence: 8,
            last_server_tick: 12,
            replayed_commands: 4,
            mode: CorrectionMode::MissingHistory
        }
    );
    assert_eq!(replay.error, ErrorUpdate::CorrectionDistance);
    assert_eq!(replay.offset, OffsetUpdate::Zero);

    let smooth = correction_after(progress, ReconcileStep::Replay, 12, 8, 2, true, false);
    assert_eq!(smooth.progress.mode, CorrectionMode::Replayed);
    assert_eq!(smooth.error, ErrorUpdate::HistoryError);
    assert_eq!(smooth.offset, OffsetUpdate::VisibleDelta);
}

#[test]
fn replay_plan_chains_previous_buttons() {
    let commands: Vec<AhoyUserCmd> = (1..=3u32)
        .map(|i| AhoyUserCmd { sequence: i, buttons: AhoyButtons::from_bits_retain(i * 10), ..Default::default() })
        .collect();
    let plan = replay_plan(&commands, AhoyButtons::from_bits_retain(7));
    let previous: Vec<u32> = plan.iter().map(|(_, b)| b.bits()).collect();
    assert_eq!(previous, vec![7, 10, 20]);
    let sequences: Vec<u32> = plan.iter().map(|(c, _)| c.sequence).collect();
    assert_eq!(sequences, vec![1, 2, 3]);
    assert!(replay_plan(&Vec::new(), AhoyButtons::empty()).is_empty());
}
