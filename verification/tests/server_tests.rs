use bevy_netahoy::client::{ClientInputState, LocalCommandHistory};
use bevy_netahoy::math::{RemoteSnapshotSample, SamplePick, TickPoint};
use bevy_netahoy::protocol::{AhoyButtons, AhoyUserCmd, AhoyUserCmdPacket, PlayerId, Vec2Bits};
use bevy_netahoy::server::{
    BudgetedCommand, LagCompensationHistory, QueuedUserCmds, ServerCommandBuffer, ServerTick,
    LAG_COMPENSATION_HISTORY_CAPACITY, SERVER_CMD_QUEUE_CAPACITY,
    SERVER_USERCMD_BUDGET_PER_PLAYER,
};

fn cmd(sequence: u32) -> AhoyUserCmd {
    AhoyUserCmd { sequence, ..Default::default() }
}

fn packet(sequences: &[u32]) -> AhoyUserCmdPacket {
    AhoyUserCmdPacket { commands: sequences.iter().map(|&s| cmd(s)).collect() }
}

fn queued(queue: &QueuedUserCmds) -> Vec<u32> {
    queue.commands.iter().map(|c| c.sequence).collect()
}

fn pose(tick: u64, tag: u32) -> RemoteSnapshotSample {
    let mut sample = RemoteSnapshotSample { server_tick: tick, ..Default::default() };
    sample.position.x = tag;
    sample
}

#[test]
fn server_tick_wraps() {
    let mut tick = ServerTick(5);
    tick.advance();
    assert_eq!(tick.0, 6);
    let mut tick = ServerTick(u64::MAX);
    tick.advance();
    assert_eq!(tick.0, 0);
}

#[test]
fn acknowledgement_never_moves_back() {
    let mut buffer = ServerCommandBuffer::default();
    let mut command = cmd(5);
    command.buttons = AhoyButtons::from_bits_retain(1);
    buffer.record_processed(&command);
    assert_eq!(buffer.last_processed_sequence, 5);
    assert_eq!(buffer.last_buttons.bits(), 1);
    buffer.record_processed(&cmd(3));
    assert_eq!(buffer.last_processed_sequence, 5);
    assert_eq!(buffer.last_buttons.bits(), 0);
}

#[test]
fn push_packet_dedups_sorts_and_filters() {
    let mut queue = QueuedUserCmds::default();
    queue.push_packet(&packet(&[4, 2, 3, 0, 1, 3]), 1);
    assert_eq!(queued(&queue), vec![2, 3, 4]);
    // Backups resend commands already queued; only the new one is added.
    queue.push_packet(&packet(&[2, 3, 4, 5]), 1);
    assert_eq!(queued(&queue), vec![2, 3, 4, 5]);
}

#[test]
fn push_packet_orders_across_wrap() {
    let mut queue = QueuedUserCmds::default();
    queue.push_packet(&packet(&[1, u32::MAX, 0, u32::MAX - 1]), u32::MAX - 2);
    // Sequence 0 marks "no command" and is never queued, even after a wrap.
    assert_eq!(queued(&queue), vec![u32::MAX - 1, u32::MAX, 1]);
}

#[test]
fn push_packet_keeps_newest_within_capacity() {
    let mut queue = QueuedUserCmds::default();
    let sequences: Vec<u32> = (1..=300).collect();
    queue.push_packet(&packet(&sequences), 0);
    assert_eq!(queue.commands.len(), SERVER_CMD_QUEUE_CAPACITY);
    assert_eq!(queue.commands[0].sequence, 45);
    assert_eq!(queue.commands[SERVER_CMD_QUEUE_CAPACITY - 1].sequence, 300);
}

#[test]
fn pop_and_budget() {
    let mut queue = QueuedUserCmds::default();
    queue.push_packet(&packet(&[1, 2, 3, 4, 5]), 0);
    assert_eq!(queue.pop_next(), Some(cmd(1)));
    let mut processed = 0;
    let mut stepped = Vec::new();
    loop {
        match queue.next_within_budget(processed) {
            BudgetedCommand::Step(command) => {
                stepped.push(command.sequence);
                processed += 1;
            }
            BudgetedCommand::Idle => panic!("queue should not run dry"),
            BudgetedCommand::BudgetSpent => break,
        }
    }
    assert_eq!(processed, SERVER_USERCMD_BUDGET_PER_PLAYER);
    assert_eq!(stepped, vec![2, 3, 4, 5]);
    assert_eq!(queue.next_within_budget(0), BudgetedCommand::Idle);
    assert_eq!(queue.pop_next(), None);
}

#[test]
fn lag_history_record_and_pose() {
    let mut history = LagCompensationHistory::default();
    assert_eq!(history.max_frames, LAG_COMPENSATION_HISTORY_CAPACITY);
    let player = PlayerId(7);
    assert_eq!(history.pose_at_time(player, TickPoint { tick: 1, between_ticks: false }), None);
    history.record(player, pose(10, 1));
    history.record(player, pose(11, 2));
    history.record(player, pose(11, 3));
    assert_eq!(history.poses[&7].len(), 2);
    assert_eq!(
        history.pose_at_time(player, TickPoint { tick: 11, between_ticks: false }),
        Some(SamplePick::Hold(pose(11, 3)))
    );
    assert_eq!(
        history.pose_at_time(player, TickPoint { tick: 10, between_ticks: true }),
        Some(SamplePick::Blend(pose(10, 1), pose(11, 3)))
    );
    assert_eq!(history.pose_at_time(PlayerId(8), TickPoint { tick: 10, between_ticks: true }), None);
}

#[test]
fn lag_history_evicts_at_max_frames() {
    let mut history = LagCompensationHistory { max_frames: 3, ..Default::default() };
    for tick in 1..=5 {
        history.record(PlayerId(1), pose(tick, 0));
    }
    let ticks: Vec<u64> = history.poses[&1].iter().map(|s| s.server_tick).collect();
    assert_eq!(ticks, vec![3, 4, 5]);
}

#[test]
fn issued_commands_reach_server_queue() {
    let mut state = ClientInputState::default();
    let mut history = LocalCommandHistory::default();
    let mut queue = QueuedUserCmds::default();
    let mut last_packet = None;
    for _ in 0..10 {
        let issued =
            state.issue_command(&mut history, Vec2Bits::default(), Vec2Bits::default(), AhoyButtons::empty());
        last_packet = Some(issued.packet);
    }
    queue.push_packet(&last_packet.unwrap(), 5);
    assert_eq!(queued(&queue), vec![6, 7, 8, 9, 10]);
}

#[test]
fn push_packet_keeps_older_queued_commands_in_order() {
    // A queue may still hold commands at or before the last processed one;
    // they stay, in sequence order, and a queued command wins over a resent
    // duplicate.
    let mut queue = QueuedUserCmds::default();
    let mut old = cmd(4);
    old.buttons = AhoyButtons::from_bits_retain(1);
    queue.commands.push_back(cmd(9));
    queue.commands.push_back(old);
    let mut resent = cmd(9);
    resent.buttons = AhoyButtons::from_bits_retain(2);
    queue.push_packet(&AhoyUserCmdPacket { commands: vec![resent, cmd(7), cmd(3), cmd(8), cmd(7)] }, 5);
    assert_eq!(queued(&queue), vec![4, 7, 8, 9]);
    assert_eq!(queue.commands[0].buttons.bits(), 1);
    assert_eq!(queue.commands[3].buttons.bits(), 0);
}

#[test]
fn recorded_pose_is_seen_at_its_tick_after_older_out_of_order_poses() {
    let mut history = LagCompensationHistory::default();
    history.record(PlayerId(2), pose(4, 1));
    history.record(PlayerId(2), pose(2, 2));
    history.record(PlayerId(2), pose(6, 3));
    assert_eq!(
        history.pose_at_time(PlayerId(2), TickPoint { tick: 6, between_ticks: false }),
        Some(SamplePick::Hold(pose(6, 3)))
    );
}
