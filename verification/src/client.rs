//! Client-side bookkeeping: the local player's identity and command
//! numbering, the prediction and command histories replayed on
//! reconciliation, the reconciliation decisions, and the interpolation buffer
//! for remote players.

use std::collections::VecDeque;
use vstd::prelude::*;
use crate::math::{
    newest, sample_buffer_at, sample_pick, tick_gap, RemoteSnapshotSample, SamplePick, TickPoint,
    REMOTE_INTERPOLATION_DISCONTINUITY_TICKS,
};
use crate::pmove::AhoyPredictionFrame;
use crate::protocol::{
    newer_than, sequence_advanced, sequence_is_newer, AhoyButtons, AhoyUserCmd, AhoyUserCmdPacket,
    Vec2Bits, lemma_sequence_advanced_is_newer,
};

verus! {

pub const USERCMD_BACKUP_COUNT: usize = 8;
pub const PREDICTION_HISTORY_CAPACITY: usize = 256;
pub const REMOTE_INTERPOLATION_CAPACITY: usize = 64;
pub const REMOTE_INTERPOLATION_DELAY_TICKS: u64 = 6;

// ---------------------------------------------------------------------------
// Local player identity

/// The decimal digit character for `d < 10`.
pub open spec fn decimal_digit(d: nat) -> char {
    (48 + d) as char
}

/// The decimal representation of `n`, without leading zeros.
pub open spec fn decimal(n: nat) -> Seq<char>
    decreases n,
{
    if n < 10 {
        seq![decimal_digit(n)]
    } else {
        decimal(n / 10) + seq![decimal_digit(n % 10)]
    }
}

/// The label of the local player: `player <id>` once assigned, `joining`
/// before.
pub open spec fn player_label(player_id: Option<u64>) -> Seq<char> {
    match player_id {
        Some(id) => "player "@ + decimal(id as nat),
        None => "joining"@,
    }
}

fn digit_str(d: u64) -> (s: &'static str)
    requires
        d < 10,
    ensures
        s@ == seq![decimal_digit(d as nat)],
{
    proof {
        reveal_strlit("0");
        reveal_strlit("1");
        reveal_strlit("2");
        reveal_strlit("3");
        reveal_strlit("4");
        reveal_strlit("5");
        reveal_strlit("6");
        reveal_strlit("7");
        reveal_strlit("8");
        reveal_strlit("9");
    }
    match d {
        0 => "0",
        1 => "1",
        2 => "2",
        3 => "3",
        4 => "4",
        5 => "5",
        6 => "6",
        7 => "7",
        8 => "8",
        _ => "9",
    }
}

fn append_decimal(out: &mut String, n: u64)
    ensures
        final(out)@ == old(out)@ + decimal(n as nat),
    decreases n,
{
    if n >= 10 {
        append_decimal(out, n / 10);
    }
    out.append(digit_str(n % 10));
    proof {
        if n >= 10 {
            assert(decimal(n as nat) == decimal((n / 10) as nat) + seq![decimal_digit((n % 10) as nat)]);
        }
    }
}

#[derive(Clone, Copy, Debug, Default)]
pub struct LocalPlayerId(pub Option<u64>);

impl LocalPlayerId {
    pub fn is_assigned_to(self, player_id: u64) -> (assigned: bool)
        ensures
            assigned == (self.0 == Some(player_id)),
    {
        match self.0 {
            Some(id) => id == player_id,
            None => false,
        }
    }

    pub fn label(self) -> (label: String)
        ensures
            label@ == player_label(self.0),
    {
        match self.0 {
            Some(player_id) => {
                let mut label = String::from_str("player ");
                append_decimal(&mut label, player_id);
                label
            },
            None => String::from_str("joining"),
        }
    }
}

// ---------------------------------------------------------------------------
// Prediction history

/// Some frame in `frames` was recorded for `sequence`.
pub open spec fn frame_has_sequence<L>(frames: Seq<AhoyPredictionFrame<L>>, sequence: u32) -> bool {
    exists|i: int| 0 <= i < frames.len() && #[trigger] frames[i].command.sequence == sequence
}

/// `i` is the first frame recorded for `sequence`.
pub open spec fn first_frame_for<L>(frames: Seq<AhoyPredictionFrame<L>>, sequence: u32, i: int) -> bool {
    &&& 0 <= i < frames.len()
    &&& frames[i].command.sequence == sequence
    &&& forall|j: int| 0 <= j < i ==> #[trigger] frames[j].command.sequence != sequence
}

/// `i` is the last frame recorded for `sequence`.
pub open spec fn last_frame_for<L>(frames: Seq<AhoyPredictionFrame<L>>, sequence: u32, i: int) -> bool {
    &&& 0 <= i < frames.len()
    &&& frames[i].command.sequence == sequence
    &&& forall|j: int| i < j < frames.len() ==> #[trigger] frames[j].command.sequence != sequence
}

/// No two frames were recorded for the same sequence.
pub open spec fn frames_unique<L>(frames: Seq<AhoyPredictionFrame<L>>) -> bool {
    forall|i: int, j: int|
        0 <= i < j < frames.len() ==> #[trigger] frames[i].command.sequence
            != #[trigger] frames[j].command.sequence
}

/// `frames` with `frame` appended, the oldest frame evicted first when the
/// history is exactly at capacity.
pub open spec fn frames_appended<L>(frames: Seq<AhoyPredictionFrame<L>>, frame: AhoyPredictionFrame<L>) -> Seq<
    AhoyPredictionFrame<L>,
> {
    if frames.len() == PREDICTION_HISTORY_CAPACITY {
        frames.drop_first().push(frame)
    } else {
        frames.push(frame)
    }
}

/// The history after recording `frame`: the first frame of the same
/// sequence is replaced if there is one; otherwise the frame is appended.
pub open spec fn frames_pushed<L>(frames: Seq<AhoyPredictionFrame<L>>, frame: AhoyPredictionFrame<L>) -> Seq<
    AhoyPredictionFrame<L>,
> {
    if exists|i: int| first_frame_for(frames, frame.command.sequence, i) {
        let i = choose|i: int| first_frame_for(frames, frame.command.sequence, i);
        frames.update(i, frame)
    } else {
        frames_appended(frames, frame)
    }
}

proof fn lemma_first_frame_unique<L>(frames: Seq<AhoyPredictionFrame<L>>, sequence: u32, i: int, k: int)
    requires
        first_frame_for(frames, sequence, i),
        first_frame_for(frames, sequence, k),
    ensures
        i == k,
{
    if i < k {
        assert(frames[i].command.sequence != sequence);
    } else if k < i {
        assert(frames[k].command.sequence != sequence);
    }
}

/// Any sequence that occurs in the history has a first occurrence.
proof fn lemma_first_frame_exists<L>(frames: Seq<AhoyPredictionFrame<L>>, sequence: u32)
    requires
        frame_has_sequence(frames, sequence),
    ensures
        exists|i: int| first_frame_for(frames, sequence, i),
    decreases frames.len(),
{
    let prefix = frames.drop_last();
    if frame_has_sequence(prefix, sequence) {
        lemma_first_frame_exists(prefix, sequence);
        let i = choose|i: int| first_frame_for(prefix, sequence, i);
        assert forall|j: int| 0 <= j < i implies #[trigger] frames[j].command.sequence != sequence by {
            assert(prefix[j] == frames[j]);
            assert(prefix[j].command.sequence != sequence);
        }
        assert(prefix[i] == frames[i]);
        assert(first_frame_for(frames, sequence, i));
    } else {
        let last = frames.len() - 1;
        assert forall|j: int| 0 <= j < last implies #[trigger] frames[j].command.sequence != sequence by {
            assert(prefix[j] == frames[j]);
        }
        let w = choose|w: int| 0 <= w < frames.len() && #[trigger] frames[w].command.sequence == sequence;
        if w < last {
            assert(prefix[w] == frames[w]);
        }
        assert(first_frame_for(frames, sequence, last));
    }
}

/// A frame is kept by `retain_after(sequence)` when its command is newer.
pub open spec fn frame_is_after<L>(sequence: u32) -> spec_fn(AhoyPredictionFrame<L>) -> bool {
    |frame: AhoyPredictionFrame<L>| newer_than(frame.command.sequence, sequence)
}

/// `retain_after(s)` keeps exactly the frames newer than `s`: every frame
/// whose command is newer than `s` stays, however far ahead it is, and no
/// other frame does.
pub proof fn lemma_retained_frames_are_the_newer_ones<L>(
    frames: Seq<AhoyPredictionFrame<L>>,
    sequence: u32,
)
    ensures
        forall|f: AhoyPredictionFrame<L>|
            frames.filter(frame_is_after::<L>(sequence)).contains(f) <==> (frames.contains(f)
                && newer_than(f.command.sequence, sequence)),
        forall|i: int|
            0 <= i < frames.len() && newer_than(#[trigger] frames[i].command.sequence, sequence)
                ==> frames.filter(frame_is_after::<L>(sequence)).contains(frames[i]),
{
    let pred = frame_is_after::<L>(sequence);
    let kept = frames.filter(pred);
    assert forall|f: AhoyPredictionFrame<L>| kept.contains(f) implies frames.contains(f)
        && newer_than(f.command.sequence, sequence) by {
        frames.lemma_filter_contains_rev(pred, f);
        let k = choose|k: int| 0 <= k < kept.len() && kept[k] == f;
        frames.lemma_filter_pred(pred, k);
    }
    assert forall|f: AhoyPredictionFrame<L>|
        frames.contains(f) && newer_than(f.command.sequence, sequence) implies kept.contains(f) by {
        let i = choose|i: int| 0 <= i < frames.len() && frames[i] == f;
        frames.lemma_filter_contains(pred, i);
    }
    assert forall|i: int|
        0 <= i < frames.len() && newer_than(
            #[trigger] frames[i].command.sequence,
            sequence,
        ) implies kept.contains(frames[i]) by {
        frames.lemma_filter_contains(pred, i);
    }
}

/// The client's record of predicted state after each of its recent commands.
pub struct PredictionHistory<L> {
    pub frames: VecDeque<AhoyPredictionFrame<L>>,
}

impl<L> Default for PredictionHistory<L> {
    fn default() -> (history: Self)
        ensures
            history.frames@ == Seq::<AhoyPredictionFrame<L>>::empty(),
    {
        PredictionHistory { frames: VecDeque::with_capacity(PREDICTION_HISTORY_CAPACITY) }
    }
}

impl<L> PredictionHistory<L> {
    /// Records `frame`: it replaces the first frame of the same sequence if
    /// there is one, and is appended otherwise (evicting the oldest frame
    /// when the history is full).
    pub fn push(&mut self, frame: AhoyPredictionFrame<L>)
        ensures
            final(self).frames@ == frames_pushed(old(self).frames@, frame),
    {
        let sequence = frame.command.sequence;
        let len = self.frames.len();
        let mut i: usize = 0;
        while i < len
            invariant
                len == self.frames@.len(),
                self.frames@ == old(self).frames@,
                i <= len,
                sequence == frame.command.sequence,
                forall|j: int| 0 <= j < i ==> #[trigger] self.frames@[j].command.sequence != sequence,
            decreases len - i,
        {
            if self.frames[i].command.sequence == sequence {
                let ghost before = self.frames@;
                self.frames.remove(i);
                self.frames.insert(i, frame);
                proof {
                    assert(self.frames@ =~= before.update(i as int, frame));
                    assert(first_frame_for(before, sequence, i as int));
                    let k = choose|k: int| first_frame_for(before, sequence, k);
                    lemma_first_frame_unique(before, sequence, i as int, k);
                }
                return;
            }
            i += 1;
        }
        if self.frames.len() == PREDICTION_HISTORY_CAPACITY {
            self.frames.pop_front();
        }
        self.frames.push_back(frame);
        proof {
            assert(old(self).frames@.subrange(1, old(self).frames@.len() as int)
                =~= old(self).frames@.drop_first());
            assert forall|k: int| !first_frame_for(old(self).frames@, sequence, k) by {
                if first_frame_for(old(self).frames@, sequence, k) {
                    assert(old(self).frames@[k].command.sequence != sequence);
                }
            }
        }
    }

    /// The most recent frame recorded for `sequence`.
    pub fn get(&self, sequence: u32) -> (found: Option<&AhoyPredictionFrame<L>>)
        ensures
            match found {
                Some(frame) => exists|i: int|
                    last_frame_for(self.frames@, sequence, i) && *frame == self.frames@[i],
                None => !frame_has_sequence(self.frames@, sequence),
            },
    {
        let mut i: usize = self.frames.len();
        while i > 0
            invariant
                i <= self.frames@.len(),
                forall|j: int| i <= j < self.frames@.len() ==> #[trigger] self.frames@[j].command.sequence
                    != sequence,
            decreases i,
        {
            i -= 1;
            if self.frames[i].command.sequence == sequence {
                proof {
                    assert(last_frame_for(self.frames@, sequence, i as int));
                }
                return Some(&self.frames[i]);
            }
        }
        proof {
            assert forall|k: int| 0 <= k < self.frames@.len() implies #[trigger] self.frames@[k].command.sequence
                != sequence by {}
        }
        None
    }

    /// Drops every frame whose command is not newer than `sequence`.
    pub fn retain_after(&mut self, sequence: u32)
        ensures
            final(self).frames@ == old(self).frames@.filter(frame_is_after::<L>(sequence)),
            forall|i: int|
                0 <= i < old(self).frames@.len() && newer_than(
                    #[trigger] old(self).frames@[i].command.sequence,
                    sequence,
                ) ==> final(self).frames@.contains(old(self).frames@[i]),
            forall|j: int|
                0 <= j < final(self).frames@.len() ==> newer_than(
                    #[trigger] final(self).frames@[j].command.sequence,
                    sequence,
                ) && old(self).frames@.contains(final(self).frames@[j]),
    {
        let ghost all = self.frames@;
        let mut kept: VecDeque<AhoyPredictionFrame<L>> = VecDeque::new();
        let len = self.frames.len();
        let mut i: usize = 0;
        while i < len
            invariant
                len == all.len(),
                i <= len,
                self.frames@ == all.subrange(i as int, len as int),
                kept@ == all.take(i as int).filter(frame_is_after::<L>(sequence)),
            decreases len - i,
        {
            let popped = self.frames.pop_front();
            match popped {
                Some(frame) => {
                    proof {
                        assert(all.take(i + 1) =~= all.take(i as int).push(frame));
                        all.take(i as int).lemma_filter_push(frame, frame_is_after::<L>(sequence));
                    }
                    if sequence_is_newer(frame.command.sequence, sequence) {
                        kept.push_back(frame);
                    }
                },
                None => {},
            }
            proof {
                assert(self.frames@ =~= all.subrange(i + 1, len as int));
            }
            i += 1;
        }
        proof {
            assert(all.take(len as int) =~= all);
            lemma_retained_frames_are_the_newer_ones(all, sequence);
            assert forall|j: int| 0 <= j < kept@.len() implies newer_than(
                #[trigger] kept@[j].command.sequence,
                sequence,
            ) && all.contains(kept@[j]) by {
                assert(kept@.contains(kept@[j]));
            }
        }
        self.frames = kept;
    }

    pub fn clear(&mut self)
        ensures
            final(self).frames@ == Seq::<AhoyPredictionFrame<L>>::empty(),
    {
        self.frames.clear();
    }
}

/// Recording a frame keeps a history free of duplicate sequences, keeps it
/// within capacity, and afterwards the most recent frame for that sequence
/// (what `get` returns) is the frame just recorded.
pub proof fn lemma_prediction_push_then_get<L>(
    frames: Seq<AhoyPredictionFrame<L>>,
    frame: AhoyPredictionFrame<L>,
)
    requires
        frames_unique(frames),
    ensures
        frames_unique(frames_pushed(frames, frame)),
        frames.len() <= PREDICTION_HISTORY_CAPACITY ==> frames_pushed(frames, frame).len()
            <= PREDICTION_HISTORY_CAPACITY,
        frame_has_sequence(frames_pushed(frames, frame), frame.command.sequence),
        forall|i: int|
            last_frame_for(frames_pushed(frames, frame), frame.command.sequence, i)
                ==> frames_pushed(frames, frame)[i] == frame,
{
    let sequence = frame.command.sequence;
    let pushed = frames_pushed(frames, frame);
    if exists|i: int| first_frame_for(frames, sequence, i) {
        let i = choose|i: int| first_frame_for(frames, sequence, i);
        assert(pushed == frames.update(i, frame));
        assert(pushed[i].command.sequence == sequence);
        assert forall|a: int, b: int| 0 <= a < b < pushed.len() implies #[trigger] pushed[a].command.sequence
            != #[trigger] pushed[b].command.sequence by {
            if a != i && b != i {
                assert(frames[a].command.sequence != frames[b].command.sequence);
            } else if a == i {
                assert(frames[a].command.sequence != frames[b].command.sequence);
            } else {
                assert(frames[a].command.sequence != frames[b].command.sequence);
            }
        }
        assert forall|k: int| last_frame_for(pushed, sequence, k) implies pushed[k] == frame by {
            if k != i {
                if k < i {
                    assert(frames[k].command.sequence != frames[i].command.sequence);
                } else {
                    assert(frames[i].command.sequence != frames[k].command.sequence);
                }
            }
        }
    } else {
        assert(!frame_has_sequence(frames, sequence)) by {
            if frame_has_sequence(frames, sequence) {
                lemma_first_frame_exists(frames, sequence);
            }
        }
        let base = if frames.len() == PREDICTION_HISTORY_CAPACITY {
            frames.drop_first()
        } else {
            frames
        };
        assert(pushed == base.push(frame));
        assert forall|j: int| 0 <= j < base.len() implies #[trigger] base[j].command.sequence
            != sequence by {
            if frames.len() == PREDICTION_HISTORY_CAPACITY {
                assert(base[j] == frames[j + 1]);
            }
        }
        assert forall|a: int, b: int| 0 <= a < b < pushed.len() implies #[trigger] pushed[a].command.sequence
            != #[trigger] pushed[b].command.sequence by {
            if b < base.len() {
                if frames.len() == PREDICTION_HISTORY_CAPACITY {
                    assert(base[a] == frames[a + 1] && base[b] == frames[b + 1]);
                }
            } else {
                assert(pushed[a] == base[a]);
            }
        }
        assert(pushed[base.len() as int] == frame);
        assert forall|k: int| last_frame_for(pushed, sequence, k) implies pushed[k] == frame by {
            if k < base.len() {
                assert(pushed[k] == base[k]);
            }
        }
    }
}

// ---------------------------------------------------------------------------
// Local command history

/// `commands` with `command` appended, the oldest evicted first when the
/// history is exactly at capacity.
pub open spec fn commands_appended(commands: Seq<AhoyUserCmd>, command: AhoyUserCmd) -> Seq<AhoyUserCmd> {
    if commands.len() == PREDICTION_HISTORY_CAPACITY {
        commands.drop_first().push(command)
    } else {
        commands.push(command)
    }
}

/// The last `count` commands (all of them when there are fewer).
pub open spec fn recent_commands(commands: Seq<AhoyUserCmd>, count: nat) -> Seq<AhoyUserCmd> {
    if count >= commands.len() {
        commands
    } else {
        commands.subrange(commands.len() - count, commands.len() as int)
    }
}

/// After a command is pushed, it is the newest in the history: the most
/// recent command is the one pushed, and asking for more gives the commands
/// that were there before it, newest last.
pub proof fn lemma_command_push_then_recent(
    commands: Seq<AhoyUserCmd>,
    command: AhoyUserCmd,
    count: nat,
)
    requires
        count >= 1,
    ensures
        recent_commands(commands_appended(commands, command), 1) == seq![command],
        recent_commands(commands_appended(commands, command), count).last() == command,
        recent_commands(commands_appended(commands, command), count).drop_last() == recent_commands(
            commands,
            (count - 1) as nat,
        ).subrange(
            if commands.len() == PREDICTION_HISTORY_CAPACITY && count > commands.len() {
                1int
            } else {
                0int
            },
            recent_commands(commands, (count - 1) as nat).len() as int,
        ),
{
    let pushed = commands_appended(commands, command);
    assert(pushed.len() >= 1);
    assert(pushed.last() == command);
    assert(pushed.subrange(pushed.len() - 1, pushed.len() as int) =~= seq![command]);
    let out = recent_commands(pushed, count);
    let before = recent_commands(commands, (count - 1) as nat);
    let skip: int = if commands.len() == PREDICTION_HISTORY_CAPACITY && count > commands.len() {
        1
    } else {
        0
    };
    assert(out.drop_last() =~= before.subrange(skip, before.len() as int));
}

/// A command is replayed after `sequence` when it is newer.
pub open spec fn command_is_after(sequence: u32) -> spec_fn(AhoyUserCmd) -> bool {
    |command: AhoyUserCmd| newer_than(command.sequence, sequence)
}

/// `after_sequence(s)` gives exactly the history's commands newer than `s`:
/// every such command, however far ahead, and no other.
pub proof fn lemma_commands_after_are_the_newer_ones(commands: Seq<AhoyUserCmd>, sequence: u32)
    ensures
        forall|c: AhoyUserCmd|
            commands.filter(command_is_after(sequence)).contains(c) <==> (commands.contains(c)
                && newer_than(c.sequence, sequence)),
        forall|i: int|
            0 <= i < commands.len() && newer_than(#[trigger] commands[i].sequence, sequence)
                ==> commands.filter(command_is_after(sequence)).contains(commands[i]),
{
    let pred = command_is_after(sequence);
    let kept = commands.filter(pred);
    assert forall|c: AhoyUserCmd| kept.contains(c) implies commands.contains(c) && newer_than(
        c.sequence,
        sequence,
    ) by {
        commands.lemma_filter_contains_rev(pred, c);
        let k = choose|k: int| 0 <= k < kept.len() && kept[k] == c;
        commands.lemma_filter_pred(pred, k);
    }
    assert forall|c: AhoyUserCmd|
        commands.contains(c) && newer_than(c.sequence, sequence) implies kept.contains(c) by {
        let i = choose|i: int| 0 <= i < commands.len() && commands[i] == c;
        commands.lemma_filter_contains(pred, i);
    }
    assert forall|i: int|
        0 <= i < commands.len() && newer_than(
            #[trigger] commands[i].sequence,
            sequence,
        ) implies kept.contains(commands[i]) by {
        commands.lemma_filter_contains(pred, i);
    }
}

/// The commands this client has issued, oldest first.
pub struct LocalCommandHistory {
    pub commands: VecDeque<AhoyUserCmd>,
}

impl Default for LocalCommandHistory {
    fn default() -> (history: Self)
        ensures
            history.commands@ == Seq::<AhoyUserCmd>::empty(),
    {
        LocalCommandHistory { commands: VecDeque::with_capacity(PREDICTION_HISTORY_CAPACITY) }
    }
}

impl LocalCommandHistory {
    pub fn push(&mut self, command: AhoyUserCmd)
        ensures
            final(self).commands@ == commands_appended(old(self).commands@, command),
            final(self).commands@.last() == command,
            final(self).commands@.len() == (if old(self).commands@.len()
                == PREDICTION_HISTORY_CAPACITY {
                old(self).commands@.len()
            } else {
                old(self).commands@.len() + 1
            }),
            forall|i: int|
                0 <= i < final(self).commands@.len() - 1 ==> #[trigger] final(self).commands@[i]
                    == old(self).commands@[i + old(self).commands@.len() + 1 - final(
                    self).commands@.len()],
    {
        if self.commands.len() == PREDICTION_HISTORY_CAPACITY {
            self.commands.pop_front();
        }
        self.commands.push_back(command);
        proof {
            assert(old(self).commands@.subrange(1, old(self).commands@.len() as int)
                =~= old(self).commands@.drop_first());
        }
    }

    /// The last `count` commands, oldest first.
    pub fn recent(&self, count: usize) -> (recent: Vec<AhoyUserCmd>)
        ensures
            recent@ == recent_commands(self.commands@, count as nat),
            recent@.len() == (if count < self.commands@.len() {
                count as int
            } else {
                self.commands@.len() as int
            }),
            forall|i: int|
                0 <= i < recent@.len() ==> #[trigger] recent@[i] == self.commands@[self.commands@.len()
                    - recent@.len() + i],
    {
        let len = self.commands.len();
        let start = len.saturating_sub(count);
        let mut recent: Vec<AhoyUserCmd> = Vec::new();
        let mut i = start;
        while i < len
            invariant
                len == self.commands@.len(),
                start <= i <= len,
                start == (if count >= len { 0 } else { len - count }),
                recent@ == self.commands@.subrange(start as int, i as int),
            decreases len - i,
        {
            recent.push(self.commands[i]);
            proof {
                assert(recent@ =~= self.commands@.subrange(start as int, i + 1));
            }
            i += 1;
        }
        proof {
            if count >= len {
                assert(self.commands@.subrange(0, len as int) =~= self.commands@);
            }
        }
        recent
    }

    /// The commands newer than `sequence`, oldest first.
    pub fn after_sequence(&self, sequence: u32) -> (after: Vec<AhoyUserCmd>)
        ensures
            after@ == self.commands@.filter(command_is_after(sequence)),
            forall|i: int|
                0 <= i < self.commands@.len() && newer_than(
                    #[trigger] self.commands@[i].sequence,
                    sequence,
                ) ==> after@.contains(self.commands@[i]),
            forall|j: int|
                0 <= j < after@.len() ==> newer_than(#[trigger] after@[j].sequence, sequence)
                    && self.commands@.contains(after@[j]),
    {
        let len = self.commands.len();
        let mut after: Vec<AhoyUserCmd> = Vec::new();
        let mut i: usize = 0;
        while i < len
            invariant
                len == self.commands@.len(),
                i <= len,
                after@ == self.commands@.take(i as int).filter(command_is_after(sequence)),
            decreases len - i,
        {
            let command = self.commands[i];
            proof {
                assert(self.commands@.take(i + 1) =~= self.commands@.take(i as int).push(command));
                self.commands@.take(i as int).lemma_filter_push(command, command_is_after(sequence));
            }
            if sequence_is_newer(command.sequence, sequence) {
                after.push(command);
            }
            i += 1;
        }
        proof {
            assert(self.commands@.take(len as int) =~= self.commands@);
            lemma_commands_after_are_the_newer_ones(self.commands@, sequence);
            assert forall|j: int| 0 <= j < after@.len() implies newer_than(
                #[trigger] after@[j].sequence,
                sequence,
            ) && self.commands@.contains(after@[j]) by {
                assert(after@.contains(after@[j]));
            }
        }
        after
    }
}

// ---------------------------------------------------------------------------
// Command numbering

/// Per-tick input bookkeeping: the last sequence number issued, the command
/// waiting to be recorded after the tick's physics, and the previous
/// command's buttons (for rising-edge detection).
pub struct ClientInputState {
    pub next_sequence: u32,
    pub pending_record_command: Option<AhoyUserCmd>,
    pub previous_buttons: AhoyButtons,
}

impl Default for ClientInputState {
    fn default() -> (state: Self)
        ensures
            state.next_sequence == 0,
            state.pending_record_command is None,
            state.previous_buttons.bits == 0,
    {
        ClientInputState {
            next_sequence: 0,
            pending_record_command: None,
            previous_buttons: AhoyButtons::empty(),
        }
    }
}

/// A freshly issued command, the buttons of the command before it, and the
/// packet that carries it to the server together with its backups.
pub struct IssuedCommand {
    pub command: AhoyUserCmd,
    pub previous_buttons: AhoyButtons,
    pub packet: AhoyUserCmdPacket,
}

impl ClientInputState {
    /// Numbers this tick's input as the next command, records it in the
    /// command history, and builds the packet of the most recent commands.
    pub fn issue_command(
        &mut self,
        history: &mut LocalCommandHistory,
        movement: Vec2Bits,
        look: Vec2Bits,
        buttons: AhoyButtons,
    ) -> (issued: IssuedCommand)
        ensures
            issued.command.sequence == sequence_advanced(old(self).next_sequence, 1),
            issued.command.movement == movement,
            issued.command.look == look,
            issued.command.buttons == buttons,
            newer_than(issued.command.sequence, old(self).next_sequence),
            issued.previous_buttons == old(self).previous_buttons,
            final(self).next_sequence == issued.command.sequence,
            final(self).previous_buttons == buttons,
            final(self).pending_record_command == Some(issued.command),
            final(history).commands@ == commands_appended(old(history).commands@, issued.command),
            issued.packet.commands@ == recent_commands(
                final(history).commands@,
                USERCMD_BACKUP_COUNT as nat,
            ),
            issued.packet.commands@.len() >= 1,
            issued.packet.commands@.last() == issued.command,
    {
        let command = AhoyUserCmd {
            sequence: self.next_sequence.wrapping_add(1),
            movement,
            look,
            buttons,
        };
        proof {
            lemma_sequence_advanced_is_newer(old(self).next_sequence, 1);
            let n = old(self).next_sequence;
            if n as int + 1 >= 0x1_0000_0000 {
                assert((n + 1nat) % 0x1_0000_0000 == 0);
            } else {
                assert((n + 1nat) % 0x1_0000_0000 == n + 1);
            }
        }
        let previous_buttons = self.previous_buttons;
        self.next_sequence = command.sequence;
        self.previous_buttons = command.buttons;
        self.pending_record_command = Some(command);
        history.push(command);
        let packet = AhoyUserCmdPacket { commands: history.recent(USERCMD_BACKUP_COUNT) };
        proof {
            let h = history.commands@;
            assert(h.len() >= 1 && h.last() == command);
            if USERCMD_BACKUP_COUNT < h.len() {
                let r = h.subrange(h.len() - 8, h.len() as int);
                assert(r.last() == h.last());
            }
        }
        IssuedCommand { command, previous_buttons, packet }
    }
}

// ---------------------------------------------------------------------------
// Reconciliation decisions

#[derive(Clone, Copy, Debug, PartialEq, Eq, Structural)]
pub enum CorrectionMode {
    Waiting,
    MissingHistory,
    Ignored,
    Replayed,
    Snapped,
}

/// What reconciliation does with an authoritative snapshot of the local
/// player.
#[derive(Clone, Copy, Debug, PartialEq, Eq, Structural)]
pub enum ReconcileStep {
    /// Not newer than the last snapshot handled: nothing to do.
    Stale,
    /// The server has not processed any command yet.
    Wait,
    /// The prediction stands; `acknowledge` says whether the snapshot's
    /// sequence becomes the new acknowledged one.
    Ignore { acknowledge: bool },
    /// Rewind to the snapshot and replay the commands after it.
    Replay,
}

/// Decides how to treat a snapshot of the local player at server tick
/// `snapshot_server_tick` that acknowledges `snapshot_ack`, given the last
/// handled tick and acknowledged sequence. `ack_frame_agrees` is the
/// comparison of the snapshot with the frame predicted for `snapshot_ack`:
/// `None` when no such frame is recorded, `Some(true)` when it agrees within
/// tolerance.
pub fn reconcile_step(
    last_server_tick: u64,
    last_ack_sequence: u32,
    snapshot_server_tick: u64,
    snapshot_ack: u32,
    ack_frame_agrees: Option<bool>,
) -> (step: ReconcileStep)
    ensures
        step == (if snapshot_server_tick <= last_server_tick {
            ReconcileStep::Stale
        } else if snapshot_ack == 0 {
            ReconcileStep::Wait
        } else if snapshot_ack == last_ack_sequence {
            ReconcileStep::Ignore { acknowledge: false }
        } else if ack_frame_agrees == Some(true) {
            ReconcileStep::Ignore { acknowledge: true }
        } else {
            ReconcileStep::Replay
        }),
{
    if snapshot_server_tick <= last_server_tick {
        ReconcileStep::Stale
    } else if snapshot_ack == 0 {
        ReconcileStep::Wait
    } else if snapshot_ack == last_ack_sequence {
        ReconcileStep::Ignore { acknowledge: false }
    } else {
        match ack_frame_agrees {
            Some(true) => ReconcileStep::Ignore { acknowledge: true },
            _ => ReconcileStep::Replay,
        }
    }
}

/// The correction mode after a replay: missing history when no frame was
/// recorded for the acknowledged command, snapped when the replayed position
/// moved at least the snap distance, replayed otherwise.
pub fn replay_mode(had_ack_frame: bool, snapped: bool) -> (mode: CorrectionMode)
    ensures
        mode == (if !had_ack_frame {
            CorrectionMode::MissingHistory
        } else if snapped {
            CorrectionMode::Snapped
        } else {
            CorrectionMode::Replayed
        }),
{
    if !had_ack_frame {
        CorrectionMode::MissingHistory
    } else if snapped {
        CorrectionMode::Snapped
    } else {
        CorrectionMode::Replayed
    }
}

/// The integer part of a prediction correction: the last snapshot tick and
/// acknowledged sequence handled, how many commands the last replay ran, and
/// how the last snapshot was treated.
#[derive(Clone, Copy, Debug, PartialEq, Eq, Structural)]
pub struct CorrectionProgress {
    pub last_ack_sequence: u32,
    pub last_server_tick: u64,
    pub replayed_commands: usize,
    pub mode: CorrectionMode,
}

/// What becomes of the correction's last error.
#[derive(Clone, Copy, Debug, PartialEq, Eq, Structural)]
pub enum ErrorUpdate {
    Keep,
    Zero,
    /// The distance between the snapshot and the frame predicted for its
    /// acknowledged command.
    HistoryError,
    /// How far the replay moved the predicted position.
    CorrectionDistance,
}

/// What becomes of the presentation offset that hides a correction.
#[derive(Clone, Copy, Debug, PartialEq, Eq, Structural)]
pub enum OffsetUpdate {
    Keep,
    Zero,
    /// The old visible position minus the replayed position, so the visual
    /// does not jump.
    VisibleDelta,
}

/// The next state of a prediction correction.
#[derive(Clone, Copy, Debug, PartialEq, Eq, Structural)]
pub struct CorrectionUpdate {
    pub progress: CorrectionProgress,
    pub error: ErrorUpdate,
    pub offset: OffsetUpdate,
}

/// The correction after handling a snapshot at `snapshot_server_tick`
/// acknowledging `snapshot_ack` with `step`; for a replay, `replayed`
/// commands were run, `had_ack_frame` says whether a frame was recorded for
/// the acknowledged command and `snapped` whether the replay moved the
/// prediction at least the snap distance.
pub open spec fn correction_update(
    progress: CorrectionProgress,
    step: ReconcileStep,
    snapshot_server_tick: u64,
    snapshot_ack: u32,
    replayed: usize,
    had_ack_frame: bool,
    snapped: bool,
) -> CorrectionUpdate {
    match step {
        ReconcileStep::Stale => CorrectionUpdate {
            progress,
            error: ErrorUpdate::Keep,
            offset: OffsetUpdate::Keep,
        },
        ReconcileStep::Wait => CorrectionUpdate {
            progress: CorrectionProgress {
                last_ack_sequence: progress.last_ack_sequence,
                last_server_tick: snapshot_server_tick,
                replayed_commands: 0,
                mode: CorrectionMode::Waiting,
            },
            error: ErrorUpdate::Zero,
            offset: OffsetUpdate::Keep,
        },
        ReconcileStep::Ignore { acknowledge } => CorrectionUpdate {
            progress: CorrectionProgress {
                last_ack_sequence: if acknowledge {
                    snapshot_ack
                } else {
                    progress.last_ack_sequence
                },
                last_server_tick: snapshot_server_tick,
                replayed_commands: 0,
                mode: CorrectionMode::Ignored,
            },
            error: if acknowledge {
                ErrorUpdate::HistoryError
            } else {
                ErrorUpdate::Zero
            },
            offset: OffsetUpdate::Keep,
        },
        ReconcileStep::Replay => CorrectionUpdate {
            progress: CorrectionProgress {
                last_ack_sequence: snapshot_ack,
                last_server_tick: snapshot_server_tick,
                replayed_commands: replayed,
                mode: if !had_ack_frame {
                    CorrectionMode::MissingHistory
                } else if snapped {
                    CorrectionMode::Snapped
                } else {
                    CorrectionMode::Replayed
                },
            },
            error: if had_ack_frame {
                ErrorUpdate::HistoryError
            } else {
                ErrorUpdate::CorrectionDistance
            },
            offset: if snapped {
                OffsetUpdate::Zero
            } else {
                OffsetUpdate::VisibleDelta
            },
        },
    }
}

/// Moves a prediction correction on after reconciliation handled a
/// snapshot (see `correction_update`).
pub fn correction_after(
    progress: CorrectionProgress,
    step: ReconcileStep,
    snapshot_server_tick: u64,
    snapshot_ack: u32,
    replayed: usize,
    had_ack_frame: bool,
    snapped: bool,
) -> (update: CorrectionUpdate)
    ensures
        update == correction_update(
            progress,
            step,
            snapshot_server_tick,
            snapshot_ack,
            replayed,
            had_ack_frame,
            snapped,
        ),
        step == ReconcileStep::Replay ==> (update.offset == OffsetUpdate::Zero <==> snapped),
        step == ReconcileStep::Replay ==> (update.offset == OffsetUpdate::VisibleDelta
            <==> !snapped),
        step != ReconcileStep::Replay ==> update.offset == OffsetUpdate::Keep,
        step == ReconcileStep::Replay ==> {
            &&& (update.progress.mode == CorrectionMode::Snapped <==> had_ack_frame && snapped)
            &&& (update.progress.mode == CorrectionMode::MissingHistory <==> !had_ack_frame)
            &&& (update.error == ErrorUpdate::HistoryError <==> had_ack_frame)
            &&& (update.error == ErrorUpdate::CorrectionDistance <==> !had_ack_frame)
            &&& (update.progress.mode == CorrectionMode::Replayed <==> had_ack_frame && !snapped)
            &&& update.progress.last_ack_sequence == snapshot_ack
            &&& update.progress.replayed_commands == replayed
        },
        step == ReconcileStep::Wait ==> {
            &&& update.progress.mode == CorrectionMode::Waiting
            &&& update.progress.last_ack_sequence == progress.last_ack_sequence
            &&& update.progress.replayed_commands == 0
            &&& update.error == ErrorUpdate::Zero
        },
        forall|acknowledge: bool|
            step == (ReconcileStep::Ignore { acknowledge }) ==> {
                &&& update.progress.mode == CorrectionMode::Ignored
                &&& update.progress.replayed_commands == 0
                &&& update.progress.last_ack_sequence == (if acknowledge {
                    snapshot_ack
                } else {
                    progress.last_ack_sequence
                })
                &&& update.error == (if acknowledge {
                    ErrorUpdate::HistoryError
                } else {
                    ErrorUpdate::Zero
                })
            },
        step == ReconcileStep::Stale ==> update.progress == progress && update.error
            == ErrorUpdate::Keep,
        step != ReconcileStep::Stale ==> update.progress.last_server_tick == snapshot_server_tick,
{
    match step {
        ReconcileStep::Stale => CorrectionUpdate {
            progress,
            error: ErrorUpdate::Keep,
            offset: OffsetUpdate::Keep,
        },
        ReconcileStep::Wait => CorrectionUpdate {
            progress: CorrectionProgress {
                last_ack_sequence: progress.last_ack_sequence,
                last_server_tick: snapshot_server_tick,
                replayed_commands: 0,
                mode: CorrectionMode::Waiting,
            },
            error: ErrorUpdate::Zero,
            offset: OffsetUpdate::Keep,
        },
        ReconcileStep::Ignore { acknowledge } => CorrectionUpdate {
            progress: CorrectionProgress {
                last_ack_sequence: if acknowledge {
                    snapshot_ack
                } else {
                    progress.last_ack_sequence
                },
                last_server_tick: snapshot_server_tick,
                replayed_commands: 0,
                mode: CorrectionMode::Ignored,
            },
            error: if acknowledge {
                ErrorUpdate::HistoryError
            } else {
                ErrorUpdate::Zero
            },
            offset: OffsetUpdate::Keep,
        },
        ReconcileStep::Replay => CorrectionUpdate {
            progress: CorrectionProgress {
                last_ack_sequence: snapshot_ack,
                last_server_tick: snapshot_server_tick,
                replayed_commands: replayed,
                mode: replay_mode(had_ack_frame, snapped),
            },
            error: if had_ack_frame {
                ErrorUpdate::HistoryError
            } else {
                ErrorUpdate::CorrectionDistance
            },
            offset: if snapped {
                OffsetUpdate::Zero
            } else {
                OffsetUpdate::VisibleDelta
            },
        },
    }
}

/// A replay snaps exactly when it moved the prediction at least the snap
/// distance: the presentation offset is then reset, and otherwise it takes
/// the visible difference so the correction is smoothed, whether or not a
/// frame was recorded for the acknowledged command. Only a replay touches the
/// offset.
pub proof fn lemma_replay_snaps_exactly_when_moved_far(
    progress: CorrectionProgress,
    step: ReconcileStep,
    snapshot_server_tick: u64,
    snapshot_ack: u32,
    replayed: usize,
    had_ack_frame: bool,
    snapped: bool,
)
    ensures
        ({
            let update = correction_update(
                progress,
                step,
                snapshot_server_tick,
                snapshot_ack,
                replayed,
                had_ack_frame,
                snapped,
            );
            &&& step == ReconcileStep::Replay ==> (update.offset == OffsetUpdate::Zero <==> snapped)
            &&& step == ReconcileStep::Replay ==> (update.offset == OffsetUpdate::VisibleDelta
                <==> !snapped)
            &&& step != ReconcileStep::Replay ==> update.offset == OffsetUpdate::Keep
            &&& step == ReconcileStep::Replay ==> (update.progress.mode == CorrectionMode::Snapped
                <==> had_ack_frame && snapped)
        }),
{
}

/// Reconciliation only moves forward: after any step the handled snapshot
/// tick is never older, and it is the snapshot's whenever the step was not
/// stale.
pub proof fn lemma_correction_tick_advances(
    progress: CorrectionProgress,
    snapshot_server_tick: u64,
    snapshot_ack: u32,
    ack_frame_agrees: Option<bool>,
    replayed: usize,
    had_ack_frame: bool,
    snapped: bool,
)
    ensures
        ({
            let step = if snapshot_server_tick <= progress.last_server_tick {
                ReconcileStep::Stale
            } else if snapshot_ack == 0 {
                ReconcileStep::Wait
            } else if snapshot_ack == progress.last_ack_sequence {
                ReconcileStep::Ignore { acknowledge: false }
            } else if ack_frame_agrees == Some(true) {
                ReconcileStep::Ignore { acknowledge: true }
            } else {
                ReconcileStep::Replay
            };
            let next = correction_update(
                progress,
                step,
                snapshot_server_tick,
                snapshot_ack,
                replayed,
                had_ack_frame,
                snapped,
            ).progress;
            &&& next.last_server_tick >= progress.last_server_tick
            &&& step != ReconcileStep::Stale ==> next.last_server_tick == snapshot_server_tick
            &&& step == ReconcileStep::Stale ==> next == progress
        }),
{
}

/// The commands of a replay, each with the buttons of the command before it:
/// the first with `first_previous` (the buttons the server last processed),
/// each later one with its predecessor's.
pub fn replay_plan(commands: &Vec<AhoyUserCmd>, first_previous: AhoyButtons) -> (plan: Vec<
    (AhoyUserCmd, AhoyButtons),
>)
    ensures
        plan@.len() == commands@.len(),
        forall|i: int| 0 <= i < plan@.len() ==> (#[trigger] plan@[i]).0 == commands@[i],
        forall|i: int|
            0 <= i < plan@.len() ==> (#[trigger] plan@[i]).1 == (if i == 0 {
                first_previous
            } else {
                commands@[i - 1].buttons
            }),
{
    let mut plan: Vec<(AhoyUserCmd, AhoyButtons)> = Vec::new();
    let mut previous = first_previous;
    let n = commands.len();
    let mut i: usize = 0;
    while i < n
        invariant
            n == commands@.len(),
            i <= n,
            plan@.len() == i,
            previous == (if i == 0 {
                first_previous
            } else {
                commands@[i - 1].buttons
            }),
            forall|k: int| 0 <= k < i ==> (#[trigger] plan@[k]).0 == commands@[k],
            forall|k: int|
                0 <= k < i ==> (#[trigger] plan@[k]).1 == (if k == 0 {
                    first_previous
                } else {
                    commands@[k - 1].buttons
                }),
        decreases n - i,
    {
        let command = commands[i];
        plan.push((command, previous));
        previous = command.buttons;
        i += 1;
    }
    plan
}

// ---------------------------------------------------------------------------
// Remote interpolation buffer

/// `i` is the first sample at or after `tick`.
pub open spec fn first_sample_at_or_after(samples: Seq<RemoteSnapshotSample>, tick: u64, i: int) -> bool {
    &&& 0 <= i < samples.len()
    &&& samples[i].server_tick >= tick
    &&& forall|j: int| 0 <= j < i ==> #[trigger] samples[j].server_tick < tick
}

/// Where a sample for `tick` goes: before the first sample at or after it,
/// or at the end.
pub open spec fn sample_slot(samples: Seq<RemoteSnapshotSample>, tick: u64) -> int {
    if exists|i: int| first_sample_at_or_after(samples, tick, i) {
        choose|i: int| first_sample_at_or_after(samples, tick, i)
    } else {
        samples.len() as int
    }
}

/// `samples` with `sample` in its slot, replacing a sample of the same tick.
pub open spec fn sample_placed(samples: Seq<RemoteSnapshotSample>, sample: RemoteSnapshotSample) -> Seq<
    RemoteSnapshotSample,
> {
    let i = sample_slot(samples, sample.server_tick);
    if i < samples.len() && samples[i].server_tick == sample.server_tick {
        samples.update(i, sample)
    } else {
        samples.insert(i, sample)
    }
}

/// A sample later than the newest one that cannot be blended with it
/// starts the buffer over.
pub open spec fn interpolation_resets(
    samples: Seq<RemoteSnapshotSample>,
    sample: RemoteSnapshotSample,
    teleported: bool,
) -> bool {
    &&& samples.len() > 0
    &&& sample.server_tick > samples.last().server_tick
    &&& (tick_gap(samples.last().server_tick, sample.server_tick)
        > REMOTE_INTERPOLATION_DISCONTINUITY_TICKS || teleported)
}

/// The buffer after `push(sample, teleported)`.
pub open spec fn interpolation_pushed(
    samples: Seq<RemoteSnapshotSample>,
    sample: RemoteSnapshotSample,
    teleported: bool,
) -> Seq<RemoteSnapshotSample> {
    let base = if interpolation_resets(samples, sample, teleported) {
        Seq::<RemoteSnapshotSample>::empty()
    } else {
        samples
    };
    newest(sample_placed(base, sample), REMOTE_INTERPOLATION_CAPACITY as nat)
}

/// Server ticks strictly increase along the buffer.
pub open spec fn ticks_increasing(samples: Seq<RemoteSnapshotSample>) -> bool {
    forall|i: int, j: int|
        0 <= i < j < samples.len() ==> #[trigger] samples[i].server_tick
            < #[trigger] samples[j].server_tick
}

/// Recent snapshots of one remote player, ordered by server tick.
#[derive(Clone, Debug)]
pub struct RemoteInterpolationBuffer {
    pub samples: VecDeque<RemoteSnapshotSample>,
    pub delay_ticks: u64,
}

impl Default for RemoteInterpolationBuffer {
    fn default() -> (buffer: Self)
        ensures
            buffer.samples@ == Seq::<RemoteSnapshotSample>::empty(),
            buffer.delay_ticks == REMOTE_INTERPOLATION_DELAY_TICKS,
    {
        RemoteInterpolationBuffer {
            samples: VecDeque::with_capacity(REMOTE_INTERPOLATION_CAPACITY),
            delay_ticks: REMOTE_INTERPOLATION_DELAY_TICKS,
        }
    }
}

impl RemoteInterpolationBuffer {
    /// Adds a snapshot sample. A later sample that cannot be blended with the
    /// newest one (`teleported` reports whether the position jumped too far
    /// from it) starts the buffer over; the sample then goes into its tick
    /// order, replacing one of the same tick, and the oldest samples beyond
    /// capacity are dropped.
    pub fn push(&mut self, sample: RemoteSnapshotSample, teleported: bool)
        ensures
            final(self).samples@ == interpolation_pushed(old(self).samples@, sample, teleported),
            final(self).delay_ticks == old(self).delay_ticks,
    {
        let len = self.samples.len();
        if len > 0 {
            let last = self.samples[len - 1];
            if sample.server_tick > last.server_tick && sample.starts_new_motion_segment_after(
                last,
                teleported,
            ) {
                self.samples.clear();
            }
        }
        let ghost base = self.samples@;
        proof {
            assert(base == (if interpolation_resets(old(self).samples@, sample, teleported) {
                Seq::<RemoteSnapshotSample>::empty()
            } else {
                old(self).samples@
            }));
        }
        let len = self.samples.len();
        let mut i: usize = 0;
        while i < len && self.samples[i].server_tick < sample.server_tick
            invariant
                len == self.samples@.len(),
                self.samples@ == base,
                self.delay_ticks == old(self).delay_ticks,
                i <= len,
                forall|j: int| 0 <= j < i ==> #[trigger] base[j].server_tick < sample.server_tick,
            decreases len - i,
        {
            i += 1;
        }
        proof {
            if i < len {
                assert(first_sample_at_or_after(base, sample.server_tick, i as int));
                let k = choose|k: int| first_sample_at_or_after(base, sample.server_tick, k);
                if k < i {
                    assert(base[k].server_tick < sample.server_tick);
                } else if i < k {
                    assert(base[i as int].server_tick < sample.server_tick);
                }
                assert(sample_slot(base, sample.server_tick) == i);
            } else {
                assert forall|k: int| !first_sample_at_or_after(base, sample.server_tick, k) by {
                    if first_sample_at_or_after(base, sample.server_tick, k) {
                        assert(base[k].server_tick < sample.server_tick);
                    }
                }
                assert(sample_slot(base, sample.server_tick) == len);
            }
        }
        if i < len {
            if self.samples[i].server_tick == sample.server_tick {
                self.samples.remove(i);
                self.samples.insert(i, sample);
                proof {
                    assert(self.samples@ =~= base.update(i as int, sample));
                }
            } else {
                self.samples.insert(i, sample);
            }
        } else {
            self.samples.push_back(sample);
            proof {
                assert(base.insert(len as int, sample) =~= base.push(sample));
            }
        }
        let ghost placed = self.samples@;
        assert(placed == sample_placed(base, sample));
        while self.samples.len() > REMOTE_INTERPOLATION_CAPACITY
            invariant
                self.samples@.len() <= placed.len(),
                self.delay_ticks == old(self).delay_ticks,
                self.samples@ == placed.skip(placed.len() - self.samples@.len()),
                placed.len() > REMOTE_INTERPOLATION_CAPACITY ==> self.samples@.len()
                    >= REMOTE_INTERPOLATION_CAPACITY,
                placed.len() <= REMOTE_INTERPOLATION_CAPACITY ==> self.samples@.len() == placed.len(),
            decreases self.samples@.len(),
        {
            let ghost before = self.samples@;
            self.samples.pop_front();
            proof {
                assert(self.samples@ =~= placed.skip(placed.len() - self.samples@.len()));
            }
        }
        proof {
            if placed.len() <= REMOTE_INTERPOLATION_CAPACITY {
                assert(placed.skip(0) =~= placed);
            }
        }
    }

    /// The samples a render time at `at` is drawn from.
    pub fn sample(&self, at: TickPoint) -> (pick: Option<SamplePick>)
        ensures
            pick == sample_pick(self.samples@, at),
    {
        sample_buffer_at(&self.samples, at)
    }
}

/// Pushing keeps an interpolation buffer in strictly increasing tick order
/// and within capacity, and the pushed sample is in it afterwards unless it
/// is older than everything a full buffer holds.
#[verifier::rlimit(40)]
pub proof fn lemma_interpolation_push_keeps_order(
    samples: Seq<RemoteSnapshotSample>,
    sample: RemoteSnapshotSample,
    teleported: bool,
)
    requires
        ticks_increasing(samples),
    ensures
        ticks_increasing(interpolation_pushed(samples, sample, teleported)),
        interpolation_pushed(samples, sample, teleported).len() <= REMOTE_INTERPOLATION_CAPACITY,
        interpolation_pushed(samples, sample, teleported).contains(sample) || (interpolation_pushed(
            samples,
            sample,
            teleported,
        ).len() == REMOTE_INTERPOLATION_CAPACITY && sample.server_tick < interpolation_pushed(
            samples,
            sample,
            teleported,
        )[0].server_tick),
{
    let base = if interpolation_resets(samples, sample, teleported) {
        Seq::<RemoteSnapshotSample>::empty()
    } else {
        samples
    };
    assert(ticks_increasing(base));
    let t = sample.server_tick;
    let i = sample_slot(base, t);
    let placed = sample_placed(base, sample);
    if exists|k: int| first_sample_at_or_after(base, t, k) {
        assert(first_sample_at_or_after(base, t, i));
    } else {
        assert(i == base.len());
        assert forall|j: int| 0 <= j < base.len() implies #[trigger] base[j].server_tick < t by {
            if base[j].server_tick >= t {
                lemma_first_reaching_exists(base, t, j);
            }
        }
    }
    assert(0 <= i <= base.len());
    assert forall|j: int| 0 <= j < i implies #[trigger] base[j].server_tick < t by {
        if i < base.len() {
            assert(first_sample_at_or_after(base, t, i));
        }
    }
    if i < base.len() && base[i].server_tick == t {
        assert(placed == base.update(i, sample));
        assert forall|a: int, b: int| 0 <= a < b < placed.len() implies #[trigger] placed[a].server_tick
            < #[trigger] placed[b].server_tick by {
            assert(base[a].server_tick < base[b].server_tick);
        }
        assert(placed[i] == sample);
    } else {
        assert(placed == base.insert(i, sample));
        base.insert_ensures(i, sample);
        assert forall|j: int| i <= j < base.len() implies #[trigger] base[j].server_tick > t by {
            assert(first_sample_at_or_after(base, t, i));
            if j > i {
                assert(base[i].server_tick < base[j].server_tick);
            }
        }
        assert forall|a: int, b: int| 0 <= a < b < placed.len() implies #[trigger] placed[a].server_tick
            < #[trigger] placed[b].server_tick by {
            if b < i {
                assert(base[a].server_tick < base[b].server_tick);
            } else if b == i {
                assert(base[a].server_tick < t);
            } else if a < i {
                assert(placed[b] == base[b - 1]);
                assert(base[a].server_tick < t);
            } else if a == i {
                assert(placed[b] == base[b - 1]);
            } else {
                assert(placed[b] == base[b - 1] && placed[a] == base[a - 1]);
                assert(base[a - 1].server_tick < base[b - 1].server_tick);
            }
        }
        assert(placed[i] == sample);
    }
    assert(placed[i] == sample);
    let cap = REMOTE_INTERPOLATION_CAPACITY as nat;
    let pushed = newest(placed, cap);
    if placed.len() > cap {
        let k = placed.len() - cap;
        assert(pushed == placed.skip(k));
        assert forall|a: int, b: int| 0 <= a < b < pushed.len() implies #[trigger] pushed[a].server_tick
            < #[trigger] pushed[b].server_tick by {
            assert(pushed[a] == placed[a + k] && pushed[b] == placed[b + k]);
        }
        if i >= k {
            assert(pushed[i - k] == sample);
        } else {
            assert(pushed[0] == placed[k]);
            assert(placed[i].server_tick < placed[k].server_tick);
        }
    } else {
        assert(pushed[i] == sample);
    }
}

/// A snapshot newer than everything buffered is what interpolation shows at
/// exactly its tick right after it was pushed.
pub proof fn lemma_interpolation_push_then_sample(
    samples: Seq<RemoteSnapshotSample>,
    sample: RemoteSnapshotSample,
    teleported: bool,
)
    requires
        ticks_increasing(samples),
        samples.len() > 0 ==> samples.last().server_tick < sample.server_tick,
    ensures
        sample_pick(
            interpolation_pushed(samples, sample, teleported),
            TickPoint { tick: sample.server_tick, between_ticks: false },
        ) == Some(SamplePick::Hold(sample)),
{
    lemma_interpolation_push_keeps_order(samples, sample, teleported);
    let base = if interpolation_resets(samples, sample, teleported) {
        Seq::<RemoteSnapshotSample>::empty()
    } else {
        samples
    };
    let t = sample.server_tick;
    assert forall|j: int| 0 <= j < base.len() implies #[trigger] base[j].server_tick < t by {
        if j < base.len() - 1 {
            assert(base[j].server_tick < base[base.len() - 1].server_tick);
        }
    }
    assert forall|k: int| !first_sample_at_or_after(base, t, k) by {
        if first_sample_at_or_after(base, t, k) {
            assert(base[k].server_tick < t);
        }
    }
    assert(sample_slot(base, t) == base.len());
    let placed = sample_placed(base, sample);
    assert(placed == base.insert(base.len() as int, sample));
    assert(placed =~= base.push(sample));
    let pushed = interpolation_pushed(samples, sample, teleported);
    let cap = REMOTE_INTERPOLATION_CAPACITY as nat;
    if placed.len() > cap {
        assert(pushed == placed.skip(placed.len() - cap));
        assert(pushed.last() == placed.last());
    }
    assert(pushed.last() == sample);
    if pushed.len() > 1 {
        assert(pushed[0].server_tick < pushed[pushed.len() - 1].server_tick);
    }
}

/// A sample at or after `t` at index `m` means a first such sample exists.
proof fn lemma_first_reaching_exists(samples: Seq<RemoteSnapshotSample>, t: u64, m: int)
    requires
        0 <= m < samples.len(),
        samples[m].server_tick >= t,
    ensures
        exists|k: int| first_sample_at_or_after(samples, t, k),
    decreases m,
{
    if exists|j: int| 0 <= j < m && #[trigger] samples[j].server_tick >= t {
        let j = choose|j: int| 0 <= j < m && #[trigger] samples[j].server_tick >= t;
        lemma_first_reaching_exists(samples, t, j);
    } else {
        assert(first_sample_at_or_after(samples, t, m));
    }
}

} // verus!
