//! Server-side bookkeeping: the server tick, per-player command
//! acknowledgement, the queue of received user commands, and the pose history
//! used for lag compensation.

use std::cmp::Ordering;
use std::collections::{HashMap, VecDeque};
use vstd::prelude::*;
use crate::client::{commands_appended, recent_commands, USERCMD_BACKUP_COUNT};
use crate::math::{newest, sample_buffer_at, sample_pick, RemoteSnapshotSample, SamplePick, TickPoint};
use crate::protocol::{
    newer_than, sequence_cmp, sequence_is_newer, sequence_offset, sequence_order, AhoyButtons,
    AhoyUserCmd, AhoyUserCmdPacket, PlayerId, lemma_sequence_newer_by_offset, SEQUENCE_WINDOW,
};

verus! {

pub const SERVER_USERCMD_BUDGET_PER_PLAYER: usize = 4;
pub const SERVER_CMD_QUEUE_CAPACITY: usize = 256;
pub const LAG_COMPENSATION_HISTORY_CAPACITY: usize = 128;

// ---------------------------------------------------------------------------
// Server tick and acknowledgement

#[derive(Clone, Copy, Debug, Default)]
pub struct ServerTick(pub u64);

impl ServerTick {
    /// Moves to the next tick, wrapping past `u64::MAX`.
    pub fn advance(&mut self)
        ensures
            final(self).0 == (if old(self).0 == u64::MAX {
                0
            } else {
                old(self).0 + 1
            }),
    {
        self.0 = self.0.wrapping_add(1);
    }
}

/// What the server has consumed of one player's command stream.
#[derive(Clone, Copy, Debug, Default)]
pub struct ServerCommandBuffer {
    pub last_processed_sequence: u32,
    pub last_buttons: AhoyButtons,
}

impl ServerCommandBuffer {
    /// Records that `command` was stepped: its buttons become the previous
    /// buttons, and its sequence becomes the acknowledged one if it is newer.
    /// The acknowledged sequence never moves backwards.
    pub fn record_processed(&mut self, command: &AhoyUserCmd)
        ensures
            final(self).last_processed_sequence == (if newer_than(
                command.sequence,
                old(self).last_processed_sequence,
            ) {
                command.sequence
            } else {
                old(self).last_processed_sequence
            }),
            final(self).last_buttons == command.buttons,
            final(self).last_processed_sequence == old(self).last_processed_sequence || newer_than(
                final(self).last_processed_sequence,
                old(self).last_processed_sequence,
            ),
    {
        if sequence_is_newer(command.sequence, self.last_processed_sequence) {
            self.last_processed_sequence = command.sequence;
        }
        self.last_buttons = command.buttons;
    }
}

// ---------------------------------------------------------------------------
// Queued user commands

/// Some queued command carries `sequence`.
pub open spec fn queue_has_sequence(queue: Seq<AhoyUserCmd>, sequence: u32) -> bool {
    exists|i: int| 0 <= i < queue.len() && #[trigger] queue[i].sequence == sequence
}

/// A received command is queued when it is numbered, newer than the last
/// processed command, and not queued already.
pub open spec fn admits(queue: Seq<AhoyUserCmd>, command: AhoyUserCmd, last_processed: u32) -> bool {
    &&& command.sequence != 0
    &&& newer_than(command.sequence, last_processed)
    &&& !queue_has_sequence(queue, command.sequence)
}

/// `queue` with the admitted commands of `incoming` appended in order.
pub open spec fn commands_admitted(
    queue: Seq<AhoyUserCmd>,
    incoming: Seq<AhoyUserCmd>,
    last_processed: u32,
) -> Seq<AhoyUserCmd>
    decreases incoming.len(),
{
    if incoming.len() == 0 {
        queue
    } else {
        let q = commands_admitted(queue, incoming.drop_last(), last_processed);
        if admits(q, incoming.last(), last_processed) {
            q.push(incoming.last())
        } else {
            q
        }
    }
}

/// `a` sorts after `b` under `sequence_cmp`.
pub open spec fn command_sorts_after(a: AhoyUserCmd, b: AhoyUserCmd) -> bool {
    sequence_order(a.sequence, b.sequence) == Ordering::Greater
}

/// Where `command` goes in `sorted`: after the last command that does not
/// sort after it.
pub open spec fn sequence_slot(sorted: Seq<AhoyUserCmd>, command: AhoyUserCmd) -> int
    decreases sorted.len(),
{
    if sorted.len() == 0 {
        0
    } else if command_sorts_after(sorted.last(), command) {
        sequence_slot(sorted.drop_last(), command)
    } else {
        sorted.len() as int
    }
}

/// `commands` stably sorted by `sequence_cmp`, by inserting each command in
/// turn.
pub open spec fn sequence_sorted(commands: Seq<AhoyUserCmd>) -> Seq<AhoyUserCmd>
    decreases commands.len(),
{
    if commands.len() == 0 {
        commands
    } else {
        let sorted = sequence_sorted(commands.drop_last());
        sorted.insert(sequence_slot(sorted, commands.last()), commands.last())
    }
}

/// The queue after `push_packet`.
pub open spec fn packet_queued(
    queue: Seq<AhoyUserCmd>,
    incoming: Seq<AhoyUserCmd>,
    last_processed: u32,
) -> Seq<AhoyUserCmd> {
    newest(
        sequence_sorted(commands_admitted(queue, incoming, last_processed)),
        SERVER_CMD_QUEUE_CAPACITY as nat,
    )
}

fn sorts_after(a: &AhoyUserCmd, b: &AhoyUserCmd) -> (after: bool)
    ensures
        after == command_sorts_after(*a, *b),
{
    match sequence_cmp(a.sequence, b.sequence) {
        Ordering::Greater => true,
        _ => false,
    }
}

fn slot_in(sorted: &VecDeque<AhoyUserCmd>, command: &AhoyUserCmd) -> (slot: usize)
    ensures
        slot == sequence_slot(sorted@, *command),
{
    let mut j = sorted.len();
    proof {
        assert(sorted@.take(j as int) =~= sorted@);
    }
    while j > 0 && sorts_after(&sorted[j - 1], command)
        invariant
            j <= sorted@.len(),
            sequence_slot(sorted@, *command) == sequence_slot(sorted@.take(j as int), *command),
        decreases j,
    {
        proof {
            assert(sorted@.take(j as int).drop_last() =~= sorted@.take(j - 1));
        }
        j -= 1;
    }
    proof {
        if j > 0 {
            assert(sorted@.take(j as int).last() == sorted@[j - 1]);
        } else {
            assert(sorted@.take(0) =~= Seq::<AhoyUserCmd>::empty());
        }
    }
    j
}

fn has_sequence(queue: &VecDeque<AhoyUserCmd>, sequence: u32) -> (found: bool)
    ensures
        found == queue_has_sequence(queue@, sequence),
{
    let len = queue.len();
    let mut i: usize = 0;
    while i < len
        invariant
            len == queue@.len(),
            i <= len,
            forall|j: int| 0 <= j < i ==> #[trigger] queue@[j].sequence != sequence,
        decreases len - i,
    {
        if queue[i].sequence == sequence {
            return true;
        }
        i += 1;
    }
    false
}

/// What the server does next with one player's queue within a tick.
#[derive(Clone, Copy, Debug, PartialEq, Eq, Structural)]
pub enum BudgetedCommand {
    /// Step this command.
    Step(AhoyUserCmd),
    /// The queue ran dry: drop held movement input instead of stepping.
    Idle,
    /// The per-tick budget is used up; the rest waits for the next tick.
    BudgetSpent,
}

/// Commands received from one player, waiting to be stepped.
#[derive(Clone, Debug)]
pub struct QueuedUserCmds {
    pub commands: VecDeque<AhoyUserCmd>,
}

impl Default for QueuedUserCmds {
    fn default() -> (queued: Self)
        ensures
            queued.commands@ == Seq::<AhoyUserCmd>::empty(),
    {
        QueuedUserCmds { commands: VecDeque::with_capacity(SERVER_CMD_QUEUE_CAPACITY) }
    }
}

impl QueuedUserCmds {
    /// Queues the new commands of a packet: each numbered command newer than
    /// `last_processed_sequence` and not queued yet is appended, the queue is
    /// sorted by `sequence_cmp`, and the oldest commands beyond capacity are
    /// dropped.
    pub fn push_packet(&mut self, packet: &AhoyUserCmdPacket, last_processed_sequence: u32)
        ensures
            final(self).commands@ == packet_queued(
                old(self).commands@,
                packet.commands@,
                last_processed_sequence,
            ),
    {
        let incoming = &packet.commands;
        let n = incoming.len();
        let mut i: usize = 0;
        while i < n
            invariant
                n == incoming@.len(),
                i <= n,
                self.commands@ == commands_admitted(
                    old(self).commands@,
                    incoming@.take(i as int),
                    last_processed_sequence,
                ),
            decreases n - i,
        {
            let command = incoming[i];
            proof {
                assert(incoming@.take(i + 1).drop_last() =~= incoming@.take(i as int));
                assert(incoming@.take(i + 1).last() == command);
            }
            if command.sequence != 0 && sequence_is_newer(command.sequence, last_processed_sequence)
                && !has_sequence(&self.commands, command.sequence) {
                self.commands.push_back(command);
            }
            i += 1;
        }
        proof {
            assert(incoming@.take(n as int) =~= incoming@);
        }
        let ghost admitted = self.commands@;
        let len = self.commands.len();
        let mut sorted: VecDeque<AhoyUserCmd> = VecDeque::new();
        let mut k: usize = 0;
        while k < len
            invariant
                len == admitted.len(),
                self.commands@ == admitted,
                k <= len,
                sorted@ == sequence_sorted(admitted.take(k as int)),
            decreases len - k,
        {
            let command = self.commands[k];
            let slot = slot_in(&sorted, &command);
            proof {
                assert(admitted.take(k + 1).drop_last() =~= admitted.take(k as int));
                assert(admitted.take(k + 1).last() == command);
                lemma_sequence_slot_bounds(sorted@, command);
            }
            sorted.insert(slot, command);
            k += 1;
        }
        proof {
            assert(admitted.take(len as int) =~= admitted);
        }
        self.commands = sorted;
        let ghost full = self.commands@;
        while self.commands.len() > SERVER_CMD_QUEUE_CAPACITY
            invariant
                self.commands@.len() <= full.len(),
                self.commands@ == full.skip(full.len() - self.commands@.len()),
                full.len() > SERVER_CMD_QUEUE_CAPACITY ==> self.commands@.len()
                    >= SERVER_CMD_QUEUE_CAPACITY,
                full.len() <= SERVER_CMD_QUEUE_CAPACITY ==> self.commands@.len() == full.len(),
            decreases self.commands@.len(),
        {
            self.commands.pop_front();
            proof {
                assert(self.commands@ =~= full.skip(full.len() - self.commands@.len()));
            }
        }
        proof {
            if full.len() <= SERVER_CMD_QUEUE_CAPACITY {
                assert(full.skip(0) =~= full);
            }
        }
    }

    /// The next command to step in a tick in which `processed` commands of
    /// this player were stepped already: the oldest queued one while the
    /// per-tick budget lasts.
    pub fn next_within_budget(&mut self, processed: usize) -> (next: BudgetedCommand)
        ensures
            processed >= SERVER_USERCMD_BUDGET_PER_PLAYER ==> next == BudgetedCommand::BudgetSpent
                && final(self).commands@ == old(self).commands@,
            processed < SERVER_USERCMD_BUDGET_PER_PLAYER && old(self).commands@.len() == 0 ==> next
                == BudgetedCommand::Idle && final(self).commands@ == old(self).commands@,
            processed < SERVER_USERCMD_BUDGET_PER_PLAYER && old(self).commands@.len() > 0 ==> next
                == BudgetedCommand::Step(old(self).commands@[0]) && final(self).commands@ == old(
                self,
            ).commands@.drop_first(),
    {
        if processed >= SERVER_USERCMD_BUDGET_PER_PLAYER {
            return BudgetedCommand::BudgetSpent;
        }
        match self.pop_next() {
            Some(command) => BudgetedCommand::Step(command),
            None => BudgetedCommand::Idle,
        }
    }

    /// Takes the oldest queued command.
    pub fn pop_next(&mut self) -> (next: Option<AhoyUserCmd>)
        ensures
            old(self).commands@.len() == 0 ==> next is None && final(self).commands@
                == old(self).commands@,
            old(self).commands@.len() > 0 ==> next == Some(old(self).commands@[0])
                && final(self).commands@ == old(self).commands@.drop_first(),
    {
        let next = self.commands.pop_front();
        proof {
            if old(self).commands@.len() > 0 {
                assert(old(self).commands@.subrange(1, old(self).commands@.len() as int)
                    =~= old(self).commands@.drop_first());
            }
        }
        next
    }
}

proof fn lemma_sequence_slot_bounds(sorted: Seq<AhoyUserCmd>, command: AhoyUserCmd)
    ensures
        0 <= sequence_slot(sorted, command) <= sorted.len(),
    decreases sorted.len(),
{
    if sorted.len() > 0 {
        lemma_sequence_slot_bounds(sorted.drop_last(), command);
    }
}

/// Every command is numbered and newer than `last_processed`.
pub open spec fn queue_admissible(queue: Seq<AhoyUserCmd>, last_processed: u32) -> bool {
    forall|i: int|
        0 <= i < queue.len() ==> #[trigger] queue[i].sequence != 0 && newer_than(
            queue[i].sequence,
            last_processed,
        )
}

/// Every command is numbered.
pub open spec fn queue_numbered(queue: Seq<AhoyUserCmd>) -> bool {
    forall|i: int| 0 <= i < queue.len() ==> #[trigger] queue[i].sequence != 0
}

/// Every command lies at `base` or less than the newer-window ahead of it.
pub open spec fn within_window(queue: Seq<AhoyUserCmd>, base: u32) -> bool {
    forall|i: int|
        0 <= i < queue.len() ==> sequence_offset(#[trigger] queue[i].sequence, base)
            < SEQUENCE_WINDOW
}

/// No two commands share a sequence number.
pub open spec fn sequences_unique(queue: Seq<AhoyUserCmd>) -> bool {
    forall|a: int, b: int|
        0 <= a < b < queue.len() ==> #[trigger] queue[a].sequence != #[trigger] queue[b].sequence
}

/// Commands appear in order of their distance ahead of `base`.
pub open spec fn ordered_after(queue: Seq<AhoyUserCmd>, base: u32) -> bool {
    forall|a: int, b: int|
        0 <= a < b < queue.len() ==> sequence_offset(#[trigger] queue[a].sequence, base)
            <= sequence_offset(#[trigger] queue[b].sequence, base)
}

/// Each command is newer than every command before it: the queue is sorted
/// by `sequence_cmp` without ties.
pub open spec fn sorted_by_sequence(queue: Seq<AhoyUserCmd>) -> bool {
    forall|a: int, b: int|
        0 <= a < b < queue.len() ==> newer_than(
            #[trigger] queue[b].sequence,
            #[trigger] queue[a].sequence,
        )
}

/// `command` was taken from the packet: it is the first command of its
/// sequence there, numbered, newer than the last processed one, and its
/// sequence was not queued before.
pub open spec fn admitted_from_packet(
    queue: Seq<AhoyUserCmd>,
    incoming: Seq<AhoyUserCmd>,
    last_processed: u32,
    command: AhoyUserCmd,
) -> bool {
    exists|i: int|
        {
            &&& 0 <= i < incoming.len()
            &&& #[trigger] incoming[i] == command
            &&& command.sequence != 0
            &&& newer_than(command.sequence, last_processed)
            &&& !queue_has_sequence(queue, command.sequence)
            &&& forall|j: int| 0 <= j < i ==> #[trigger] incoming[j].sequence != command.sequence
        }
}

proof fn lemma_sorts_after_is_offset_order(a: AhoyUserCmd, b: AhoyUserCmd, base: u32)
    requires
        sequence_offset(a.sequence, base) < SEQUENCE_WINDOW,
        sequence_offset(b.sequence, base) < SEQUENCE_WINDOW,
    ensures
        command_sorts_after(a, b) <==> sequence_offset(a.sequence, base) > sequence_offset(
            b.sequence,
            base,
        ),
{
    lemma_sequence_newer_by_offset(base, a.sequence, b.sequence);
}

/// In an ordered queue of commands within the window of `base`, the slot of
/// another such command splits the queue into the commands not farther
/// ahead and those farther ahead.
proof fn lemma_sequence_slot_splits(sorted: Seq<AhoyUserCmd>, command: AhoyUserCmd, base: u32)
    requires
        within_window(sorted, base),
        sequence_offset(command.sequence, base) < SEQUENCE_WINDOW,
        ordered_after(sorted, base),
    ensures
        0 <= sequence_slot(sorted, command) <= sorted.len(),
        forall|j: int|
            0 <= j < sequence_slot(sorted, command) ==> sequence_offset(
                #[trigger] sorted[j].sequence,
                base,
            ) <= sequence_offset(command.sequence, base),
        forall|j: int|
            sequence_slot(sorted, command) <= j < sorted.len() ==> sequence_offset(
                #[trigger] sorted[j].sequence,
                base,
            ) > sequence_offset(command.sequence, base),
    decreases sorted.len(),
{
    if sorted.len() > 0 {
        let prefix = sorted.drop_last();
        let last = sorted.last();
        assert(last == sorted[sorted.len() - 1]);
        lemma_sorts_after_is_offset_order(last, command, base);
        assert forall|j: int| 0 <= j < prefix.len() implies #[trigger] prefix[j] == sorted[j] by {}
        let p = sequence_slot(sorted, command);
        if command_sorts_after(last, command) {
            assert forall|j: int| 0 <= j < prefix.len() implies sequence_offset(
                #[trigger] prefix[j].sequence,
                base,
            ) < SEQUENCE_WINDOW by {
                assert(prefix[j] == sorted[j]);
            }
            assert forall|a: int, b: int| 0 <= a < b < prefix.len() implies sequence_offset(
                #[trigger] prefix[a].sequence,
                base,
            ) <= sequence_offset(#[trigger] prefix[b].sequence, base) by {
                assert(prefix[a] == sorted[a] && prefix[b] == sorted[b]);
            }
            lemma_sequence_slot_splits(prefix, command, base);
            assert(p == sequence_slot(prefix, command));
            assert forall|j: int| 0 <= j < p implies sequence_offset(
                #[trigger] sorted[j].sequence,
                base,
            ) <= sequence_offset(command.sequence, base) by {
                assert(prefix[j] == sorted[j]);
            }
            assert forall|j: int| p <= j < sorted.len() implies sequence_offset(
                #[trigger] sorted[j].sequence,
                base,
            ) > sequence_offset(command.sequence, base) by {
                if j < prefix.len() {
                    assert(prefix[j] == sorted[j]);
                }
            }
        } else {
            assert(p == sorted.len());
            assert forall|j: int| 0 <= j < p implies sequence_offset(
                #[trigger] sorted[j].sequence,
                base,
            ) <= sequence_offset(command.sequence, base) by {
                if j < sorted.len() - 1 {
                    assert(sequence_offset(sorted[j].sequence, base) <= sequence_offset(
                        sorted[sorted.len() - 1].sequence,
                        base,
                    ));
                }
            }
        }
    }
}

/// Sorting only reorders commands; commands all within the window of `base`
/// come out in order of their distance ahead of it, and distinct sequence
/// numbers stay distinct.
pub proof fn lemma_sequence_sorted_orders(commands: Seq<AhoyUserCmd>, base: u32)
    ensures
        sequence_sorted(commands).to_multiset() == commands.to_multiset(),
        sequence_sorted(commands).len() == commands.len(),
        within_window(commands, base) ==> ordered_after(sequence_sorted(commands), base),
        sequences_unique(commands) ==> sequences_unique(sequence_sorted(commands)),
    decreases commands.len(),
{
    broadcast use vstd::seq_lib::group_to_multiset_ensures;

    if commands.len() > 0 {
        let prefix = commands.drop_last();
        let x = commands.last();
        let r = sequence_sorted(prefix);
        lemma_sequence_sorted_orders(prefix, base);
        lemma_sequence_slot_bounds(r, x);
        let p = sequence_slot(r, x);
        let out = r.insert(p, x);
        assert(sequence_sorted(commands) == out);
        assert(commands =~= prefix.push(x));
        vstd::seq_lib::to_multiset_insert(r, p, x);
        r.insert_ensures(p, x);
        // every command of `r` is a command of `prefix`
        assert forall|j: int| 0 <= j < r.len() implies prefix.contains(#[trigger] r[j]) by {
            assert(r.to_multiset().count(r[j]) > 0);
        }
        if within_window(commands, base) {
            assert forall|j: int| 0 <= j < prefix.len() implies sequence_offset(
                #[trigger] prefix[j].sequence,
                base,
            ) < SEQUENCE_WINDOW by {
                assert(prefix[j] == commands[j]);
            }
            assert forall|j: int| 0 <= j < r.len() implies sequence_offset(
                #[trigger] r[j].sequence,
                base,
            ) < SEQUENCE_WINDOW by {
                assert(prefix.contains(r[j]));
                let w = choose|w: int| 0 <= w < prefix.len() && prefix[w] == r[j];
                assert(sequence_offset(prefix[w].sequence, base) < SEQUENCE_WINDOW);
            }
            assert(commands[commands.len() - 1] == x);
            lemma_sequence_slot_splits(r, x, base);
            assert forall|a: int, b: int| 0 <= a < b < out.len() implies sequence_offset(
                #[trigger] out[a].sequence,
                base,
            ) <= sequence_offset(#[trigger] out[b].sequence, base) by {
                if b < p {
                    assert(out[a] == r[a] && out[b] == r[b]);
                } else if b == p {
                    assert(out[a] == r[a]);
                } else if a < p {
                    assert(out[a] == r[a] && out[b] == r[b - 1]);
                } else if a == p {
                    assert(out[b] == r[b - 1]);
                } else {
                    assert(out[a] == r[a - 1] && out[b] == r[b - 1]);
                }
            }
        }
        if sequences_unique(commands) {
            assert forall|a: int, b: int| 0 <= a < b < prefix.len() implies #[trigger] prefix[a].sequence
                != #[trigger] prefix[b].sequence by {
                assert(prefix[a] == commands[a] && prefix[b] == commands[b]);
            }
            assert forall|j: int| 0 <= j < r.len() implies #[trigger] r[j].sequence != x.sequence by {
                assert(prefix.contains(r[j]));
                let w = choose|w: int| 0 <= w < prefix.len() && prefix[w] == r[j];
                assert(prefix[w] == commands[w]);
                assert(commands[commands.len() - 1] == x);
            }
            assert forall|a: int, b: int| 0 <= a < b < out.len() implies #[trigger] out[a].sequence
                != #[trigger] out[b].sequence by {
                if b < p {
                    assert(out[a] == r[a] && out[b] == r[b]);
                } else if b == p {
                    assert(out[a] == r[a]);
                } else if a < p {
                    assert(out[a] == r[a] && out[b] == r[b - 1]);
                } else if a == p {
                    assert(out[b] == r[b - 1]);
                } else {
                    assert(out[a] == r[a - 1] && out[b] == r[b - 1]);
                }
            }
        }
    }
}

/// What admitting a packet does to a queue of unique sequences: the queue
/// stays in front, unchanged; every command appended is the first of its
/// sequence in the packet, numbered, newer than the last processed one and
/// not queued before; sequences stay unique; and afterwards every numbered
/// command of the packet that is newer than the last processed one has its
/// sequence queued.
pub proof fn lemma_commands_admitted(
    queue: Seq<AhoyUserCmd>,
    incoming: Seq<AhoyUserCmd>,
    last_processed: u32,
)
    requires
        sequences_unique(queue),
    ensures
        commands_admitted(queue, incoming, last_processed).len() >= queue.len(),
        commands_admitted(queue, incoming, last_processed).subrange(0, queue.len() as int)
            == queue,
        forall|j: int|
            queue.len() <= j < commands_admitted(queue, incoming, last_processed).len()
                ==> admitted_from_packet(
                queue,
                incoming,
                last_processed,
                #[trigger] commands_admitted(queue, incoming, last_processed)[j],
            ),
        sequences_unique(commands_admitted(queue, incoming, last_processed)),
        forall|c: AhoyUserCmd|
            incoming.contains(c) && c.sequence != 0 && newer_than(c.sequence, last_processed)
                ==> queue_has_sequence(commands_admitted(queue, incoming, last_processed), c.sequence),
    decreases incoming.len(),
{
    if incoming.len() == 0 {
        assert(queue.subrange(0, queue.len() as int) =~= queue);
    } else {
        let rest = incoming.drop_last();
        let c = incoming.last();
        let q = commands_admitted(queue, rest, last_processed);
        lemma_commands_admitted(queue, rest, last_processed);
        let out = commands_admitted(queue, incoming, last_processed);
        assert forall|k: int| 0 <= k < rest.len() implies #[trigger] rest[k] == incoming[k] by {}
        // commands taken from the rest of the packet were taken from the packet
        assert forall|x: AhoyUserCmd|
            admitted_from_packet(queue, rest, last_processed, x) implies admitted_from_packet(
            queue,
            incoming,
            last_processed,
            x,
        ) by {
            let i = choose|i: int|
                {
                    &&& 0 <= i < rest.len()
                    &&& #[trigger] rest[i] == x
                    &&& x.sequence != 0
                    &&& newer_than(x.sequence, last_processed)
                    &&& !queue_has_sequence(queue, x.sequence)
                    &&& forall|j: int| 0 <= j < i ==> #[trigger] rest[j].sequence != x.sequence
                };
            assert(incoming[i] == x);
            assert forall|j: int| 0 <= j < i implies #[trigger] incoming[j].sequence
                != x.sequence by {
                assert(rest[j] == incoming[j]);
            }
        }
        if admits(q, c, last_processed) {
            assert(out == q.push(c));
            assert(out.subrange(0, queue.len() as int) =~= q.subrange(0, queue.len() as int));
            // the queue is a prefix of `q`, so `c`'s sequence was not queued
            assert(!queue_has_sequence(queue, c.sequence)) by {
                if queue_has_sequence(queue, c.sequence) {
                    let w = choose|w: int|
                        0 <= w < queue.len() && #[trigger] queue[w].sequence == c.sequence;
                    assert(q[w] == q.subrange(0, queue.len() as int)[w]);
                }
            }
            // no earlier command of the packet has `c`'s sequence
            assert forall|j: int| 0 <= j < incoming.len() - 1 implies #[trigger] incoming[j].sequence
                != c.sequence by {
                if incoming[j].sequence == c.sequence {
                    assert(rest[j] == incoming[j]);
                    assert(rest.contains(rest[j]));
                }
            }
            assert(incoming[incoming.len() - 1] == c);
            assert(admitted_from_packet(queue, incoming, last_processed, c));
            assert forall|k: int| queue.len() <= k < out.len() implies admitted_from_packet(
                queue,
                incoming,
                last_processed,
                #[trigger] out[k],
            ) by {
                if k < q.len() {
                    assert(out[k] == q[k]);
                }
            }
            assert forall|a: int, b: int| 0 <= a < b < out.len() implies #[trigger] out[a].sequence
                != #[trigger] out[b].sequence by {
                if b == q.len() {
                    assert(out[a] == q[a]);
                }
            }
        } else {
            assert(out == q);
        }
        // sequences queued before stay queued
        assert forall|s: u32| queue_has_sequence(q, s) implies queue_has_sequence(out, s) by {
            let w = choose|w: int| 0 <= w < q.len() && #[trigger] q[w].sequence == s;
            assert(out[w] == q[w]);
        }
        assert forall|d: AhoyUserCmd|
            incoming.contains(d) && d.sequence != 0 && newer_than(
                d.sequence,
                last_processed,
            ) implies queue_has_sequence(out, d.sequence) by {
            let w = choose|w: int| 0 <= w < incoming.len() && incoming[w] == d;
            if w < rest.len() {
                assert(rest[w] == d);
                assert(rest.contains(d));
                assert(queue_has_sequence(q, d.sequence));
            } else {
                assert(d == c);
                if admits(q, c, last_processed) {
                    assert(out[q.len() as int] == c);
                }
            }
        }
    }
}

/// The law of the command queue. Take a queue of unique numbered commands
/// and a packet whose commands, as far as they are admitted, lie with the
/// queue's in a window narrower than half the sequence space ahead of some
/// `base`, so that `sequence_cmp` orders them totally. After `push_packet`
/// the queue is sorted by `sequence_cmp` without ties, numbered, unique and
/// within capacity; each queued command was queued before or is the first
/// command of its sequence in the packet, admitted; and it holds the newest
/// of those: every command queued before, and the sequence of every
/// admissible packet command, is still there unless a full queue holds only
/// newer ones.
pub proof fn lemma_push_packet_window(
    queue: Seq<AhoyUserCmd>,
    incoming: Seq<AhoyUserCmd>,
    last_processed: u32,
    base: u32,
)
    requires
        sequences_unique(queue),
        queue_numbered(queue),
        within_window(queue, base),
        forall|c: AhoyUserCmd|
            incoming.contains(c) && c.sequence != 0 && newer_than(c.sequence, last_processed)
                ==> sequence_offset(c.sequence, base) < SEQUENCE_WINDOW,
    ensures
        sorted_by_sequence(packet_queued(queue, incoming, last_processed)),
        forall|a: int, b: int|
            0 <= a < b < packet_queued(queue, incoming, last_processed).len() ==> sequence_offset(
                #[trigger] packet_queued(queue, incoming, last_processed)[a].sequence,
                base,
            ) < sequence_offset(
                #[trigger] packet_queued(queue, incoming, last_processed)[b].sequence,
                base,
            ),
        sequences_unique(packet_queued(queue, incoming, last_processed)),
        queue_numbered(packet_queued(queue, incoming, last_processed)),
        packet_queued(queue, incoming, last_processed).len() <= SERVER_CMD_QUEUE_CAPACITY,
        forall|j: int|
            0 <= j < packet_queued(queue, incoming, last_processed).len() ==> queue.contains(
                #[trigger] packet_queued(queue, incoming, last_processed)[j],
            ) || admitted_from_packet(
                queue,
                incoming,
                last_processed,
                packet_queued(queue, incoming, last_processed)[j],
            ),
        forall|x: AhoyUserCmd|
            queue.contains(x) ==> packet_queued(queue, incoming, last_processed).contains(x) || (
            packet_queued(queue, incoming, last_processed).len() == SERVER_CMD_QUEUE_CAPACITY
                && sequence_offset(x.sequence, base) < sequence_offset(
                packet_queued(queue, incoming, last_processed)[0].sequence,
                base,
            )),
        forall|c: AhoyUserCmd|
            incoming.contains(c) && c.sequence != 0 && newer_than(c.sequence, last_processed)
                ==> queue_has_sequence(packet_queued(queue, incoming, last_processed), c.sequence)
                || (packet_queued(queue, incoming, last_processed).len()
                == SERVER_CMD_QUEUE_CAPACITY && sequence_offset(c.sequence, base)
                < sequence_offset(packet_queued(queue, incoming, last_processed)[0].sequence, base)),
{
    broadcast use vstd::seq_lib::group_to_multiset_ensures;

    let admitted = commands_admitted(queue, incoming, last_processed);
    lemma_commands_admitted(queue, incoming, last_processed);
    assert forall|j: int| 0 <= j < queue.len() implies #[trigger] admitted[j] == queue[j] by {
        assert(admitted.subrange(0, queue.len() as int)[j] == admitted[j]);
    }
    // every admitted command is numbered and within the window
    assert forall|j: int| 0 <= j < admitted.len() implies #[trigger] admitted[j].sequence != 0
        && sequence_offset(admitted[j].sequence, base) < SEQUENCE_WINDOW by {
        if j >= queue.len() {
            let x = admitted[j];
            assert(admitted_from_packet(queue, incoming, last_processed, x));
            let i = choose|i: int|
                {
                    &&& 0 <= i < incoming.len()
                    &&& #[trigger] incoming[i] == x
                    &&& x.sequence != 0
                    &&& newer_than(x.sequence, last_processed)
                    &&& !queue_has_sequence(queue, x.sequence)
                    &&& forall|k: int| 0 <= k < i ==> #[trigger] incoming[k].sequence != x.sequence
                };
            assert(incoming.contains(x));
        }
    }
    assert(within_window(admitted, base));
    let full = sequence_sorted(admitted);
    lemma_sequence_sorted_orders(admitted, base);
    // the sorted queue holds exactly the admitted commands
    assert forall|j: int| 0 <= j < full.len() implies admitted.contains(#[trigger] full[j]) by {
        assert(full.to_multiset().count(full[j]) > 0);
    }
    assert forall|j: int| 0 <= j < full.len() implies #[trigger] full[j].sequence != 0
        && sequence_offset(full[j].sequence, base) < SEQUENCE_WINDOW by {
        assert(admitted.contains(full[j]));
        let w = choose|w: int| 0 <= w < admitted.len() && admitted[w] == full[j];
        assert(admitted[w].sequence != 0);
    }
    // strictly increasing distances, hence sorted by `sequence_cmp`
    assert forall|a: int, b: int| 0 <= a < b < full.len() implies sequence_offset(
        #[trigger] full[a].sequence,
        base,
    ) < sequence_offset(#[trigger] full[b].sequence, base) by {
        lemma_sequence_newer_by_offset(base, full[a].sequence, full[b].sequence);
    }
    let out = packet_queued(queue, incoming, last_processed);
    let cap = SERVER_CMD_QUEUE_CAPACITY as nat;
    let k: int = if full.len() > cap {
        full.len() - cap
    } else {
        0
    };
    assert(out =~= full.skip(k));
    assert forall|j: int| 0 <= j < out.len() implies #[trigger] out[j] == full[j + k] by {}
    assert forall|a: int, b: int| 0 <= a < b < out.len() implies sequence_offset(
        #[trigger] out[a].sequence,
        base,
    ) < sequence_offset(#[trigger] out[b].sequence, base) by {
        assert(out[a] == full[a + k] && out[b] == full[b + k]);
    }
    assert forall|a: int, b: int| 0 <= a < b < out.len() implies newer_than(
        #[trigger] out[b].sequence,
        #[trigger] out[a].sequence,
    ) by {
        assert(out[a] == full[a + k] && out[b] == full[b + k]);
        lemma_sequence_newer_by_offset(base, out[b].sequence, out[a].sequence);
    }
    assert forall|a: int, b: int| 0 <= a < b < out.len() implies #[trigger] out[a].sequence
        != #[trigger] out[b].sequence by {
        assert(out[a] == full[a + k] && out[b] == full[b + k]);
    }
    assert forall|j: int| 0 <= j < out.len() implies #[trigger] out[j].sequence != 0 by {
        assert(out[j] == full[j + k]);
    }
    assert forall|j: int| 0 <= j < out.len() implies queue.contains(#[trigger] out[j])
        || admitted_from_packet(queue, incoming, last_processed, out[j]) by {
        assert(out[j] == full[j + k]);
        assert(admitted.contains(out[j]));
        let w = choose|w: int| 0 <= w < admitted.len() && admitted[w] == out[j];
        if w < queue.len() {
            assert(queue[w] == out[j]);
        } else {
            assert(admitted_from_packet(queue, incoming, last_processed, admitted[w]));
        }
    }
    // a command of `full` is kept unless it is older than the queue's front
    assert forall|x: AhoyUserCmd| full.contains(x) implies out.contains(x) || (out.len()
        == SERVER_CMD_QUEUE_CAPACITY && sequence_offset(x.sequence, base) < sequence_offset(
        out[0].sequence,
        base,
    )) by {
        let i = choose|i: int| 0 <= i < full.len() && full[i] == x;
        if i >= k {
            assert(out[i - k] == full[i]);
        } else {
            assert(out[0] == full[k]);
        }
    }
    assert forall|x: AhoyUserCmd| queue.contains(x) implies out.contains(x) || (out.len()
        == SERVER_CMD_QUEUE_CAPACITY && sequence_offset(x.sequence, base) < sequence_offset(
        out[0].sequence,
        base,
    )) by {
        let w = choose|w: int| 0 <= w < queue.len() && queue[w] == x;
        assert(admitted[w] == x);
        assert(admitted.contains(x));
        assert(admitted.to_multiset().count(x) > 0);
        assert(full.contains(x));
    }
    assert forall|c: AhoyUserCmd|
        incoming.contains(c) && c.sequence != 0 && newer_than(
            c.sequence,
            last_processed,
        ) implies queue_has_sequence(out, c.sequence) || (out.len() == SERVER_CMD_QUEUE_CAPACITY
        && sequence_offset(c.sequence, base) < sequence_offset(out[0].sequence, base)) by {
        assert(queue_has_sequence(admitted, c.sequence));
        let w = choose|w: int| 0 <= w < admitted.len() && #[trigger] admitted[w].sequence == c.sequence;
        assert(admitted.contains(admitted[w]));
        assert(admitted.to_multiset().count(admitted[w]) > 0);
        assert(full.contains(admitted[w]));
        let i = choose|i: int| 0 <= i < full.len() && full[i] == admitted[w];
        if i >= k {
            assert(out[i - k] == full[i]);
        } else {
            assert(out[0] == full[k]);
        }
    }
}

/// The command-queue law seen from the last processed command: for a queue
/// of unique commands all numbered and newer than it, pushing a packet
/// keeps the queue so, in strictly increasing sequence order from it, within
/// capacity, and every numbered command of the packet that is newer is
/// queued afterwards, unless a full queue holds only commands newer than it.
pub proof fn lemma_push_packet_queue(
    queue: Seq<AhoyUserCmd>,
    incoming: Seq<AhoyUserCmd>,
    last_processed: u32,
)
    requires
        queue_admissible(queue, last_processed),
        sequences_unique(queue),
    ensures
        queue_admissible(packet_queued(queue, incoming, last_processed), last_processed),
        sequences_unique(packet_queued(queue, incoming, last_processed)),
        forall|a: int, b: int|
            0 <= a < b < packet_queued(queue, incoming, last_processed).len() ==> sequence_offset(
                #[trigger] packet_queued(queue, incoming, last_processed)[a].sequence,
                last_processed,
            ) < sequence_offset(
                #[trigger] packet_queued(queue, incoming, last_processed)[b].sequence,
                last_processed,
            ),
        packet_queued(queue, incoming, last_processed).len() <= SERVER_CMD_QUEUE_CAPACITY,
        forall|c: AhoyUserCmd|
            incoming.contains(c) && c.sequence != 0 && newer_than(c.sequence, last_processed)
                ==> queue_has_sequence(packet_queued(queue, incoming, last_processed), c.sequence)
                || (packet_queued(queue, incoming, last_processed).len()
                == SERVER_CMD_QUEUE_CAPACITY && sequence_offset(c.sequence, last_processed)
                < sequence_offset(
                packet_queued(queue, incoming, last_processed)[0].sequence,
                last_processed,
            )),
{
    assert forall|j: int| 0 <= j < queue.len() implies #[trigger] queue[j].sequence != 0 by {}
    assert forall|j: int| 0 <= j < queue.len() implies sequence_offset(
        #[trigger] queue[j].sequence,
        last_processed,
    ) < SEQUENCE_WINDOW by {}
    lemma_push_packet_window(queue, incoming, last_processed, last_processed);
    let out = packet_queued(queue, incoming, last_processed);
    assert forall|j: int| 0 <= j < out.len() implies #[trigger] out[j].sequence != 0 && newer_than(
        out[j].sequence,
        last_processed,
    ) by {
        if queue.contains(out[j]) {
            let w = choose|w: int| 0 <= w < queue.len() && queue[w] == out[j];
            assert(queue[w].sequence != 0);
        } else {
            let x = out[j];
            assert(admitted_from_packet(queue, incoming, last_processed, x));
            let i = choose|i: int|
                {
                    &&& 0 <= i < incoming.len()
                    &&& #[trigger] incoming[i] == x
                    &&& x.sequence != 0
                    &&& newer_than(x.sequence, last_processed)
                    &&& !queue_has_sequence(queue, x.sequence)
                    &&& forall|k: int| 0 <= k < i ==> #[trigger] incoming[k].sequence != x.sequence
                };
        }
    }
}

/// End to end: a numbered command the client issues rides in the packet it
/// sends (with its backups), and a server whose last processed command is
/// older queues it, unless a full queue holds only newer commands.
pub proof fn lemma_issued_command_is_queued(
    client_history: Seq<AhoyUserCmd>,
    command: AhoyUserCmd,
    queue: Seq<AhoyUserCmd>,
    last_processed: u32,
)
    requires
        queue_admissible(queue, last_processed),
        sequences_unique(queue),
        command.sequence != 0,
        newer_than(command.sequence, last_processed),
    ensures
        ({
            let packet = recent_commands(
                commands_appended(client_history, command),
                USERCMD_BACKUP_COUNT as nat,
            );
            let queued = packet_queued(queue, packet, last_processed);
            queue_has_sequence(queued, command.sequence) || (queued.len()
                == SERVER_CMD_QUEUE_CAPACITY && sequence_offset(command.sequence, last_processed)
                < sequence_offset(queued[0].sequence, last_processed))
        }),
{
    let history = commands_appended(client_history, command);
    let packet = recent_commands(history, USERCMD_BACKUP_COUNT as nat);
    assert(history.last() == command);
    assert(packet.last() == command);
    assert(packet.contains(command));
    lemma_push_packet_queue(queue, packet, last_processed);
}

// ---------------------------------------------------------------------------
// Lag compensation history

/// A player's pose history after recording `sample`: a sample of the same
/// tick as the newest one replaces it; otherwise the sample is appended,
/// the oldest dropped first when the history holds `max_frames` already.
pub open spec fn pose_recorded(
    samples: Seq<RemoteSnapshotSample>,
    sample: RemoteSnapshotSample,
    max_frames: nat,
) -> Seq<RemoteSnapshotSample> {
    if samples.len() > 0 && samples.last().server_tick == sample.server_tick {
        samples.update(samples.len() - 1, sample)
    } else if samples.len() > 0 && samples.len() == max_frames {
        samples.drop_first().push(sample)
    } else {
        samples.push(sample)
    }
}

/// The poses recorded for `player` so far.
pub open spec fn poses_of(
    poses: Map<u64, VecDeque<RemoteSnapshotSample>>,
    player: u64,
) -> Seq<RemoteSnapshotSample> {
    if poses.contains_key(player) {
        poses[player]@
    } else {
        Seq::<RemoteSnapshotSample>::empty()
    }
}

/// Recent authoritative poses of every player, by player id, for rewinding
/// hit tests to the time a client saw.
#[derive(Debug)]
pub struct LagCompensationHistory {
    pub max_frames: usize,
    pub poses: HashMap<u64, VecDeque<RemoteSnapshotSample>>,
}

impl Default for LagCompensationHistory {
    fn default() -> (history: Self)
        ensures
            history.max_frames == LAG_COMPENSATION_HISTORY_CAPACITY,
            history.poses@ == Map::<u64, VecDeque<RemoteSnapshotSample>>::empty(),
    {
        LagCompensationHistory {
            max_frames: LAG_COMPENSATION_HISTORY_CAPACITY,
            poses: HashMap::new(),
        }
    }
}

impl LagCompensationHistory {
    /// Records `sample` as `player_id`'s newest pose.
    pub fn record(&mut self, player_id: PlayerId, sample: RemoteSnapshotSample)
        ensures
            final(self).max_frames == old(self).max_frames,
            final(self).poses@.contains_key(player_id.0),
            final(self).poses@[player_id.0]@ == pose_recorded(
                poses_of(old(self).poses@, player_id.0),
                sample,
                old(self).max_frames as nat,
            ),
            final(self).poses@.remove(player_id.0) == old(self).poses@.remove(player_id.0),
    {
        let key = player_id.0;
        let removed = self.poses.remove(&key);
        let mut samples = match removed {
            Some(samples) => samples,
            None => VecDeque::new(),
        };
        let ghost before = samples@;
        assert(before == poses_of(old(self).poses@, key));
        let len = samples.len();
        if len > 0 && samples[len - 1].server_tick == sample.server_tick {
            samples.pop_back();
            samples.push_back(sample);
            proof {
                assert(samples@ =~= before.update(len - 1, sample));
            }
        } else {
            if len == self.max_frames {
                samples.pop_front();
            }
            samples.push_back(sample);
            proof {
                if len > 0 && len == self.max_frames {
                    assert(before.subrange(1, len as int) =~= before.drop_first());
                }
            }
        }
        self.poses.insert(key, samples);
        proof {
            assert(self.poses@.remove(key) =~= old(self).poses@.remove(key));
        }
    }

    /// The samples `player_id`'s pose at `server_time` is drawn from, if any
    /// pose of the player is recorded.
    pub fn pose_at_time(&self, player_id: PlayerId, server_time: TickPoint) -> (pick: Option<
        SamplePick,
    >)
        ensures
            pick == (if self.poses@.contains_key(player_id.0) {
                sample_pick(self.poses@[player_id.0]@, server_time)
            } else {
                None
            }),
    {
        match self.poses.get(&player_id.0) {
            Some(samples) => sample_buffer_at(samples, server_time),
            None => None,
        }
    }
}

/// Server ticks strictly increase along a pose history.
pub open spec fn poses_increasing(samples: Seq<RemoteSnapshotSample>) -> bool {
    forall|i: int, j: int|
        0 <= i < j < samples.len() ==> #[trigger] samples[i].server_tick
            < #[trigger] samples[j].server_tick
}

/// Recording poses at non-decreasing ticks keeps a history in increasing
/// tick order and within a positive capacity, with the recorded pose newest.
pub proof fn lemma_record_keeps_order(
    samples: Seq<RemoteSnapshotSample>,
    sample: RemoteSnapshotSample,
    max_frames: nat,
)
    requires
        poses_increasing(samples),
        samples.len() > 0 ==> samples.last().server_tick <= sample.server_tick,
    ensures
        poses_increasing(pose_recorded(samples, sample, max_frames)),
        0 < max_frames && samples.len() <= max_frames ==> pose_recorded(
            samples,
            sample,
            max_frames,
        ).len() <= max_frames,
        pose_recorded(samples, sample, max_frames).last() == sample,
{
    let out = pose_recorded(samples, sample, max_frames);
    let n = samples.len();
    if n > 0 && samples.last().server_tick == sample.server_tick {
        assert forall|i: int, j: int| 0 <= i < j < out.len() implies #[trigger] out[i].server_tick
            < #[trigger] out[j].server_tick by {
            assert(samples[i].server_tick < samples[j].server_tick);
        }
    } else if n > 0 && n == max_frames {
        let base = samples.drop_first();
        assert(out == base.push(sample));
        assert forall|i: int, j: int| 0 <= i < j < out.len() implies #[trigger] out[i].server_tick
            < #[trigger] out[j].server_tick by {
            if j < base.len() {
                assert(base[i] == samples[i + 1] && base[j] == samples[j + 1]);
            } else {
                assert(base[i] == samples[i + 1]);
                assert(samples[i + 1].server_tick <= samples[n - 1].server_tick);
            }
        }
    } else {
        assert(out == samples.push(sample));
        assert forall|i: int, j: int| 0 <= i < j < out.len() implies #[trigger] out[i].server_tick
            < #[trigger] out[j].server_tick by {
            if j == n {
                assert(samples[i].server_tick <= samples[n - 1].server_tick);
            }
        }
    }
    assert(out.last() == sample);
}

/// The pose just recorded is what lag compensation sees at exactly its tick,
/// whenever every older pose kept is earlier (the newest may share its tick
/// and is then replaced).
pub proof fn lemma_record_then_pose_at_tick(
    samples: Seq<RemoteSnapshotSample>,
    sample: RemoteSnapshotSample,
    max_frames: nat,
)
    requires
        forall|j: int| 0 <= j < samples.len() - 1 ==> #[trigger] samples[j].server_tick
            < sample.server_tick,
        samples.len() > 0 ==> samples.last().server_tick <= sample.server_tick,
    ensures
        sample_pick(
            pose_recorded(samples, sample, max_frames),
            TickPoint { tick: sample.server_tick, between_ticks: false },
        ) == Some(SamplePick::Hold(sample)),
{
    let out = pose_recorded(samples, sample, max_frames);
    let n = samples.len();
    let t = sample.server_tick;
    if n > 0 && samples.last().server_tick == t {
        assert(out == samples.update(n - 1, sample));
        if n > 1 {
            assert(out[0] == samples[0]);
            assert(samples[0].server_tick < t);
        }
    } else if n > 0 && n == max_frames {
        let base = samples.drop_first();
        assert(out == base.push(sample));
        if n > 1 {
            assert(out[0] == samples[1]);
            assert(samples[1].server_tick < t);
        }
    } else {
        assert(out == samples.push(sample));
        if n > 0 {
            assert(out[0] == samples[0]);
            assert(samples[0].server_tick < t);
        }
    }
    assert(out.last() == sample);
    assert(out.len() == 1 || out[0].server_tick < out[out.len() - 1].server_tick);
}

} // verus!
