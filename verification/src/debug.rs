//! The deterministic incoming-packet conditioner used for testing under poor
//! network conditions: seeded loss and jittered latency, released in order of
//! readiness.

use std::collections::VecDeque;
use vstd::prelude::*;

verus! {

/// The largest millisecond count a `Duration` can hold.
pub const MAX_DURATION_MILLIS: u128 = 18_446_744_073_709_551_615_999;

/// Nanoseconds per millisecond.
pub const NANOS_PER_MILLI: u128 = 1_000_000;

/// The latest time (in nanoseconds on the conditioner's clock) at which a
/// packet can be conditioned: any delay still fits after it.
pub const LATEST_CONDITION_TIME: u128 = 340_282_366_920_920_016_719_300_897_880_153_211_455;

/// One xorshift64 step.
pub open spec fn xorshift64(value: u64) -> u64 {
    let a = value ^ (value << 13u64);
    let b = a ^ (a >> 7u64);
    b ^ (b << 17u64)
}

/// The conditioner's next random state (and output): a xorshift64 step,
/// kept nonzero.
pub open spec fn rng_step(state: u64) -> u64 {
    if xorshift64(state) >= 1 {
        xorshift64(state)
    } else {
        1
    }
}

/// The jitter drawn from `state` for a jitter bound of `jitter_ms`: zero
/// without drawing when the bound is zero, else uniform-by-remainder in
/// `-jitter_ms..=jitter_ms`.
pub open spec fn jitter_draw(jitter_ms: u128, state: u64) -> int {
    if jitter_ms == 0 {
        0
    } else {
        -jitter_ms + (rng_step(state) as int) % (2 * jitter_ms + 1)
    }
}

/// The random state after drawing the jitter.
pub open spec fn state_after_jitter(jitter_ms: u128, state: u64) -> u64 {
    if jitter_ms == 0 {
        state
    } else {
        rng_step(state)
    }
}

/// The delay in milliseconds for a latency, a jitter bound and the random
/// state: latency plus jitter, not below zero, as a `u64` count.
pub open spec fn delay_millis(latency_ms: u128, jitter_ms: u128, state: u64) -> u64 {
    (if latency_ms + jitter_draw(jitter_ms, state) > 0 {
        latency_ms + jitter_draw(jitter_ms, state)
    } else {
        0
    }) as u64
}

/// A packet held back until `ready_at` (nanoseconds on the conditioner's
/// clock).
#[derive(Debug)]
pub struct ConditionedPacket<P> {
    pub ready_at: u128,
    pub packet: P,
}

/// The queue after `collect_ready` has moved, by swap-removal from the
/// queue's front onward, every packet ready at `now` to `ready`.
pub open spec fn collected<P>(
    queued: Seq<ConditionedPacket<P>>,
    ready: Seq<ConditionedPacket<P>>,
    index: int,
    now: u128,
) -> (Seq<ConditionedPacket<P>>, Seq<ConditionedPacket<P>>)
    decreases queued.len() - index,
{
    if index < 0 || index >= queued.len() {
        (queued, ready)
    } else if queued[index].ready_at <= now {
        collected(queued.update(index, queued.last()).drop_last(), ready.push(queued[index]), index, now)
    } else {
        collected(queued, ready, index + 1, now)
    }
}

/// Where `item` goes in `sorted`: after the last packet ready no later.
pub open spec fn ready_slot<P>(sorted: Seq<ConditionedPacket<P>>, item: ConditionedPacket<P>) -> int
    decreases sorted.len(),
{
    if sorted.len() == 0 {
        0
    } else if sorted.last().ready_at > item.ready_at {
        ready_slot(sorted.drop_last(), item)
    } else {
        sorted.len() as int
    }
}

/// `items` stably sorted by readiness time.
pub open spec fn ready_sorted<P>(items: Seq<ConditionedPacket<P>>) -> Seq<ConditionedPacket<P>>
    decreases items.len(),
{
    if items.len() == 0 {
        items
    } else {
        let sorted = ready_sorted(items.drop_last());
        sorted.insert(ready_slot(sorted, items.last()), items.last())
    }
}

/// The packets of `items`, in order.
pub open spec fn packets_of<P>(items: Seq<ConditionedPacket<P>>) -> Seq<P> {
    items.map_values(|item: ConditionedPacket<P>| item.packet)
}

/// Seeded loss and latency for incoming packets. Loss compares the top 24
/// bits of a random draw with `loss_threshold` (a loss probability in units
/// of 2^-24).
pub struct NetworkConditioner<P> {
    latency_ms: u128,
    jitter_ms: u128,
    loss_threshold: u32,
    queued: Vec<ConditionedPacket<P>>,
    ready: Vec<ConditionedPacket<P>>,
    rng_state: u64,
}

impl<P> NetworkConditioner<P> {
    #[verifier::type_invariant]
    spec fn inv(self) -> bool {
        &&& self.latency_ms <= MAX_DURATION_MILLIS
        &&& self.jitter_ms <= MAX_DURATION_MILLIS
        &&& self.rng_state != 0
    }

    pub closed spec fn latency(&self) -> u128 {
        self.latency_ms
    }

    pub closed spec fn jitter(&self) -> u128 {
        self.jitter_ms
    }

    pub closed spec fn threshold(&self) -> u32 {
        self.loss_threshold
    }

    pub closed spec fn state(&self) -> u64 {
        self.rng_state
    }

    pub closed spec fn queued_packets(&self) -> Seq<ConditionedPacket<P>> {
        self.queued@
    }

    pub closed spec fn ready_packets(&self) -> Seq<ConditionedPacket<P>> {
        self.ready@
    }

    /// A conditioner with the given latency, jitter bound and loss
    /// threshold, seeded with `seed` (zero counts as one).
    pub fn new(latency_ms: u128, jitter_ms: u128, loss_threshold: u32, seed: u64) -> (conditioner:
        Self)
        requires
            latency_ms <= MAX_DURATION_MILLIS,
            jitter_ms <= MAX_DURATION_MILLIS,
        ensures
            conditioner.latency() == latency_ms,
            conditioner.jitter() == jitter_ms,
            conditioner.threshold() == loss_threshold,
            conditioner.state() == (if seed >= 1 {
                seed
            } else {
                1
            }),
            conditioner.queued_packets() == Seq::<ConditionedPacket<P>>::empty(),
            conditioner.ready_packets() == Seq::<ConditionedPacket<P>>::empty(),
    {
        NetworkConditioner {
            latency_ms,
            jitter_ms,
            loss_threshold,
            queued: Vec::with_capacity(64),
            ready: Vec::with_capacity(16),
            rng_state: if seed >= 1 {
                seed
            } else {
                1
            },
        }
    }

    /// The next random number: a xorshift64 step of the state, kept nonzero.
    pub fn next_u64(&mut self) -> (value: u64)
        ensures
            value == rng_step(old(self).state()),
            final(self).state() == value,
            final(self).latency() == old(self).latency(),
            final(self).jitter() == old(self).jitter(),
            final(self).threshold() == old(self).threshold(),
            final(self).queued_packets() == old(self).queued_packets(),
            final(self).ready_packets() == old(self).ready_packets(),
    {
        proof {
            use_type_invariant(&*self);
        }
        let mut value = self.rng_state;
        value ^= value << 13u64;
        value ^= value >> 7u64;
        value ^= value << 17u64;
        self.rng_state = if value >= 1 {
            value
        } else {
            1
        };
        self.rng_state
    }

    fn next_range_i128(&mut self, min: i128, max: i128) -> (value: i128)
        requires
            min <= max,
            max - min < 0x1_0000_0000_0000_0000_0000_0000,
        ensures
            value == min + (rng_step(old(self).state()) as int) % (max - min + 1),
            min <= value <= max,
            final(self).state() == rng_step(old(self).state()),
            final(self).latency() == old(self).latency(),
            final(self).jitter() == old(self).jitter(),
            final(self).threshold() == old(self).threshold(),
            final(self).queued_packets() == old(self).queued_packets(),
            final(self).ready_packets() == old(self).ready_packets(),
    {
        let width = (max - min + 1) as u128;
        let draw = self.next_u64() as u128 % width;
        min + draw as i128
    }

    fn conditioned_delay(&mut self) -> (delay_ms: u64)
        ensures
            delay_ms == delay_millis(old(self).latency(), old(self).jitter(), old(self).state()),
            final(self).state() == state_after_jitter(old(self).jitter(), old(self).state()),
            final(self).latency() == old(self).latency(),
            final(self).jitter() == old(self).jitter(),
            final(self).threshold() == old(self).threshold(),
            final(self).queued_packets() == old(self).queued_packets(),
            final(self).ready_packets() == old(self).ready_packets(),
    {
        proof {
            use_type_invariant(&*self);
        }
        let latency_ms = self.latency_ms as i128;
        let jitter_ms = self.jitter_ms as i128;
        let jitter = if jitter_ms == 0 {
            0
        } else {
            self.next_range_i128(-jitter_ms, jitter_ms)
        };
        let total = latency_ms + jitter;
        let clamped = if total > 0 {
            total
        } else {
            0
        };
        clamped as u64
    }

    /// Draws the packet's fate: lost when the top 24 bits of a random draw
    /// fall below the loss threshold, otherwise queued until its latency
    /// plus jitter has passed after `now`.
    pub fn condition_packet(&mut self, packet: P, now: u128)
        requires
            now <= LATEST_CONDITION_TIME,
        ensures
            final(self).latency() == old(self).latency(),
            final(self).jitter() == old(self).jitter(),
            final(self).threshold() == old(self).threshold(),
            final(self).ready_packets() == old(self).ready_packets(),
            ({
                let drawn = rng_step(old(self).state());
                if (drawn >> 40u64) < old(self).threshold() {
                    &&& final(self).state() == drawn
                    &&& final(self).queued_packets() == old(self).queued_packets()
                } else {
                    &&& final(self).state() == state_after_jitter(old(self).jitter(), drawn)
                    &&& final(self).queued_packets() == old(self).queued_packets().push(
                        ConditionedPacket {
                            ready_at: (now + delay_millis(old(self).latency(), old(self).jitter(), drawn)
                                * NANOS_PER_MILLI) as u128,
                            packet,
                        },
                    )
                }
            }),
    {
        let drawn = self.next_u64();
        if (drawn >> 40u64) < self.loss_threshold as u64 {
            return;
        }
        let delay_ms = self.conditioned_delay();
        let ready_at = now + delay_ms as u128 * NANOS_PER_MILLI;
        proof {
            use_type_invariant(&*self);
        }
        let mut queued = Vec::new();
        std::mem::swap(&mut queued, &mut self.queued);
        queued.push(ConditionedPacket { ready_at, packet });
        self.queued = queued;
    }

    /// Moves every queued packet ready at `now` to the ready list (which is
    /// emptied first), swap-removing from the queue's front onward.
    pub fn collect_ready(&mut self, now: u128)
        ensures
            (final(self).queued_packets(), final(self).ready_packets()) == collected(
                old(self).queued_packets(),
                Seq::<ConditionedPacket<P>>::empty(),
                0,
                now,
            ),
            final(self).state() == old(self).state(),
            final(self).latency() == old(self).latency(),
            final(self).jitter() == old(self).jitter(),
            final(self).threshold() == old(self).threshold(),
            forall|j: int|
                0 <= j < old(self).queued_packets().len()
                    && #[trigger] old(self).queued_packets()[j].ready_at <= now
                    && (forall|k: int| 0 <= k < j ==> old(self).queued_packets()[k].ready_at > now)
                    ==> final(self).ready_packets().len() > 0
                    && final(self).ready_packets()[0] == old(self).queued_packets()[j],
    {
        proof {
            use_type_invariant(&*self);
        }
        let mut queued = Vec::new();
        std::mem::swap(&mut queued, &mut self.queued);
        let mut ready: Vec<ConditionedPacket<P>> = Vec::new();
        let ghost start = queued@;
        let mut index: usize = 0;
        while index < queued.len()
            invariant
                collected(queued@, ready@, index as int, now) == collected(
                    start,
                    Seq::<ConditionedPacket<P>>::empty(),
                    0,
                    now,
                ),
            decreases queued@.len() - index,
        {
            if queued[index].ready_at <= now {
                let item = queued.swap_remove(index);
                ready.push(item);
            } else {
                index += 1;
            }
        }
        let mut empty_ready = Vec::new();
        std::mem::swap(&mut empty_ready, &mut self.ready);
        let mut empty_queued = Vec::new();
        std::mem::swap(&mut empty_queued, &mut self.queued);
        self.queued = queued;
        self.ready = ready;
        proof {
            assert forall|j: int|
                0 <= j < start.len() && #[trigger] start[j].ready_at <= now && (forall|k: int|
                    0 <= k < j ==> start[k].ready_at > now) implies collected(
                start,
                Seq::<ConditionedPacket<P>>::empty(),
                0,
                now,
            ).1.len() > 0 && collected(start, Seq::<ConditionedPacket<P>>::empty(), 0, now).1[0]
                == start[j] by {
                lemma_collect_takes_front_first(
                    start,
                    Seq::<ConditionedPacket<P>>::empty(),
                    0,
                    j,
                    now,
                );
            }
        }
    }

    /// Releases the packets ready at `now`, earliest first (packets ready at
    /// the same time keep the order `collect_ready` gave them).
    pub fn take_ready(&mut self, now: u128) -> (packets: Vec<P>)
        ensures
            packets@ == packets_of(
                ready_sorted(
                    collected(
                        old(self).queued_packets(),
                        Seq::<ConditionedPacket<P>>::empty(),
                        0,
                        now,
                    ).1,
                ),
            ),
            final(self).queued_packets() == collected(
                old(self).queued_packets(),
                Seq::<ConditionedPacket<P>>::empty(),
                0,
                now,
            ).0,
            final(self).ready_packets() == Seq::<ConditionedPacket<P>>::empty(),
            final(self).state() == old(self).state(),
            final(self).latency() == old(self).latency(),
            final(self).jitter() == old(self).jitter(),
            final(self).threshold() == old(self).threshold(),
            ({
                let queued = old(self).queued_packets();
                queued.len() > 0 && queued[0].ready_at <= now && (forall|j: int|
                    0 <= j < queued.len() ==> #[trigger] queued[j].ready_at == queued[0].ready_at)
                    ==> packets@ == packets_of(
                    seq![queued[0]] + queued.subrange(1, queued.len() as int).reverse(),
                )
            }),
    {
        let ghost queued_before = self.queued_packets();
        proof {
            if queued_before.len() > 0 && queued_before[0].ready_at <= now && (forall|j: int|
                0 <= j < queued_before.len() ==> #[trigger] queued_before[j].ready_at
                    == queued_before[0].ready_at) {
                lemma_same_time_release_order(queued_before, now);
            }
        }
        self.collect_ready(now);
        proof {
            use_type_invariant(&*self);
        }
        let mut ready = Vec::new();
        std::mem::swap(&mut ready, &mut self.ready);
        let ghost all = ready@;
        assert(all.len() == ready.len());
        let mut sorted: VecDeque<ConditionedPacket<P>> = VecDeque::new();
        let mut k: usize = 0;
        while ready.len() > 0
            invariant
                k <= all.len(),
                all.len() <= usize::MAX,
                ready@ == all.subrange(k as int, all.len() as int),
                sorted@ == ready_sorted(all.take(k as int)),
            decreases ready@.len(),
        {
            let item = ready.remove(0);
            proof {
                assert(all.take(k + 1).drop_last() =~= all.take(k as int));
                assert(all.take(k + 1).last() == item);
                lemma_ready_slot_bounds(sorted@, item);
            }
            let mut j = sorted.len();
            proof {
                assert(sorted@.take(j as int) =~= sorted@);
            }
            while j > 0 && sorted[j - 1].ready_at > item.ready_at
                invariant
                    j <= sorted@.len(),
                    ready_slot(sorted@, item) == ready_slot(sorted@.take(j as int), item),
                decreases j,
            {
                proof {
                    assert(sorted@.take(j as int).drop_last() =~= sorted@.take(j - 1));
                }
                j -= 1;
            }
            proof {
                if j > 0 {
                    assert(sorted@.take(j as int).last() == sorted@[j - 1]);
                } else {
                    assert(sorted@.take(0) =~= Seq::<ConditionedPacket<P>>::empty());
                }
            }
            sorted.insert(j, item);
            proof {
                assert(ready@ =~= all.subrange(k + 1, all.len() as int));
            }
            k += 1;
        }
        proof {
            assert(all.take(all.len() as int) =~= all);
        }
        let ghost full = sorted@;
        assert(full.len() == sorted.len());
        let mut packets: Vec<P> = Vec::new();
        let mut m: usize = 0;
        while sorted.len() > 0
            invariant
                m <= full.len(),
                full.len() <= usize::MAX,
                sorted@ == full.subrange(m as int, full.len() as int),
                packets@ == packets_of(full.take(m as int)),
            decreases sorted@.len(),
        {
            let popped = sorted.pop_front();
            match popped {
                Some(item) => {
                    proof {
                        assert(full.take(m + 1) =~= full.take(m as int).push(item));
                        assert(packets_of(full.take(m + 1)) =~= packets_of(full.take(m as int)).push(
                            item.packet,
                        ));
                    }
                    packets.push(item.packet);
                },
                None => {},
            }
            proof {
                assert(sorted@ =~= full.subrange(m + 1, full.len() as int));
            }
            m += 1;
        }
        proof {
            assert(full.take(full.len() as int) =~= full);
        }
        packets
    }
}

proof fn lemma_ready_slot_bounds<P>(sorted: Seq<ConditionedPacket<P>>, item: ConditionedPacket<P>)
    ensures
        0 <= ready_slot(sorted, item) <= sorted.len(),
    decreases sorted.len(),
{
    if sorted.len() > 0 {
        lemma_ready_slot_bounds(sorted.drop_last(), item);
    }
}

/// The delay stays within the jitter bound around the latency (and never
/// below zero) whenever the longest delay fits a `u64` millisecond count.
pub proof fn lemma_delay_within_jitter(latency_ms: u128, jitter_ms: u128, state: u64)
    requires
        latency_ms + jitter_ms <= u64::MAX,
    ensures
        delay_millis(latency_ms, jitter_ms, state) <= latency_ms + jitter_ms,
        delay_millis(latency_ms, jitter_ms, state) >= latency_ms - jitter_ms,
{
    if jitter_ms > 0 {
        let width = 2 * jitter_ms + 1;
        vstd::arithmetic::div_mod::lemma_mod_bound(rng_step(state) as int, width as int);
    }
}

/// `collect_ready` partitions the queue: what stays queued is not ready at
/// `now`, what moves is, and no packet is lost or duplicated.
pub proof fn lemma_collected_partition<P>(
    queued: Seq<ConditionedPacket<P>>,
    ready: Seq<ConditionedPacket<P>>,
    index: int,
    now: u128,
)
    requires
        0 <= index,
        forall|j: int| 0 <= j < index && j < queued.len() ==> #[trigger] queued[j].ready_at > now,
        forall|j: int| 0 <= j < ready.len() ==> #[trigger] ready[j].ready_at <= now,
    ensures
        forall|j: int|
            0 <= j < collected(queued, ready, index, now).0.len() ==> #[trigger] collected(
                queued,
                ready,
                index,
                now,
            ).0[j].ready_at > now,
        forall|j: int|
            0 <= j < collected(queued, ready, index, now).1.len() ==> #[trigger] collected(
                queued,
                ready,
                index,
                now,
            ).1[j].ready_at <= now,
        collected(queued, ready, index, now).0.to_multiset().add(
            collected(queued, ready, index, now).1.to_multiset(),
        ) == queued.to_multiset().add(ready.to_multiset()),
    decreases queued.len() - index,
{
    broadcast use vstd::seq_lib::group_to_multiset_ensures;
    broadcast use vstd::multiset::group_multiset_axioms;

    if index >= queued.len() {
    } else if queued[index].ready_at <= now {
        let last = queued.last();
        let updated = queued.update(index, last);
        let rest = updated.drop_last();
        let pushed = ready.push(queued[index]);
        assert forall|j: int| 0 <= j < index && j < rest.len() implies #[trigger] rest[j].ready_at
            > now by {
            assert(rest[j] == queued[j]);
        }
        assert forall|j: int| 0 <= j < pushed.len() implies #[trigger] pushed[j].ready_at <= now by {
            if j < ready.len() {
                assert(pushed[j] == ready[j]);
            }
        }
        lemma_collected_partition(rest, pushed, index, now);
        vstd::seq_lib::to_multiset_update(queued, index, last);
        vstd::seq_lib::to_multiset_remove(updated, updated.len() - 1);
        assert(updated.remove(updated.len() - 1) =~= rest);
        assert(updated[updated.len() - 1] == last);
        assert(rest.to_multiset() =~= queued.to_multiset().remove(queued[index]));
        assert(rest.to_multiset().add(pushed.to_multiset()) =~= queued.to_multiset().add(
            ready.to_multiset(),
        ));
    } else {
        lemma_collected_partition(queued, ready, index + 1, now);
    }
}

/// Sorting by readiness only reorders packets, earliest first.
pub proof fn lemma_ready_sorted_orders<P>(items: Seq<ConditionedPacket<P>>)
    ensures
        ready_sorted(items).to_multiset() == items.to_multiset(),
        ready_sorted(items).len() == items.len(),
        forall|a: int, b: int|
            0 <= a < b < ready_sorted(items).len() ==> #[trigger] ready_sorted(items)[a].ready_at
                <= #[trigger] ready_sorted(items)[b].ready_at,
    decreases items.len(),
{
    broadcast use vstd::seq_lib::group_to_multiset_ensures;

    if items.len() > 0 {
        let prefix = items.drop_last();
        let x = items.last();
        let r = ready_sorted(prefix);
        lemma_ready_sorted_orders(prefix);
        lemma_ready_slot_splits(r, x);
        let p = ready_slot(r, x);
        let out = r.insert(p, x);
        assert(ready_sorted(items) == out);
        assert(items =~= prefix.push(x));
        vstd::seq_lib::to_multiset_insert(r, p, x);
        r.insert_ensures(p, x);
        assert forall|a: int, b: int| 0 <= a < b < out.len() implies #[trigger] out[a].ready_at
            <= #[trigger] out[b].ready_at by {
            if b < p {
                assert(out[a] == r[a] && out[b] == r[b]);
            } else if b == p {
                assert(out[a] == r[a]);
            } else if a < p {
                assert(out[a] == r[a] && out[b] == r[b - 1]);
            } else if a == p {
                assert(out[b] == r[b - 1]);
            } else {
                assert(out[a] == r[a - 1] && out[b] == r[b - 1]);
            }
        }
    }
}

proof fn lemma_ready_slot_splits<P>(sorted: Seq<ConditionedPacket<P>>, item: ConditionedPacket<P>)
    requires
        forall|a: int, b: int|
            0 <= a < b < sorted.len() ==> #[trigger] sorted[a].ready_at <= #[trigger] sorted[b].ready_at,
    ensures
        0 <= ready_slot(sorted, item) <= sorted.len(),
        forall|j: int| 0 <= j < ready_slot(sorted, item) ==> #[trigger] sorted[j].ready_at <= item.ready_at,
        forall|j: int|
            ready_slot(sorted, item) <= j < sorted.len() ==> #[trigger] sorted[j].ready_at > item.ready_at,
    decreases sorted.len(),
{
    if sorted.len() > 0 {
        let prefix = sorted.drop_last();
        assert forall|j: int| 0 <= j < prefix.len() implies #[trigger] prefix[j] == sorted[j] by {}
        if sorted.last().ready_at > item.ready_at {
            assert forall|a: int, b: int| 0 <= a < b < prefix.len() implies #[trigger] prefix[a].ready_at
                <= #[trigger] prefix[b].ready_at by {
                assert(prefix[a] == sorted[a] && prefix[b] == sorted[b]);
            }
            lemma_ready_slot_splits(prefix, item);
            assert forall|j: int| 0 <= j < ready_slot(sorted, item) implies #[trigger] sorted[j].ready_at
                <= item.ready_at by {
                assert(prefix[j] == sorted[j]);
            }
            assert forall|j: int| ready_slot(sorted, item) <= j < sorted.len() implies #[trigger] sorted[j].ready_at
                > item.ready_at by {
                if j < prefix.len() {
                    assert(prefix[j] == sorted[j]);
                }
            }
        } else {
            assert forall|j: int| 0 <= j < sorted.len() implies #[trigger] sorted[j].ready_at
                <= item.ready_at by {
                if j < sorted.len() - 1 {
                    assert(sorted[j].ready_at <= sorted[sorted.len() - 1].ready_at);
                }
            }
        }
    }
}

/// What `take_ready` releases: exactly the queued packets ready at `now`,
/// earliest first; the packets not ready stay queued, and nothing is lost
/// or duplicated.
pub proof fn lemma_take_ready_releases<P>(queued: Seq<ConditionedPacket<P>>, now: u128)
    ensures
        forall|j: int|
            0 <= j < collected(queued, Seq::<ConditionedPacket<P>>::empty(), 0, now).0.len()
                ==> #[trigger] collected(queued, Seq::<ConditionedPacket<P>>::empty(), 0, now).0[j].ready_at
                > now,
        forall|j: int|
            0 <= j < ready_sorted(
                collected(queued, Seq::<ConditionedPacket<P>>::empty(), 0, now).1,
            ).len() ==> #[trigger] ready_sorted(
                collected(queued, Seq::<ConditionedPacket<P>>::empty(), 0, now).1,
            )[j].ready_at <= now,
        forall|a: int, b: int|
            0 <= a < b < ready_sorted(
                collected(queued, Seq::<ConditionedPacket<P>>::empty(), 0, now).1,
            ).len() ==> #[trigger] ready_sorted(
                collected(queued, Seq::<ConditionedPacket<P>>::empty(), 0, now).1,
            )[a].ready_at <= #[trigger] ready_sorted(
                collected(queued, Seq::<ConditionedPacket<P>>::empty(), 0, now).1,
            )[b].ready_at,
        collected(queued, Seq::<ConditionedPacket<P>>::empty(), 0, now).0.to_multiset().add(
            ready_sorted(collected(queued, Seq::<ConditionedPacket<P>>::empty(), 0, now).1).to_multiset(),
        ) == queued.to_multiset(),
{
    broadcast use vstd::seq_lib::group_to_multiset_ensures;
    broadcast use vstd::multiset::group_multiset_axioms;

    let empty = Seq::<ConditionedPacket<P>>::empty();
    let (left, ready) = collected(queued, empty, 0, now);
    lemma_collected_partition(queued, empty, 0, now);
    lemma_ready_sorted_orders(ready);
    let out = ready_sorted(ready);
    assert forall|j: int| 0 <= j < out.len() implies #[trigger] out[j].ready_at <= now by {
        assert(out.to_multiset().count(out[j]) > 0);
        assert(ready.contains(out[j]));
    }
    assert(empty.to_multiset() =~= vstd::multiset::Multiset::<ConditionedPacket<P>>::empty());
    assert(queued.to_multiset().add(empty.to_multiset()) =~= queued.to_multiset());
}

/// Collecting only appends: the packets already in the ready list keep their
/// places at its front, and each packet moved joins behind them.
pub proof fn lemma_collect_appends<P>(
    queued: Seq<ConditionedPacket<P>>,
    ready: Seq<ConditionedPacket<P>>,
    index: int,
    now: u128,
)
    ensures
        collected(queued, ready, index, now).1.len() >= ready.len(),
        collected(queued, ready, index, now).1.subrange(0, ready.len() as int) == ready,
    decreases queued.len() - index,
{
    if index < 0 || index >= queued.len() {
        assert(ready.subrange(0, ready.len() as int) =~= ready);
    } else if queued[index].ready_at <= now {
        let pushed = ready.push(queued[index]);
        lemma_collect_appends(queued.update(index, queued.last()).drop_last(), pushed, index, now);
        let out = collected(queued, ready, index, now).1;
        assert(out.subrange(0, pushed.len() as int).subrange(0, ready.len() as int) =~= out.subrange(
            0,
            ready.len() as int,
        ));
        assert(pushed.subrange(0, ready.len() as int) =~= ready);
    } else {
        lemma_collect_appends(queued, ready, index + 1, now);
    }
}

/// The next packet that collecting moves is the front-most queued packet (at
/// or after `index`) that is ready at `now`.
pub proof fn lemma_collect_takes_front_first<P>(
    queued: Seq<ConditionedPacket<P>>,
    ready: Seq<ConditionedPacket<P>>,
    index: int,
    first: int,
    now: u128,
)
    requires
        0 <= index <= first < queued.len(),
        queued[first].ready_at <= now,
        forall|k: int| index <= k < first ==> #[trigger] queued[k].ready_at > now,
    ensures
        collected(queued, ready, index, now).1.len() > ready.len(),
        collected(queued, ready, index, now).1[ready.len() as int] == queued[first],
    decreases first - index,
{
    if index < first {
        assert(queued[index].ready_at > now);
        lemma_collect_takes_front_first(queued, ready, index + 1, first, now);
    } else {
        let pushed = ready.push(queued[first]);
        lemma_collect_appends(queued.update(index, queued.last()).drop_last(), pushed, index, now);
        let out = collected(queued, ready, index, now).1;
        assert(out.subrange(0, pushed.len() as int)[ready.len() as int] == pushed[ready.len() as int]);
    }
}

/// When every queued packet is ready, collecting takes the front packet and
/// then, as each swap-removal brings the back of the queue forward, the rest
/// from the back to the front.
pub proof fn lemma_collect_all_ready<P>(
    queued: Seq<ConditionedPacket<P>>,
    ready: Seq<ConditionedPacket<P>>,
    now: u128,
)
    requires
        queued.len() > 0,
        forall|j: int| 0 <= j < queued.len() ==> #[trigger] queued[j].ready_at <= now,
    ensures
        collected(queued, ready, 0, now).0.len() == 0,
        collected(queued, ready, 0, now).1 == ready.push(queued[0]) + queued.subrange(
            1,
            queued.len() as int,
        ).reverse(),
    decreases queued.len(),
{
    let n = queued.len();
    let rest = queued.update(0, queued.last()).drop_last();
    let pushed = ready.push(queued[0]);
    assert(collected(queued, ready, 0, now) == collected(rest, pushed, 0, now));
    assert(rest.len() == n - 1);
    if n == 1 {
        assert(collected(rest, pushed, 0, now) == (rest, pushed));
        assert(queued.subrange(1, 1).reverse() =~= Seq::<ConditionedPacket<P>>::empty());
        assert(pushed + Seq::<ConditionedPacket<P>>::empty() =~= pushed);
    } else {
        assert forall|j: int| 0 <= j < rest.len() implies #[trigger] rest[j].ready_at <= now by {
            if j == 0 {
                assert(rest[j] == queued[n - 1]);
            } else {
                assert(rest[j] == queued[j]);
            }
        }
        lemma_collect_all_ready(rest, pushed, now);
        let tail = queued.subrange(1, n as int).reverse();
        let rest_tail = rest.subrange(1, rest.len() as int).reverse();
        assert(rest[0] == queued[n - 1]);
        assert(pushed.push(rest[0]) + rest_tail =~= pushed + tail) by {
            assert forall|k: int| 0 <= k < tail.len() implies #[trigger] tail[k] == (
            if k == 0 {
                queued[n - 1]
            } else {
                rest_tail[k - 1]
            }) by {
                if k > 0 {
                    assert(rest_tail[k - 1] == rest[rest.len() - 1 - (k - 1)]);
                    assert(rest[n - 1 - k] == queued[n - 1 - k]);
                }
            }
        }
    }
}

/// Sorting by readiness leaves a list that is already in order of readiness
/// as it is: packets ready at the same time keep their order.
pub proof fn lemma_ready_sorted_keeps_order<P>(items: Seq<ConditionedPacket<P>>)
    requires
        forall|a: int, b: int|
            0 <= a < b < items.len() ==> #[trigger] items[a].ready_at <= #[trigger] items[b].ready_at,
    ensures
        ready_sorted(items) == items,
    decreases items.len(),
{
    if items.len() > 0 {
        let prefix = items.drop_last();
        assert forall|a: int, b: int| 0 <= a < b < prefix.len() implies #[trigger] prefix[a].ready_at
            <= #[trigger] prefix[b].ready_at by {
            assert(prefix[a] == items[a] && prefix[b] == items[b]);
        }
        lemma_ready_sorted_keeps_order(prefix);
        if prefix.len() > 0 {
            assert(prefix.last() == items[items.len() - 2]);
        }
        assert(ready_slot(prefix, items.last()) == prefix.len());
        assert(prefix.insert(prefix.len() as int, items.last()) =~= items);
    }
}

/// Packets that all become ready at one time leave in the order of the
/// collect pass: the front of the queue first, then the others from the back
/// of the queue to its front. Two such packets leave in the order they were
/// queued.
pub proof fn lemma_same_time_release_order<P>(queued: Seq<ConditionedPacket<P>>, now: u128)
    requires
        queued.len() > 0,
        queued[0].ready_at <= now,
        forall|j: int| 0 <= j < queued.len() ==> #[trigger] queued[j].ready_at == queued[0].ready_at,
    ensures
        packets_of(ready_sorted(collected(queued, Seq::<ConditionedPacket<P>>::empty(), 0, now).1))
            == packets_of(seq![queued[0]] + queued.subrange(1, queued.len() as int).reverse()),
        queued.len() == 2 ==> packets_of(
            ready_sorted(collected(queued, Seq::<ConditionedPacket<P>>::empty(), 0, now).1),
        ) == seq![queued[0].packet, queued[1].packet],
{
    let empty = Seq::<ConditionedPacket<P>>::empty();
    lemma_collect_all_ready(queued, empty, now);
    let out = collected(queued, empty, 0, now).1;
    assert(empty.push(queued[0]) =~= seq![queued[0]]);
    assert forall|k: int| 0 <= k < out.len() implies #[trigger] out[k].ready_at == queued[0].ready_at by {
        if k > 0 {
            let tail = queued.subrange(1, queued.len() as int);
            assert(out[k] == tail.reverse()[k - 1]);
            assert(tail.reverse()[k - 1] == tail[tail.len() - 1 - (k - 1)]);
        }
    }
    lemma_ready_sorted_keeps_order(out);
    if queued.len() == 2 {
        assert(seq![queued[0]] + queued.subrange(1, 2).reverse() =~= seq![queued[0], queued[1]]);
        assert(packets_of(seq![queued[0], queued[1]]) =~= seq![queued[0].packet, queued[1].packet]);
    }
}

} // verus!
