//! Remote snapshot samples and the choice of which recorded samples a render
//! time is drawn from, shared by client interpolation and server lag
//! compensation.

use std::collections::VecDeque;
use vstd::prelude::*;
use crate::protocol::{AhoySnapshot, NetAhoyMoveState, Vec2Bits, Vec3Bits};

verus! {

pub const REMOTE_INTERPOLATION_DISCONTINUITY_TICKS: u64 = 20;

/// One recorded pose of a remote player at a server tick. Positions,
/// velocities and look angles are `f32` bit patterns.
#[derive(Clone, Copy, Debug, Default, PartialEq, Eq, Structural)]
pub struct RemoteSnapshotSample {
    pub server_tick: u64,
    pub position: Vec3Bits,
    pub velocity: Vec3Bits,
    pub look: Vec2Bits,
    pub state: NetAhoyMoveState,
}

/// The newest `cap` entries (the last ones) of `s`.
pub open spec fn newest<T>(s: Seq<T>, cap: nat) -> Seq<T> {
    if s.len() > cap {
        s.skip(s.len() - cap)
    } else {
        s
    }
}

/// The forward tick gap from `previous` to `next`, zero when `next` is not
/// later.
pub open spec fn tick_gap(previous: u64, next: u64) -> int {
    if next > previous {
        next - previous
    } else {
        0
    }
}

impl RemoteSnapshotSample {
    pub fn from_snapshot(snapshot: &AhoySnapshot) -> (sample: Self)
        ensures
            sample.server_tick == snapshot.server_tick,
            sample.position == snapshot.position,
            sample.velocity == snapshot.velocity,
            sample.look == snapshot.look,
            sample.state == snapshot.state,
    {
        RemoteSnapshotSample {
            server_tick: snapshot.server_tick,
            position: snapshot.position,
            velocity: snapshot.velocity,
            look: snapshot.look,
            state: snapshot.state,
        }
    }

    /// Whether `self` cannot be blended with the `previous` sample: too many
    /// ticks passed between them, or (as `teleported` reports) the player
    /// moved farther than a blend should cover.
    pub fn starts_new_motion_segment_after(self, previous: Self, teleported: bool) -> (starts: bool)
        ensures
            starts == (tick_gap(previous.server_tick, self.server_tick)
                > REMOTE_INTERPOLATION_DISCONTINUITY_TICKS || teleported),
    {
        let tick_gap = self.server_tick.saturating_sub(previous.server_tick);
        tick_gap > REMOTE_INTERPOLATION_DISCONTINUITY_TICKS || teleported
    }
}

/// A point on the server timeline as the sampling logic sees it: `tick`
/// whole ticks, plus a fraction that is zero (`between_ticks == false`) or
/// strictly between zero and one.
#[derive(Clone, Copy, Debug, Default, PartialEq, Eq, Structural)]
pub struct TickPoint {
    pub tick: u64,
    pub between_ticks: bool,
}

/// The point is at or before server tick `tick`.
pub open spec fn at_or_before(point: TickPoint, tick: u64) -> bool {
    point.tick < tick || (point.tick == tick && !point.between_ticks)
}

/// The point is at or after server tick `tick`.
pub open spec fn at_or_after(point: TickPoint, tick: u64) -> bool {
    point.tick >= tick
}

/// What a render time draws from a sample buffer: one sample as it is, or
/// a blend from the first sample toward the second.
#[derive(Clone, Copy, Debug, PartialEq, Eq, Structural)]
pub enum SamplePick {
    Hold(RemoteSnapshotSample),
    Blend(RemoteSnapshotSample, RemoteSnapshotSample),
}

/// `i` is the first sample after the first one that the point does not pass.
pub open spec fn first_sample_reached(samples: Seq<RemoteSnapshotSample>, point: TickPoint, i: int) -> bool {
    &&& 1 <= i < samples.len()
    &&& at_or_before(point, samples[i].server_tick)
    &&& forall|j: int| 1 <= j < i ==> !at_or_before(point, #[trigger] samples[j].server_tick)
}

/// The samples `sample_buffer_at` picks: before the first sample, the first;
/// at or past the last, the last; otherwise the blend from the sample before
/// the first one not passed toward that one.
pub open spec fn sample_pick(samples: Seq<RemoteSnapshotSample>, point: TickPoint) -> Option<SamplePick> {
    if samples.len() == 0 {
        None
    } else if at_or_before(point, samples[0].server_tick) {
        Some(SamplePick::Hold(samples[0]))
    } else if at_or_after(point, samples.last().server_tick) {
        Some(SamplePick::Hold(samples.last()))
    } else if exists|i: int| first_sample_reached(samples, point, i) {
        let i = choose|i: int| first_sample_reached(samples, point, i);
        Some(SamplePick::Blend(samples[i - 1], samples[i]))
    } else {
        Some(SamplePick::Hold(samples.last()))
    }
}

proof fn lemma_first_sample_reached_unique(
    samples: Seq<RemoteSnapshotSample>,
    point: TickPoint,
    i: int,
    k: int,
)
    requires
        first_sample_reached(samples, point, i),
        first_sample_reached(samples, point, k),
    ensures
        i == k,
{
    if i < k {
        assert(!at_or_before(point, samples[i].server_tick));
    } else if k < i {
        assert(!at_or_before(point, samples[k].server_tick));
    }
}

/// Chooses the samples a render time at `at` is drawn from. A blend always
/// brackets the render time: it lies after the first sample's tick and at
/// or before the second's.
pub fn sample_buffer_at(samples: &VecDeque<RemoteSnapshotSample>, at: TickPoint) -> (pick: Option<
    SamplePick,
>)
    ensures
        pick == sample_pick(samples@, at),
        pick matches Some(SamplePick::Blend(from, to)) ==> !at_or_before(at, from.server_tick)
            && at_or_before(at, to.server_tick),
{
    let len = samples.len();
    if len == 0 {
        return None;
    }
    let first = samples[0];
    let last = samples[len - 1];
    if at.tick < first.server_tick || (at.tick == first.server_tick && !at.between_ticks) {
        return Some(SamplePick::Hold(first));
    }
    if at.tick >= last.server_tick {
        return Some(SamplePick::Hold(last));
    }
    let mut previous = first;
    let mut i: usize = 1;
    while i < len
        invariant
            len == samples@.len(),
            1 <= i <= len,
            previous == samples@[i - 1],
            last == samples@.last(),
            at.tick < last.server_tick,
            !at_or_before(at, samples@[0].server_tick),
            forall|j: int| 1 <= j < i ==> !at_or_before(at, #[trigger] samples@[j].server_tick),
        decreases len - i,
    {
        let sample = samples[i];
        if at.tick < sample.server_tick || (at.tick == sample.server_tick && !at.between_ticks) {
            proof {
                assert(first_sample_reached(samples@, at, i as int));
                assert(!at_or_after(at, samples@.last().server_tick));
                let k = choose|k: int| first_sample_reached(samples@, at, k);
                lemma_first_sample_reached_unique(samples@, at, i as int, k);
            }
            return Some(SamplePick::Blend(previous, sample));
        }
        previous = sample;
        i += 1;
    }
    proof {
        assert forall|k: int| !first_sample_reached(samples@, at, k) by {
            if first_sample_reached(samples@, at, k) {
                assert(!at_or_before(at, samples@[k].server_tick));
            }
        }
    }
    Some(SamplePick::Hold(last))
}

} // verus!
