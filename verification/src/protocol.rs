//! Wire types shared by both peers and the wrap-around order of command
//! sequence numbers.

use std::cmp::Ordering;
use vstd::prelude::*;

verus! {

pub const DEFAULT_PORT: u16 = 5000;

/// Width of the "newer" window: `u32::MAX / 2`.
pub const SEQUENCE_WINDOW: u32 = 0x7fff_ffff;

/// Two `f32` components carried as their IEEE-754 bit patterns. The
/// library moves these values but never does arithmetic on them.
#[derive(Clone, Copy, Debug, Default, PartialEq, Eq, Structural)]
pub struct Vec2Bits {
    pub x: u32,
    pub y: u32,
}

/// Three `f32` components carried as their IEEE-754 bit patterns.
#[derive(Clone, Copy, Debug, Default, PartialEq, Eq, Structural)]
pub struct Vec3Bits {
    pub x: u32,
    pub y: u32,
    pub z: u32,
}

/// Movement buttons for one command. Bits `0..16` are library-defined (the
/// KCC reads them); bits `16..` are game-defined and opaque to the library,
/// which carries them in the sequenced command but never interprets them.
#[derive(Clone, Copy, Debug, Default, PartialEq, Eq, Structural, Hash)]
pub struct AhoyButtons {
    pub bits: u32,
}

/// Bit of each library-defined button in `AhoyButtons::bits`.
pub const BUTTON_JUMP: u32 = 0x01;
pub const BUTTON_CROUCH: u32 = 0x02;
pub const BUTTON_TAC: u32 = 0x04;
pub const BUTTON_MANTLE: u32 = 0x08;
pub const BUTTON_CRANE: u32 = 0x10;
pub const BUTTON_CLIMBDOWN: u32 = 0x20;
pub const BUTTON_SWIM_UP: u32 = 0x40;

/// The bits the library itself interprets.
pub const LIBRARY_BUTTON_MASK: u32 = 0xffff;

impl AhoyButtons {
    /// No button held.
    pub fn empty() -> (buttons: AhoyButtons)
        ensures
            buttons.bits == 0,
    {
        AhoyButtons { bits: 0 }
    }

    /// Keeps every bit as given, including game-defined ones.
    pub fn from_bits_retain(bits: u32) -> (buttons: AhoyButtons)
        ensures
            buttons.bits == bits,
    {
        AhoyButtons { bits }
    }

    pub fn bits(&self) -> (bits: u32)
        ensures
            bits == self.bits,
    {
        self.bits
    }

    /// All bits of `other` are set in `self`.
    pub fn contains(&self, other: AhoyButtons) -> (held: bool)
        ensures
            held == (self.bits & other.bits == other.bits),
    {
        self.bits & other.bits == other.bits
    }

    /// The bits of `self` that are not set in `other`.
    pub fn difference(&self, other: AhoyButtons) -> (rest: AhoyButtons)
        ensures
            rest.bits == self.bits & !other.bits,
    {
        AhoyButtons { bits: self.bits & !other.bits }
    }

    /// Only the library-defined bits of `self`.
    pub open spec fn library_part(self) -> u32 {
        self.bits & LIBRARY_BUTTON_MASK
    }
}

#[derive(Clone, Copy, Debug, Default, PartialEq, Eq, Structural, Hash)]
pub struct PlayerId(pub u64);

#[derive(Clone, Copy, Debug, Default, PartialEq, Eq, Structural)]
pub struct AhoyUserCmd {
    pub sequence: u32,
    pub movement: Vec2Bits,
    pub look: Vec2Bits,
    pub buttons: AhoyButtons,
}

#[derive(Clone, Debug, Default)]
pub struct AhoyUserCmdPacket {
    pub commands: Vec<AhoyUserCmd>,
}

/// The replicated part of the character controller state; the optional
/// heights are `f32` bit patterns.
#[derive(Clone, Copy, Debug, Default, PartialEq, Eq, Structural)]
pub struct NetAhoyMoveState {
    pub grounded: bool,
    pub crouching: bool,
    pub mantle_height_left: Option<u32>,
    pub crane_height_left: Option<u32>,
}

#[derive(Clone, Copy, Debug, Default, PartialEq, Eq, Structural)]
pub struct AhoySnapshot {
    pub server_tick: u64,
    pub last_processed_sequence: u32,
    pub last_processed_buttons: AhoyButtons,
    pub position: Vec3Bits,
    pub velocity: Vec3Bits,
    pub look: Vec2Bits,
    pub state: NetAhoyMoveState,
}

/// The wrap-around distance from `current` forward to `incoming`.
pub open spec fn sequence_offset(incoming: u32, current: u32) -> int {
    if incoming >= current {
        incoming - current
    } else {
        incoming - current + 0x1_0000_0000
    }
}

/// `incoming` lies strictly ahead of `current`, less than half the
/// sequence space away.
pub open spec fn newer_than(incoming: u32, current: u32) -> bool {
    incoming != current && sequence_offset(incoming, current) < SEQUENCE_WINDOW
}

/// The order `sequence_cmp` gives.
pub open spec fn sequence_order(a: u32, b: u32) -> Ordering {
    if a == b {
        Ordering::Equal
    } else if newer_than(a, b) {
        Ordering::Greater
    } else {
        Ordering::Less
    }
}

/// Is `incoming` newer than `current` in the wrapping sequence space?
pub fn sequence_is_newer(incoming: u32, current: u32) -> (newer: bool)
    ensures
        newer == newer_than(incoming, current),
{
    incoming != current && incoming.wrapping_sub(current) < (u32::MAX / 2)
}

/// Three-way comparison of sequence numbers in the wrapping sequence space.
pub fn sequence_cmp(a: u32, b: u32) -> (order: Ordering)
    ensures
        order == sequence_order(a, b),
{
    if a == b {
        Ordering::Equal
    } else if sequence_is_newer(a, b) {
        Ordering::Greater
    } else {
        Ordering::Less
    }
}


/// A sequence number is never newer than itself.
pub proof fn lemma_sequence_not_newer_than_itself(a: u32)
    ensures
        !newer_than(a, a),
{
}

/// "Newer" is asymmetric: of two sequence numbers at most one is newer than
/// the other.
pub proof fn lemma_sequence_newer_asymmetric(a: u32, b: u32)
    requires
        newer_than(a, b),
    ensures
        !newer_than(b, a),
{
}

/// The sequence number `steps` ahead of `a`, wrapping past `u32::MAX`.
pub open spec fn sequence_advanced(a: u32, steps: nat) -> u32 {
    ((a + steps) % 0x1_0000_0000) as u32
}

/// Every sequence number up to the window ahead of `a` (wrapping) is newer
/// than `a`; in particular the next one, `a.wrapping_add(1)`, is.
pub proof fn lemma_sequence_advanced_is_newer(a: u32, steps: nat)
    requires
        1 <= steps < SEQUENCE_WINDOW,
    ensures
        newer_than(sequence_advanced(a, steps), a),
{
    let s = a + steps;
    if s < 0x1_0000_0000 {
        assert(s % 0x1_0000_0000 == s);
    } else {
        assert(s % 0x1_0000_0000 == s - 0x1_0000_0000);
    }
}

/// `sequence_cmp` says `Equal` exactly for equal numbers and `Greater`
/// exactly when the first is newer.
pub proof fn lemma_sequence_cmp_matches_newer(a: u32, b: u32)
    ensures
        (sequence_order(a, b) == Ordering::Equal) <==> a == b,
        (sequence_order(a, b) == Ordering::Greater) <==> newer_than(a, b),
        (sequence_order(a, b) == Ordering::Less) <==> (a != b && !newer_than(a, b)),
{
}

/// `sequence_cmp` is antisymmetric except for pairs that sit about half the
/// sequence space apart (forward distance `SEQUENCE_WINDOW` to
/// `SEQUENCE_WINDOW + 2`), where neither is newer and both orders say `Less`.
pub proof fn lemma_sequence_cmp_antisymmetric(a: u32, b: u32)
    requires
        !(SEQUENCE_WINDOW <= sequence_offset(a, b) <= SEQUENCE_WINDOW + 2),
    ensures
        sequence_order(a, b) == Ordering::Greater <==> sequence_order(b, a) == Ordering::Less,
        sequence_order(a, b) == Ordering::Less <==> sequence_order(b, a) == Ordering::Greater,
        sequence_order(a, b) == Ordering::Equal <==> sequence_order(b, a) == Ordering::Equal,
{
}

/// Among sequence numbers that are all newer than one base, "newer" is the
/// plain order of their distances from the base, so it is a strict total
/// order there.
pub proof fn lemma_sequence_newer_within_window(base: u32, a: u32, b: u32)
    requires
        newer_than(a, base),
        newer_than(b, base),
    ensures
        newer_than(a, b) <==> sequence_offset(a, base) > sequence_offset(b, base),
        a == b <==> sequence_offset(a, base) == sequence_offset(b, base),
{
}

/// Within a window narrower than half the sequence space ahead of a base
/// (the base itself included), "newer" is the plain order of the distances
/// from the base.
pub proof fn lemma_sequence_newer_by_offset(base: u32, a: u32, b: u32)
    requires
        sequence_offset(a, base) < SEQUENCE_WINDOW,
        sequence_offset(b, base) < SEQUENCE_WINDOW,
    ensures
        newer_than(a, b) <==> sequence_offset(a, base) > sequence_offset(b, base),
        a == b <==> sequence_offset(a, base) == sequence_offset(b, base),
{
}

} // verus!
