//! The per-command input rules of a KCC movement step, and the frame the
//! client records after each predicted command.

use vstd::prelude::*;
use crate::protocol::{
    AhoyButtons, AhoyUserCmd, NetAhoyMoveState, Vec2Bits, Vec3Bits, BUTTON_CLIMBDOWN, BUTTON_CRANE,
    BUTTON_CROUCH, BUTTON_JUMP, BUTTON_MANTLE, BUTTON_SWIM_UP, BUTTON_TAC,
};

verus! {

/// Everything the client needs to rewind to (and resimulate from) one
/// predicted command. `controller` is the controller state and accumulated
/// input recorded after the command; the library only stores it.
#[derive(Clone, Debug)]
pub struct AhoyPredictionFrame<L> {
    pub command: AhoyUserCmd,
    pub position: Vec3Bits,
    pub velocity: Vec3Bits,
    pub look: Vec2Bits,
    pub state: NetAhoyMoveState,
    pub controller: L,
}

/// The button-driven part of applying one user command to the controller
/// input: what is held this command, and which actions start because their
/// button went down since the previous command.
#[derive(Clone, Copy, Debug, PartialEq, Eq, Structural)]
pub struct UsercmdButtonInput {
    pub swim_up: bool,
    pub crouched: bool,
    pub jump_pressed: bool,
    pub tac_pressed: bool,
    pub crane_pressed: bool,
    pub mantle_pressed: bool,
    pub climbdown_pressed: bool,
}

/// `bit` is set in `buttons`.
pub open spec fn button_held(buttons: u32, bit: u32) -> bool {
    buttons & bit == bit
}

/// `bit` is set in `buttons` but was not in `previous`: a rising edge.
pub open spec fn button_rising(buttons: u32, previous: u32, bit: u32) -> bool {
    (buttons & !previous) & bit == bit
}

/// The input a command with `buttons` produces after a command with
/// `previous_buttons`.
pub open spec fn usercmd_button_spec(buttons: u32, previous_buttons: u32) -> UsercmdButtonInput {
    UsercmdButtonInput {
        swim_up: button_held(buttons, BUTTON_SWIM_UP),
        crouched: button_held(buttons, BUTTON_CROUCH),
        jump_pressed: button_rising(buttons, previous_buttons, BUTTON_JUMP),
        tac_pressed: button_rising(buttons, previous_buttons, BUTTON_TAC),
        crane_pressed: button_rising(buttons, previous_buttons, BUTTON_CRANE),
        mantle_pressed: button_rising(buttons, previous_buttons, BUTTON_MANTLE),
        climbdown_pressed: button_rising(buttons, previous_buttons, BUTTON_CLIMBDOWN),
    }
}

proof fn lemma_single_bit_tests(x: u32, p: u32)
    by (bit_vector)
    ensures
        (x & 0x02 == 0x02) == (x & 0x02 != 0),
        (x & 0x40 == 0x40) == (x & 0x40 != 0),
        ((x & !p) & 0x01 == 0x01) == (x & 0x01 != 0 && p & 0x01 == 0),
        ((x & !p) & 0x04 == 0x04) == (x & 0x04 != 0 && p & 0x04 == 0),
        ((x & !p) & 0x08 == 0x08) == (x & 0x08 != 0 && p & 0x08 == 0),
        ((x & !p) & 0x10 == 0x10) == (x & 0x10 != 0 && p & 0x10 == 0),
        ((x & !p) & 0x20 == 0x20) == (x & 0x20 != 0 && p & 0x20 == 0),
{
}

/// Each action reads its own button: swim-up and crouch are set exactly
/// when their bit is held; jump, tac, crane, mantle and climb-down start
/// exactly when their bit is held now and was not on the previous command.
pub proof fn lemma_usercmd_buttons_follow_their_bits(buttons: u32, previous_buttons: u32)
    ensures
        usercmd_button_spec(buttons, previous_buttons).swim_up == (buttons & BUTTON_SWIM_UP != 0),
        usercmd_button_spec(buttons, previous_buttons).crouched == (buttons & BUTTON_CROUCH != 0),
        usercmd_button_spec(buttons, previous_buttons).jump_pressed == (buttons & BUTTON_JUMP != 0
            && previous_buttons & BUTTON_JUMP == 0),
        usercmd_button_spec(buttons, previous_buttons).tac_pressed == (buttons & BUTTON_TAC != 0
            && previous_buttons & BUTTON_TAC == 0),
        usercmd_button_spec(buttons, previous_buttons).crane_pressed == (buttons & BUTTON_CRANE != 0
            && previous_buttons & BUTTON_CRANE == 0),
        usercmd_button_spec(buttons, previous_buttons).mantle_pressed == (buttons & BUTTON_MANTLE
            != 0 && previous_buttons & BUTTON_MANTLE == 0),
        usercmd_button_spec(buttons, previous_buttons).climbdown_pressed == (buttons
            & BUTTON_CLIMBDOWN != 0 && previous_buttons & BUTTON_CLIMBDOWN == 0),
{
    lemma_single_bit_tests(buttons, previous_buttons);
}

/// Reads a command's buttons the way the movement step does: swim-up and
/// crouch while held, the other actions on their rising edge.
pub fn usercmd_button_input(buttons: AhoyButtons, previous_buttons: AhoyButtons) -> (input:
    UsercmdButtonInput)
    ensures
        input == usercmd_button_spec(buttons.bits, previous_buttons.bits),
        input.swim_up == (buttons.bits & BUTTON_SWIM_UP != 0),
        input.crouched == (buttons.bits & BUTTON_CROUCH != 0),
        input.jump_pressed == (buttons.bits & BUTTON_JUMP != 0 && previous_buttons.bits
            & BUTTON_JUMP == 0),
        input.tac_pressed == (buttons.bits & BUTTON_TAC != 0 && previous_buttons.bits & BUTTON_TAC
            == 0),
        input.crane_pressed == (buttons.bits & BUTTON_CRANE != 0 && previous_buttons.bits
            & BUTTON_CRANE == 0),
        input.mantle_pressed == (buttons.bits & BUTTON_MANTLE != 0 && previous_buttons.bits
            & BUTTON_MANTLE == 0),
        input.climbdown_pressed == (buttons.bits & BUTTON_CLIMBDOWN != 0 && previous_buttons.bits
            & BUTTON_CLIMBDOWN == 0),
{
    proof {
        lemma_usercmd_buttons_follow_their_bits(buttons.bits, previous_buttons.bits);
    }
    let pressed = buttons.difference(previous_buttons);
    UsercmdButtonInput {
        swim_up: buttons.contains(AhoyButtons::from_bits_retain(BUTTON_SWIM_UP)),
        crouched: buttons.contains(AhoyButtons::from_bits_retain(BUTTON_CROUCH)),
        jump_pressed: pressed.contains(AhoyButtons::from_bits_retain(BUTTON_JUMP)),
        tac_pressed: pressed.contains(AhoyButtons::from_bits_retain(BUTTON_TAC)),
        crane_pressed: pressed.contains(AhoyButtons::from_bits_retain(BUTTON_CRANE)),
        mantle_pressed: pressed.contains(AhoyButtons::from_bits_retain(BUTTON_MANTLE)),
        climbdown_pressed: pressed.contains(AhoyButtons::from_bits_retain(BUTTON_CLIMBDOWN)),
    }
}

proof fn lemma_library_bits_decide(a1: u32, a2: u32, p1: u32, p2: u32)
    by (bit_vector)
    requires
        a1 & 0xffff == a2 & 0xffff,
        p1 & 0xffff == p2 & 0xffff,
    ensures
        (a1 & 0x02 == 0x02) == (a2 & 0x02 == 0x02),
        (a1 & 0x40 == 0x40) == (a2 & 0x40 == 0x40),
        ((a1 & !p1) & 0x01 == 0x01) == ((a2 & !p2) & 0x01 == 0x01),
        ((a1 & !p1) & 0x04 == 0x04) == ((a2 & !p2) & 0x04 == 0x04),
        ((a1 & !p1) & 0x08 == 0x08) == ((a2 & !p2) & 0x08 == 0x08),
        ((a1 & !p1) & 0x10 == 0x10) == ((a2 & !p2) & 0x10 == 0x10),
        ((a1 & !p1) & 0x20 == 0x20) == ((a2 & !p2) & 0x20 == 0x20),
{
}

/// Game-defined button bits (16 and up) never change what a command does to
/// the movement input: commands that agree on the library bits, after
/// previous commands that agree on them, produce the same input.
pub proof fn lemma_game_bits_do_not_move(
    buttons_a: AhoyButtons,
    buttons_b: AhoyButtons,
    previous_a: AhoyButtons,
    previous_b: AhoyButtons,
)
    requires
        buttons_a.library_part() == buttons_b.library_part(),
        previous_a.library_part() == previous_b.library_part(),
    ensures
        usercmd_button_spec(buttons_a.bits, previous_a.bits) == usercmd_button_spec(
            buttons_b.bits,
            previous_b.bits,
        ),
{
    lemma_library_bits_decide(buttons_a.bits, buttons_b.bits, previous_a.bits, previous_b.bits);
}

} // verus!
