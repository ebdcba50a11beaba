use std::cmp::Ordering;

use bevy_netahoy::pmove::{usercmd_button_input, UsercmdButtonInput};
use bevy_netahoy::protocol::{
    sequence_cmp, sequence_is_newer, AhoyButtons, BUTTON_CLIMBDOWN, BUTTON_CRANE, BUTTON_CROUCH,
    BUTTON_JUMP, BUTTON_MANTLE, BUTTON_SWIM_UP, BUTTON_TAC,
};

#[test]
fn newer_simple_order() {
    assert!(sequence_is_newer(2, 1));
    assert!(!sequence_is_newer(1, 2));
    assert!(!sequence_is_newer(7, 7));
}

#[test]
fn newer_across_wrap() {
    assert!(sequence_is_newer(0, u32::MAX));
    assert!(sequence_is_newer(5, u32::MAX - 5));
    assert!(!sequence_is_newer(u32::MAX, 0));
}

#[test]
fn newer_window_edge() {
    // Distance u32::MAX / 2 - 1 is still newer; u32::MAX / 2 is not.
    assert!(sequence_is_newer(2_147_483_646, 0));
    assert!(!sequence_is_newer(2_147_483_647, 0));
    assert!(!sequence_is_newer(0, 2_147_483_647));
}

#[test]
fn cmp_matches_newer() {
    assert_eq!(sequence_cmp(10, 10), Ordering::Equal);
    assert_eq!(sequence_cmp(11, 10), Ordering::Greater);
    assert_eq!(sequence_cmp(10, 11), Ordering::Less);
    assert_eq!(sequence_cmp(0, u32::MAX), Ordering::Greater);
    assert_eq!(sequence_cmp(u32::MAX, 0), Ordering::Less);
}

#[test]
fn cmp_half_space_apart_is_less_both_ways() {
    assert_eq!(sequence_cmp(2_147_483_647, 0), Ordering::Less);
    assert_eq!(sequence_cmp(0, 2_147_483_647), Ordering::Less);
    assert_eq!(sequence_cmp(2_147_483_648, 0), Ordering::Less);
    assert_eq!(sequence_cmp(0, 2_147_483_648), Ordering::Less);
}

#[test]
fn buttons_contains_and_difference() {
    let held = AhoyButtons::from_bits_retain(BUTTON_JUMP | BUTTON_CROUCH | 0x1_0000);
    assert!(held.contains(AhoyButtons::from_bits_retain(BUTTON_JUMP)));
    assert!(held.contains(AhoyButtons::from_bits_retain(0x1_0000)));
    assert!(!held.contains(AhoyButtons::from_bits_retain(BUTTON_TAC)));
    let previous = AhoyButtons::from_bits_retain(BUTTON_CROUCH);
    assert_eq!(held.difference(previous).bits(), BUTTON_JUMP | 0x1_0000);
    assert_eq!(AhoyButtons::empty().bits(), 0);
}

#[test]
fn usercmd_held_and_rising_edges() {
    let buttons = AhoyButtons::from_bits_retain(BUTTON_JUMP | BUTTON_SWIM_UP | BUTTON_CROUCH | BUTTON_TAC);
    let previous = AhoyButtons::from_bits_retain(BUTTON_JUMP | BUTTON_CROUCH);
    let input = usercmd_button_input(buttons, previous);
    assert_eq!(
        input,
        UsercmdButtonInput {
            swim_up: true,
            crouched: true,
            jump_pressed: false,
            tac_pressed: true,
            crane_pressed: false,
            mantle_pressed: false,
            climbdown_pressed: false,
        }
    );
}

#[test]
fn usercmd_all_edges_from_nothing() {
    let all = BUTTON_JUMP | BUTTON_TAC | BUTTON_CRANE | BUTTON_MANTLE | BUTTON_CLIMBDOWN;
    let input = usercmd_button_input(AhoyButtons::from_bits_retain(all), AhoyButtons::empty());
    assert!(input.jump_pressed && input.tac_pressed && input.crane_pressed);
    assert!(input.mantle_pressed && input.climbdown_pressed);
    assert!(!input.swim_up && !input.crouched);
}

#[test]
fn game_bits_do_not_change_movement_input() {
    let library = BUTTON_JUMP | BUTTON_CROUCH;
    let a = usercmd_button_input(AhoyButtons::from_bits_retain(library), AhoyButtons::empty());
    let b = usercmd_button_input(
        AhoyButtons::from_bits_retain(library | 0xABCD_0000),
        AhoyButtons::from_bits_retain(0x0101_0000),
    );
    assert_eq!(a, b);
}
