//! Tests of the input encodings.
use ssh_broker::vtinput::{encode_key_event, win_size, KeyEvent, MouseEncoder, MouseEvent};

fn key(vk: u16, sc: u16, uc: u16, down: bool, cks: u32) -> KeyEvent {
    KeyEvent {
        virtual_key_code: vk,
        virtual_scan_code: sc,
        unicode_char: uc,
        key_down: down,
        control_key_state: cks,
        repeat_count: 1,
    }
}

#[test]
fn encodes_a_plain_letter_keydown() {
    // 'a' down: vk=0x41, sc=0x1E, uc=0x61, Kd=1, Cs=0, Rc=1
    let k = key(0x41, 0x1E, 0x61, true, 0);
    assert_eq!(encode_key_event(&k), b"\x1b[65;30;97;1;0;1_");
}

#[test]
fn forwards_key_up_with_kd_zero() {
    let k = key(0x41, 0x1E, 0x61, false, 0);
    assert_eq!(encode_key_event(&k), b"\x1b[65;30;97;0;0;1_");
}

#[test]
fn encodes_ctrl_c() {
    let k = key(0x43, 0x2E, 0x03, true, 0x0008);
    assert_eq!(encode_key_event(&k), b"\x1b[67;46;3;1;8;1_");
}

#[test]
fn encodes_repeat_count() {
    let mut k = key(0x41, 0x1E, 0x61, true, 0);
    k.repeat_count = 5;
    assert_eq!(encode_key_event(&k), b"\x1b[65;30;97;1;0;5_");
}

#[test]
fn encodes_the_largest_fields() {
    let mut k = key(u16::MAX, u16::MAX, u16::MAX, true, u32::MAX);
    k.repeat_count = u16::MAX;
    assert_eq!(
        encode_key_event(&k),
        b"\x1b[65535;65535;65535;1;4294967295;65535_"
    );
}

#[test]
fn win_size_computes_inclusive_dimensions() {
    assert_eq!(win_size(0, 0, 119, 39), (120, 40));
    assert_eq!(win_size(10, 5, 89, 29), (80, 25));
}

#[test]
fn win_size_clamps_to_at_least_one() {
    assert_eq!(win_size(5, 5, 5, 5), (1, 1)); // single cell
    assert_eq!(win_size(0, 0, -5, -5), (1, 1)); // degenerate/negative
    assert_eq!(win_size(i16::MIN, i16::MAX, i16::MAX, i16::MIN), (u16::MAX, 1));
}

const LEFT: u32 = 0x0001; // FROM_LEFT_1ST_BUTTON_PRESSED
const RIGHT: u32 = 0x0002; // RIGHTMOST_BUTTON_PRESSED
const MIDDLE: u32 = 0x0004; // FROM_LEFT_2ND_BUTTON_PRESSED
const MOUSE_MOVED: u32 = 0x0001;
const MOUSE_WHEELED: u32 = 0x0004;
const MOUSE_HWHEELED: u32 = 0x0008;

fn mev(x: i16, y: i16, buttons: u32, flags: u32, cks: u32) -> MouseEvent {
    MouseEvent {
        x,
        y,
        button_state: buttons,
        control_key_state: cks,
        event_flags: flags,
    }
}

#[test]
fn mouse_left_press_then_release() {
    let mut enc = MouseEncoder::default();
    // Press left at (0,0): SGR button 0, coords 1-based, press = 'M'.
    assert_eq!(enc.encode_sgr(&mev(0, 0, LEFT, 0, 0)), b"\x1b[<0;1;1M");
    // Release (button cleared) at the same cell: same button code, release = 'm'.
    assert_eq!(enc.encode_sgr(&mev(0, 0, 0, 0, 0)), b"\x1b[<0;1;1m");
}

#[test]
fn mouse_right_and_middle_button_codes() {
    let mut enc = MouseEncoder::default();
    assert_eq!(enc.encode_sgr(&mev(9, 4, RIGHT, 0, 0)), b"\x1b[<2;10;5M");
    let mut enc2 = MouseEncoder::default();
    assert_eq!(enc2.encode_sgr(&mev(0, 0, MIDDLE, 0, 0)), b"\x1b[<1;1;1M");
}

#[test]
fn mouse_wheel_up_and_down() {
    let mut enc = MouseEncoder::default();
    // Wheel delta is the signed high word of dwButtonState.
    let up = mev(2, 3, (120u32) << 16, MOUSE_WHEELED, 0);
    assert_eq!(enc.encode_sgr(&up), b"\x1b[<64;3;4M");
    let down = mev(2, 3, ((-120i16) as u16 as u32) << 16, MOUSE_WHEELED, 0);
    assert_eq!(enc.encode_sgr(&down), b"\x1b[<65;3;4M");
}

#[test]
fn mouse_horizontal_wheel() {
    let mut enc = MouseEncoder::default();
    let right = mev(0, 0, (120u32) << 16, MOUSE_HWHEELED, 0);
    assert_eq!(enc.encode_sgr(&right), b"\x1b[<66;1;1M");
    let left = mev(0, 0, ((-120i16) as u16 as u32) << 16, MOUSE_HWHEELED, 0);
    assert_eq!(enc.encode_sgr(&left), b"\x1b[<67;1;1M");
}

#[test]
fn mouse_drag_sets_motion_bit() {
    let mut enc = MouseEncoder::default();
    enc.encode_sgr(&mev(0, 0, LEFT, 0, 0)); // press left
    // Move while left held: motion flag (+32) with the held button (left=0).
    assert_eq!(enc.encode_sgr(&mev(1, 0, LEFT, MOUSE_MOVED, 0)), b"\x1b[<32;2;1M");
}

#[test]
fn mouse_drag_carries_an_extra_button() {
    let drag = |buttons: u32| {
        let e = MouseEvent {
            x: 0,
            y: 0,
            button_state: buttons,
            control_key_state: 0,
            event_flags: 0x0001,
        };
        MouseEncoder::default().encode_sgr(&e)
    };
    assert_eq!(drag(0x0008), b"\x1b[<160;1;1M");
    assert_eq!(drag(0x0010), b"\x1b[<161;1;1M");
    assert_eq!(drag(0x0018), b"\x1b[<160;1;1M");
    assert_eq!(drag(0x001a), b"\x1b[<34;1;1M", "the lowest-numbered button counts");
    assert_eq!(drag(0x0000), b"\x1b[<35;1;1M");
}

#[test]
fn mouse_bare_motion_uses_button_3() {
    let mut enc = MouseEncoder::default();
    // Move with no button held: 32 + 3 = 35.
    assert_eq!(enc.encode_sgr(&mev(4, 4, 0, MOUSE_MOVED, 0)), b"\x1b[<35;5;5M");
}

#[test]
fn mouse_reset_drops_held_state() {
    let mut enc = MouseEncoder::default();
    enc.encode_sgr(&mev(0, 0, LEFT, 0, 0)); // press left
    enc.reset(); // gated-off period: forget the held button
    // A release event now diffs against a clean state: no spurious 'm'.
    assert_eq!(enc.encode_sgr(&mev(0, 0, 0, 0, 0)), b"");
    // A fresh press after reset still encodes correctly.
    assert_eq!(enc.encode_sgr(&mev(0, 0, LEFT, 0, 0)), b"\x1b[<0;1;1M");
}

#[test]
fn mouse_modifiers_are_added_to_button_code() {
    const SHIFT_PRESSED: u32 = 0x0010;
    const LEFT_CTRL_PRESSED: u32 = 0x0008;
    let mut enc = MouseEncoder::default();
    // ctrl(+16) + shift(+4) + left(0) = 20.
    let e = mev(0, 0, LEFT, 0, SHIFT_PRESSED | LEFT_CTRL_PRESSED);
    assert_eq!(enc.encode_sgr(&e), b"\x1b[<20;1;1M");
}

#[test]
fn mouse_changes_of_several_buttons_are_reported_one_by_one() {
    let mut enc = MouseEncoder::default();
    assert_eq!(
        enc.encode_sgr(&mev(-3, 7, LEFT | MIDDLE | 0x18, 0, 0x0001)),
        b"\x1b[<8;1;8M\x1b[<9;1;8M\x1b[<136;1;8M\x1b[<137;1;8M"
    );
    assert_eq!(
        enc.encode_sgr(&mev(0, 0, RIGHT | 0x18, 0, 0)),
        b"\x1b[<0;1;1m\x1b[<1;1;1m\x1b[<2;1;1M"
    );
}
