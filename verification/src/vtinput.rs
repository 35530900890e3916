//! vtinput: console input events as terminal input sequences.
//!
//! Keystrokes go to the agent as win32-input-mode sequences `ESC [ Vk ; Sc ; Uc ; Kd ; Cs ; Rc _`
//! and mouse events as SGR (1006) reports. The events have plain integer fields.

use vstd::prelude::*;
use crate::text::{dec_bytes, push_dec_bytes};

verus! {

/// A keyboard event: the fields of a console key record that matter.
#[derive(Debug, Clone, Copy, PartialEq, Eq, Structural)]
pub struct KeyEvent {
    pub virtual_key_code: u16,
    pub virtual_scan_code: u16,
    pub unicode_char: u16,
    pub key_down: bool,
    pub control_key_state: u32,
    pub repeat_count: u16,
}

/// The win32-input-mode sequence of a key event.
pub open spec fn key_bytes(k: KeyEvent) -> Seq<u8> {
    seq![0x1bu8, 0x5b] + dec_bytes(k.virtual_key_code as nat) + seq![0x3bu8] + dec_bytes(
        k.virtual_scan_code as nat,
    ) + seq![0x3bu8] + dec_bytes(k.unicode_char as nat) + seq![0x3bu8] + dec_bytes(
        if k.key_down {
            1
        } else {
            0
        },
    ) + seq![0x3bu8] + dec_bytes(k.control_key_state as nat) + seq![0x3bu8] + dec_bytes(
        k.repeat_count as nat,
    ) + seq![0x5fu8]
}

/// Encode a key event as a win32-input-mode sequence. Both key-down and key-up are forwarded;
/// `Kd` is 1 or 0.
pub fn encode_key_event(k: &KeyEvent) -> (out: Vec<u8>)
    ensures
        out@ == key_bytes(*k),
{
    let mut out: Vec<u8> = Vec::new();
    out.push(0x1b);
    out.push(0x5b);
    push_dec_bytes(&mut out, k.virtual_key_code as u32);
    out.push(0x3b);
    push_dec_bytes(&mut out, k.virtual_scan_code as u32);
    out.push(0x3b);
    push_dec_bytes(&mut out, k.unicode_char as u32);
    out.push(0x3b);
    push_dec_bytes(
        &mut out,
        if k.key_down {
            1
        } else {
            0
        },
    );
    out.push(0x3b);
    push_dec_bytes(&mut out, k.control_key_state);
    out.push(0x3b);
    push_dec_bytes(&mut out, k.repeat_count as u32);
    out.push(0x5f);
    assert(out@ =~= key_bytes(*k));
    out
}

/// The length of an inclusive range of cells: at least 1, and at most what a size can hold.
pub open spec fn extent(first: i16, last: i16) -> int {
    let n = last - first + 1;
    if n < 1 {
        1
    } else if n > u16::MAX {
        u16::MAX as int
    } else {
        n
    }
}

fn clamp_extent(first: i16, last: i16) -> (n: u16)
    ensures
        n == extent(first, last),
{
    let n: i32 = last as i32 - first as i32 + 1;
    if n < 1 {
        1
    } else if n > 65535 {
        65535
    } else {
        n as u16
    }
}

/// Window size (columns, rows) from a console window rectangle, whose edges are inclusive: the
/// visible window, each dimension at least 1.
pub fn win_size(left: i16, top: i16, right: i16, bottom: i16) -> (size: (u16, u16))
    ensures
        size.0 == extent(left, right),
        size.1 == extent(top, bottom),
{
    (clamp_extent(left, right), clamp_extent(top, bottom))
}

/// A mouse event: the fields of a console mouse record that matter. `x` and `y` are 0-based
/// cells.
#[derive(Debug, Clone, Copy, PartialEq, Eq, Structural)]
pub struct MouseEvent {
    pub x: i16,
    pub y: i16,
    /// Low word: buttons currently down; high word: wheel delta.
    pub button_state: u32,
    pub control_key_state: u32,
    pub event_flags: u32,
}

// Event flags.

const MOUSE_MOVED: u32 = 0x0001;

const MOUSE_HWHEELED: u32 = 0x0008;

/// Vertical or horizontal wheel.
const ANY_WHEEL: u32 = 0x000c;

// Buttons.

const BTN_LEFT: u32 = 0x0001;

const BTN_RIGHT: u32 = 0x0002;

const BTN_MIDDLE: u32 = 0x0004;

const BTN_X1: u32 = 0x0008;

const BTN_X2: u32 = 0x0010;

// Modifier keys; each of alt and ctrl has a left and a right one.

const SHIFT_PRESSED: u32 = 0x0010;

const ALT_PRESSED: u32 = 0x0003;

const CTRL_PRESSED: u32 = 0x000c;

/// Whether any of the bits of a mask is set.
pub open spec fn any_bit(bits: u32, mask: u32) -> bool {
    bits & mask != 0
}

/// The SGR modifier bits: shift 4, alt 8, ctrl 16.
pub open spec fn modifiers(cks: u32) -> nat {
    (if any_bit(cks, 0x0010) {
        4nat
    } else {
        0
    }) + (if any_bit(cks, 0x0003) {
        8nat
    } else {
        0
    }) + (if any_bit(cks, 0x000c) {
        16nat
    } else {
        0
    })
}

fn sgr_modifiers(cks: u32) -> (m: u32)
    ensures
        m == modifiers(cks),
        m <= 28,
{
    let mut m: u32 = 0;
    if cks & SHIFT_PRESSED != 0 {
        m += 4;
    }
    if cks & ALT_PRESSED != 0 {
        m += 8;
    }
    if cks & CTRL_PRESSED != 0 {
        m += 16;
    }
    m
}

/// A 0-based cell as a 1-based coordinate, at least 1.
pub open spec fn coordinate(c: i16) -> nat {
    if c < 0 {
        1
    } else {
        (c + 1) as nat
    }
}

fn to_coordinate(c: i16) -> (n: u32)
    ensures
        n == coordinate(c),
{
    if c < 0 {
        1
    } else {
        (c as i32 + 1) as u32
    }
}

/// One SGR report; `M` is a press, a motion or the wheel, `m` a release.
pub open spec fn report(cb: nat, cx: nat, cy: nat, press: bool) -> Seq<u8> {
    seq![0x1bu8, 0x5b, 0x3c] + dec_bytes(cb) + seq![0x3bu8] + dec_bytes(cx) + seq![0x3bu8]
        + dec_bytes(cy) + seq![
        if press {
            0x4du8
        } else {
            0x6du8
        },
    ]
}

fn sgr_report(out: &mut Vec<u8>, cb: u32, cx: u32, cy: u32, press: bool)
    ensures
        final(out)@ == old(out)@ + report(cb as nat, cx as nat, cy as nat, press),
{
    out.push(0x1b);
    out.push(0x5b);
    out.push(0x3c);
    push_dec_bytes(out, cb);
    out.push(0x3b);
    push_dec_bytes(out, cx);
    out.push(0x3b);
    push_dec_bytes(out, cy);
    out.push(
        if press {
            0x4d
        } else {
            0x6d
        },
    );
    assert(out@ =~= old(out)@ + report(cb as nat, cx as nat, cy as nat, press));
}

/// The code of a wheel report. The delta is the signed high word of the button state.
pub open spec fn wheel_code(e: MouseEvent) -> nat {
    let high = e.button_state / 0x10000;
    let forward = 0 < high < 0x8000;
    if any_bit(e.event_flags, 0x0008) {
        if forward {
            66
        } else {
            67
        }
    } else if forward {
        64
    } else {
        65
    }
}

/// The code of the held button in a motion report: that of the lowest-numbered one, and 3 when
/// none is held.
pub open spec fn held_code(buttons: u32) -> nat {
    if any_bit(buttons, 0x0001) {
        0
    } else if any_bit(buttons, 0x0004) {
        1
    } else if any_bit(buttons, 0x0002) {
        2
    } else if any_bit(buttons, 0x0008) {
        128
    } else if any_bit(buttons, 0x0010) {
        129
    } else {
        3
    }
}

/// The code of the lowest-numbered held button, if any.
fn held_button(buttons: u32) -> (code: Option<u32>)
    ensures
        code == if held_code(buttons) == 3 {
            None
        } else {
            Some(held_code(buttons) as u32)
        },
{
    if buttons & BTN_LEFT != 0 {
        Some(0)
    } else if buttons & BTN_MIDDLE != 0 {
        Some(1)
    } else if buttons & BTN_RIGHT != 0 {
        Some(2)
    } else if buttons & BTN_X1 != 0 {
        Some(128)
    } else if buttons & BTN_X2 != 0 {
        Some(129)
    } else {
        None
    }
}

/// The report of one button, if it went down or up.
pub open spec fn transition(before: u32, e: MouseEvent, mask: u32, code: nat) -> Seq<u8> {
    if any_bit(before, mask) != any_bit(e.button_state, mask) {
        report(
            code + modifiers(e.control_key_state),
            coordinate(e.x),
            coordinate(e.y),
            any_bit(e.button_state, mask),
        )
    } else {
        Seq::empty()
    }
}

/// What a mouse event is reported as, given the buttons that were held before it.
pub open spec fn mouse_bytes(before: u32, e: MouseEvent) -> Seq<u8> {
    let mods = modifiers(e.control_key_state);
    if any_bit(e.event_flags, 0x000c) {
        report(wheel_code(e) + mods, coordinate(e.x), coordinate(e.y), true)
    } else if any_bit(e.event_flags, 0x0001) {
        report(held_code(e.button_state) + 32 + mods, coordinate(e.x), coordinate(e.y), true)
    } else {
        transition(before, e, 0x0001, 0) + transition(before, e, 0x0004, 1) + transition(
            before,
            e,
            0x0002,
            2,
        ) + transition(before, e, 0x0008, 128) + transition(before, e, 0x0010, 129)
    }
}

/// The buttons that count as held after a mouse event: the wheel and motion do not change them.
pub open spec fn buttons_after(before: u32, e: MouseEvent) -> u32 {
    if any_bit(e.event_flags, 0x000c) || any_bit(e.event_flags, 0x0001) {
        before
    } else {
        e.button_state
    }
}

/// Encodes console mouse events as SGR (1006) mouse reports. The console reports the set of
/// buttons currently held, but SGR needs presses and releases, so the previous set is kept.
#[derive(Debug)]
pub struct MouseEncoder {
    prev_buttons: u32,
}

impl View for MouseEncoder {
    type V = u32;

    /// The buttons that count as held.
    closed spec fn view(&self) -> u32 {
        self.prev_buttons
    }
}

impl Default for MouseEncoder {
    fn default() -> (m: Self)
        ensures
            m@ == 0,
    {
        MouseEncoder { prev_buttons: 0 }
    }
}

impl MouseEncoder {
    /// Forget the held buttons. Called while mouse forwarding is off, so that the next event is
    /// compared with a clean state when the shell turns tracking on: no release is reported for
    /// a button whose press was never forwarded.
    pub fn reset(&mut self)
        ensures
            final(self)@ == 0,
    {
        self.prev_buttons = 0;
    }

    /// Encode one console mouse event as zero or more SGR reports
    /// (`ESC [ < Cb ; Cx ; Cy (M|m)`). Empty when the event carries no reportable change.
    pub fn encode_sgr(&mut self, e: &MouseEvent) -> (out: Vec<u8>)
        ensures
            out@ == mouse_bytes(old(self)@, *e),
            final(self)@ == buttons_after(old(self)@, *e),
    {
        let cx: u32 = to_coordinate(e.x);
        let cy: u32 = to_coordinate(e.y);
        let mods: u32 = sgr_modifiers(e.control_key_state);
        let mut out: Vec<u8> = Vec::new();
        let ghost none = out@;
        if e.event_flags & ANY_WHEEL != 0 {
            // The wheel does not change the button state.
            let high: u32 = e.button_state / 0x10000;
            let forward: bool = 0 < high && high < 0x8000;
            let base: u32 = if e.event_flags & MOUSE_HWHEELED != 0 {
                if forward {
                    66
                } else {
                    67
                }
            } else if forward {
                64
            } else {
                65
            };
            sgr_report(&mut out, base + mods, cx, cy, true);
            assert(out@ =~= mouse_bytes(old(self)@, *e));
            return out;
        }
        if e.event_flags & MOUSE_MOVED != 0 {
            let btn: u32 = match held_button(e.button_state) {
                Some(code) => code,
                None => 3,
            };
            sgr_report(&mut out, btn + 32 + mods, cx, cy, true);
            assert(out@ =~= mouse_bytes(old(self)@, *e));
            return out;
        }
        let before: u32 = self.prev_buttons;
        self.prev_buttons = e.button_state;
        push_transition(&mut out, before, e, BTN_LEFT, 0);
        push_transition(&mut out, before, e, BTN_MIDDLE, 1);
        push_transition(&mut out, before, e, BTN_RIGHT, 2);
        push_transition(&mut out, before, e, BTN_X1, 128);
        push_transition(&mut out, before, e, BTN_X2, 129);
        assert(out@ =~= mouse_bytes(before, *e));
        out
    }
}

/// Report one button, if it went down or up.
fn push_transition(out: &mut Vec<u8>, before: u32, e: &MouseEvent, mask: u32, code: u32)
    requires
        code <= 129,
    ensures
        final(out)@ == old(out)@ + transition(before, *e, mask, code as nat),
{
    let pressed: bool = e.button_state & mask != 0;
    if (before & mask != 0) != pressed {
        let mods: u32 = sgr_modifiers(e.control_key_state);
        sgr_report(out, code + mods, to_coordinate(e.x), to_coordinate(e.y), pressed);
    } else {
        assert(out@ =~= old(out)@ + transition(before, *e, mask, code as nat));
    }
}

// Laws.

/// An event that changes no button is not reported.
pub proof fn law_unchanged_buttons_are_silent(e: MouseEvent)
    requires
        !any_bit(e.event_flags, 0x000c),
        !any_bit(e.event_flags, 0x0001),
    ensures
        mouse_bytes(e.button_state, e) == Seq::<u8>::empty(),
{
    assert(mouse_bytes(e.button_state, e) =~= Seq::<u8>::empty());
}

/// After a reset nothing is released: an event with no button down is silent.
pub proof fn law_no_release_after_reset(e: MouseEvent)
    requires
        !any_bit(e.event_flags, 0x000c),
        !any_bit(e.event_flags, 0x0001),
        e.button_state == 0,
    ensures
        mouse_bytes(0, e) == Seq::<u8>::empty(),
{
    law_unchanged_buttons_are_silent(e);
}

/// The wheel and motion leave the held buttons as they were, and every such event is reported.
pub proof fn law_wheel_and_motion_keep_buttons(before: u32, e: MouseEvent)
    requires
        any_bit(e.event_flags, 0x000c) || any_bit(e.event_flags, 0x0001),
    ensures
        buttons_after(before, e) == before,
        mouse_bytes(before, e).len() > 0,
{
}

/// A button that goes down and up again is reported as a press and then a release with the same
/// code at the same place.
pub proof fn law_press_is_followed_by_its_release(before: u32, down: MouseEvent, up: MouseEvent, mask: u32, code: nat)
    requires
        !any_bit(before, mask),
        any_bit(down.button_state, mask),
        !any_bit(up.button_state, mask),
        up.x == down.x,
        up.y == down.y,
        up.control_key_state == down.control_key_state,
    ensures
        ({
            let cb = code + modifiers(down.control_key_state);
            let cx = coordinate(down.x);
            let cy = coordinate(down.y);
            &&& transition(before, down, mask, code) == report(cb, cx, cy, true)
            &&& transition(down.button_state, up, mask, code) == report(cb, cx, cy, false)
        }),
{
}

// Reading the sequences, as the program at the other end does.

/// Where the run of digits that goes on at `i` ends.
pub open spec fn digits_end(s: Seq<u8>, i: int) -> int
    decreases s.len() - i,
{
    if i < s.len() && 0x30 <= s[i] <= 0x39 {
        digits_end(s, i + 1)
    } else {
        i
    }
}

/// The number that digits stand for.
pub open spec fn digits_value(d: Seq<u8>) -> nat
    decreases d.len(),
{
    if d.len() == 0 {
        0
    } else {
        (10 * digits_value(d.drop_last()) + (d.last() - 0x30)) as nat
    }
}

/// The number at the front of a text and what stands behind it; `None` where there is none.
pub open spec fn read_number(s: Seq<u8>) -> Option<(nat, Seq<u8>)> {
    let n = digits_end(s, 0);
    if n == 0 {
        None
    } else {
        Some((digits_value(s.take(n)), s.skip(n)))
    }
}

/// Numbers with a `;` between each two, as many as `k`, and the text behind the last of them.
pub open spec fn read_numbers(s: Seq<u8>, k: nat) -> Option<(Seq<nat>, Seq<u8>)>
    decreases k,
{
    if k == 0 {
        Some((Seq::empty(), s))
    } else {
        match read_number(s) {
            None => None,
            Some((n, rest)) => if k == 1 {
                Some((seq![n], rest))
            } else if rest.len() == 0 || rest[0] != 0x3b {
                None
            } else {
                match read_numbers(rest.skip(1), (k - 1) as nat) {
                    None => None,
                    Some((more, tail)) => Some((seq![n] + more, tail)),
                }
            },
        }
    }
}

proof fn lemma_digits(n: nat)
    ensures
        dec_bytes(n).len() > 0,
        forall|i: int| 0 <= i < dec_bytes(n).len() ==> 0x30 <= #[trigger] dec_bytes(n)[i] <= 0x39,
        digits_value(dec_bytes(n)) == n,
    decreases n,
{
    let d = dec_bytes(n);
    if n < 10 {
        assert(d.drop_last() =~= Seq::<u8>::empty());
        assert(digits_value(d.drop_last()) == 0);
    } else {
        lemma_digits(n / 10);
        assert(d.drop_last() =~= dec_bytes(n / 10));
    }
}

proof fn lemma_digits_end(s: Seq<u8>, i: int, n: int)
    requires
        0 <= i <= n <= s.len(),
        forall|j: int| i <= j < n ==> 0x30 <= #[trigger] s[j] <= 0x39,
        n < s.len() ==> !(0x30 <= s[n] <= 0x39),
    ensures
        digits_end(s, i) == n,
    decreases n - i,
{
    if i < n {
        assert(0x30 <= s[i] <= 0x39);
        lemma_digits_end(s, i + 1, n);
    }
}

/// A number in front of something that is no digit reads back as itself.
proof fn lemma_read_number(n: nat, rest: Seq<u8>)
    requires
        rest.len() > 0,
        !(0x30 <= rest[0] <= 0x39),
    ensures
        read_number(dec_bytes(n) + rest) == Some((n, rest)),
{
    let d = dec_bytes(n);
    let s = d + rest;
    lemma_digits(n);
    assert forall|j: int| 0 <= j < d.len() implies 0x30 <= #[trigger] s[j] <= 0x39 by {
        assert(s[j] == d[j]);
    }
    assert(s[d.len() as int] == rest[0]);
    lemma_digits_end(s, 0, d.len() as int);
    assert(s.take(d.len() as int) =~= d);
    assert(s.skip(d.len() as int) =~= rest);
}

/// Numbers as they are written: with a `;` between each two.
pub open spec fn number_list(ns: Seq<nat>) -> Seq<u8>
    decreases ns.len(),
{
    if ns.len() == 0 {
        Seq::empty()
    } else if ns.len() == 1 {
        dec_bytes(ns[0])
    } else {
        dec_bytes(ns[0]) + seq![0x3bu8] + number_list(ns.skip(1))
    }
}

proof fn lemma_read_numbers(ns: Seq<nat>, rest: Seq<u8>)
    requires
        ns.len() > 0,
        rest.len() > 0,
        !(0x30 <= rest[0] <= 0x39),
    ensures
        read_numbers(number_list(ns) + rest, ns.len()) == Some((ns, rest)),
    decreases ns.len(),
{
    if ns.len() == 1 {
        lemma_read_number(ns[0], rest);
        assert(seq![ns[0]] =~= ns);
    } else {
        let more = ns.skip(1);
        let tail = seq![0x3bu8] + (number_list(more) + rest);
        lemma_read_numbers(more, rest);
        lemma_read_number(ns[0], tail);
        assert(number_list(ns) + rest =~= dec_bytes(ns[0]) + tail);
        assert(tail.skip(1) =~= number_list(more) + rest);
        assert(seq![ns[0]] + more =~= ns);
    }
}

/// The six numbers of a win32-input-mode sequence at the front of a text, and what stands behind
/// it.
pub open spec fn read_key(s: Seq<u8>) -> Option<(Seq<nat>, Seq<u8>)> {
    if s.len() < 2 || s[0] != 0x1b || s[1] != 0x5b {
        None
    } else {
        match read_numbers(s.skip(2), 6) {
            None => None,
            Some((ns, rest)) => if rest.len() == 0 || rest[0] != 0x5f {
                None
            } else {
                Some((ns, rest.skip(1)))
            },
        }
    }
}

/// Whoever reads the sequence of a key finds its fields, in their order, and nothing of what
/// follows is touched. So no two key events look alike.
#[verifier::rlimit(50)]
pub proof fn law_key_reads_back(k: KeyEvent, rest: Seq<u8>)
    ensures
        read_key(key_bytes(k) + rest) == Some(
            (
                seq![
                    k.virtual_key_code as nat,
                    k.virtual_scan_code as nat,
                    k.unicode_char as nat,
                    if k.key_down { 1nat } else { 0nat },
                    k.control_key_state as nat,
                    k.repeat_count as nat,
                ],
                rest,
            ),
        ),
{
    let down = if k.key_down { 1nat } else { 0nat };
    let ns = seq![
        k.virtual_key_code as nat,
        k.virtual_scan_code as nat,
        k.unicode_char as nat,
        down,
        k.control_key_state as nat,
        k.repeat_count as nat,
    ];
    let tail = seq![0x5fu8] + rest;
    lemma_read_numbers(ns, tail);
    let head = seq![0x1bu8, 0x5b];
    assert(number_list(ns.take(1)) =~= dec_bytes(ns[0]));
    lemma_list_grows(head, ns, 1);
    lemma_list_grows(head, ns, 2);
    lemma_list_grows(head, ns, 3);
    lemma_list_grows(head, ns, 4);
    lemma_list_grows(head, ns, 5);
    assert(ns.take(6) =~= ns);
    assert(key_bytes(k) == head + number_list(ns) + seq![0x5fu8]);
    let s = key_bytes(k) + rest;
    assert(s =~= head + (number_list(ns) + tail));
    assert(s.skip(2) =~= number_list(ns) + tail);
    assert(tail.skip(1) =~= rest);
}

/// A list with one more number is the list, a `;` and the number, whatever stands in front.
proof fn lemma_list_grows(head: Seq<u8>, ns: Seq<nat>, k: int)
    requires
        1 <= k < ns.len(),
    ensures
        head + number_list(ns.take(k)) + seq![0x3bu8] + dec_bytes(ns[k]) == head + number_list(
            ns.take(k + 1),
        ),
{
    lemma_list_push(ns.take(k), ns[k]);
    assert(ns.take(k).push(ns[k]) =~= ns.take(k + 1));
    assert(head + number_list(ns.take(k)) + seq![0x3bu8] + dec_bytes(ns[k]) =~= head + (number_list(
        ns.take(k),
    ) + seq![0x3bu8] + dec_bytes(ns[k])));
}

proof fn lemma_list_push(ns: Seq<nat>, x: nat)
    requires
        ns.len() >= 1,
    ensures
        number_list(ns.push(x)) == number_list(ns) + seq![0x3bu8] + dec_bytes(x),
    decreases ns.len(),
{
    let all = ns.push(x);
    if ns.len() == 1 {
        assert(all.skip(1) =~= seq![x]);
        assert(number_list(seq![x]) == dec_bytes(x));
    } else {
        lemma_list_push(ns.skip(1), x);
        assert(all.skip(1) =~= ns.skip(1).push(x));
        assert(number_list(all) =~= number_list(ns) + seq![0x3bu8] + dec_bytes(x));
    }
}

/// An SGR report as it is read.
pub ghost struct SgrReport {
    pub code: nat,
    pub x: nat,
    pub y: nat,
    pub press: bool,
}

/// The report at the front of a text, and what stands behind it.
pub open spec fn read_report(s: Seq<u8>) -> Option<(SgrReport, Seq<u8>)> {
    if s.len() < 3 || s[0] != 0x1b || s[1] != 0x5b || s[2] != 0x3c {
        None
    } else {
        match read_numbers(s.skip(3), 3) {
            None => None,
            Some((ns, rest)) => if rest.len() == 0 || (rest[0] != 0x4d && rest[0] != 0x6d) {
                None
            } else {
                Some(
                    (
                        SgrReport { code: ns[0], x: ns[1], y: ns[2], press: rest[0] == 0x4d },
                        rest.skip(1),
                    ),
                )
            },
        }
    }
}

/// The reports that a text is made of; `None` where it is not made of reports.
pub open spec fn read_reports(s: Seq<u8>) -> Option<Seq<SgrReport>>
    decreases s.len(),
{
    if s.len() == 0 {
        Some(Seq::empty())
    } else {
        match read_report(s) {
            None => None,
            Some((r, rest)) => if rest.len() >= s.len() {
                None
            } else {
                match read_reports(rest) {
                    None => None,
                    Some(more) => Some(seq![r] + more),
                }
            },
        }
    }
}

#[verifier::rlimit(50)]
proof fn lemma_report_reads_back(r: SgrReport, rest: Seq<u8>)
    ensures
        read_report(report(r.code, r.x, r.y, r.press) + rest) == Some((r, rest)),
        read_reports(rest) is Some ==> read_reports(
            report(r.code, r.x, r.y, r.press) + rest,
        ) == Some(seq![r] + read_reports(rest)->0),
{
    let ns = seq![r.code, r.x, r.y];
    let last: u8 = if r.press {
        0x4du8
    } else {
        0x6du8
    };
    let tail = seq![last] + rest;
    lemma_read_numbers(ns, tail);
    let n1 = ns.skip(1);
    let n2 = n1.skip(1);
    assert(number_list(n2) =~= dec_bytes(ns[2]));
    assert(number_list(n1) =~= dec_bytes(ns[1]) + seq![0x3bu8] + number_list(n2));
    assert(number_list(ns) =~= dec_bytes(ns[0]) + seq![0x3bu8] + number_list(n1));
    let s = report(r.code, r.x, r.y, r.press) + rest;
    assert(s.skip(3) =~= number_list(ns) + tail);
    assert(tail.skip(1) =~= rest);
}

/// How many of some reports have a code.
pub open spec fn reports_of(rs: Seq<SgrReport>, code: nat) -> nat
    decreases rs.len(),
{
    if rs.len() == 0 {
        0
    } else {
        reports_of(rs.drop_last(), code) + if rs.last().code == code { 1nat } else { 0 }
    }
}

/// The modifier part of a code: shift 4, either alt 8, either ctrl 16.
pub open spec fn modifier_part(cks: u32) -> nat {
    (if cks & 0x10 != 0 { 4nat } else { 0 }) + (if cks & 0x1 != 0 || cks & 0x2 != 0 {
        8nat
    } else {
        0
    }) + (if cks & 0x4 != 0 || cks & 0x8 != 0 { 16nat } else { 0 })
}

proof fn lemma_modifiers(cks: u32)
    ensures
        modifiers(cks) == modifier_part(cks),
{
    assert(cks & 0x3 != 0 <==> (cks & 0x1 != 0 || cks & 0x2 != 0)) by (bit_vector);
    assert(cks & 0xc != 0 <==> (cks & 0x4 != 0 || cks & 0x8 != 0)) by (bit_vector);
}

/// Whether the reports of an event say of one button what became of it: one press or release if
/// it went down or up, and nothing if it did not.
pub open spec fn tells_of(
    rs: Seq<SgrReport>,
    before: u32,
    e: MouseEvent,
    mask: u32,
    code: nat,
) -> bool {
    let was = before & mask != 0;
    let is = e.button_state & mask != 0;
    let cb = code + modifier_part(e.control_key_state);
    &&& reports_of(rs, cb) == if was != is { 1nat } else { 0nat }
    &&& forall|i: int| 0 <= i < rs.len() && (#[trigger] rs[i]).code == cb ==> rs[i].press == is
}

/// A button event is reported as exactly the buttons that went down or up, each once: as a press
/// if it is down now and as a release if it is up, at the event's place, and as nothing else.
#[verifier::rlimit(50)]
pub proof fn law_every_button_change_is_reported(before: u32, e: MouseEvent)
    requires
        e.event_flags & 0x1 == 0,
        e.event_flags & 0x4 == 0,
        e.event_flags & 0x8 == 0,
    ensures
        read_reports(mouse_bytes(before, e)) is Some,
        ({
            let rs = read_reports(mouse_bytes(before, e))->0;
            &&& tells_of(rs, before, e, 0x1, 0)
            &&& tells_of(rs, before, e, 0x4, 1)
            &&& tells_of(rs, before, e, 0x2, 2)
            &&& tells_of(rs, before, e, 0x8, 128)
            &&& tells_of(rs, before, e, 0x10, 129)
            &&& forall|i: int| 0 <= i < rs.len() ==> at_event(#[trigger] rs[i], e)
            &&& forall|i: int| 0 <= i < rs.len() ==> ({
                let code = (#[trigger] rs[i]).code - modifier_part(e.control_key_state);
                code == 0 || code == 1 || code == 2 || code == 128 || code == 129
            })
        }),
{
    let flags = e.event_flags;
    assert(flags & 0xc == 0) by (bit_vector)
        requires
            flags & 0x4 == 0,
            flags & 0x8 == 0,
    ;
    let none = Seq::<u8>::empty();
    let t5 = transition(before, e, 0x0010, 129) + none;
    let t4 = transition(before, e, 0x0008, 128) + t5;
    let t3 = transition(before, e, 0x0002, 2) + t4;
    let t2 = transition(before, e, 0x0004, 1) + t3;
    let t1 = transition(before, e, 0x0001, 0) + t2;
    assert(mouse_bytes(before, e) =~= t1);
    assert(read_reports(none) == Some(Seq::<SgrReport>::empty()));
    assert(faithful(Seq::<SgrReport>::empty(), e));
    lemma_transition_reads(before, e, 0x0010, 129, none);
    lemma_transition_reads(before, e, 0x0008, 128, t5);
    lemma_transition_reads(before, e, 0x0002, 2, t4);
    lemma_transition_reads(before, e, 0x0004, 1, t3);
    lemma_transition_reads(before, e, 0x0001, 0, t2);
    let rs = read_reports(t1)->0;
    let m = modifier_part(e.control_key_state);
    lemma_count_of(before, e, m);
    lemma_count_of(before, e, m + 1);
    lemma_count_of(before, e, m + 2);
    lemma_count_of(before, e, m + 128);
    lemma_count_of(before, e, m + 129);
    assert(faithful(rs, e));
}

/// Whether each of some reports stands at the event's cell, has the code of a button, and says
/// whether that button is down.
spec fn faithful(rs: Seq<SgrReport>, e: MouseEvent) -> bool {
    forall|i: int| 0 <= i < rs.len() ==> faithful_one(#[trigger] rs[i], e)
}

spec fn faithful_one(r: SgrReport, e: MouseEvent) -> bool {
    let code = r.code - modifier_part(e.control_key_state);
    &&& at_event(r, e)
    &&& code == 0 && r.press == (e.button_state & 0x1 != 0) || code == 1 && r.press == (
    e.button_state & 0x4 != 0) || code == 2 && r.press == (e.button_state & 0x2 != 0) || code == 128
        && r.press == (e.button_state & 0x8 != 0) || code == 129 && r.press == (e.button_state
        & 0x10 != 0)
}

/// Where one of the five buttons stands: its bit and its code.
spec fn is_button(mask: u32, code: nat) -> bool {
    mask == 0x1 && code == 0 || mask == 0x4 && code == 1 || mask == 0x2 && code == 2 || mask == 0x8
        && code == 128 || mask == 0x10 && code == 129
}

/// Whether a report stands at the cell of an event, counted from 1.
pub open spec fn at_event(r: SgrReport, e: MouseEvent) -> bool {
    &&& r.x == if e.x < 0 { 1int } else { e.x + 1 }
    &&& r.y == if e.y < 0 { 1int } else { e.y + 1 }
}

/// What the report of one button, if there is one, adds to the reports behind it.
proof fn lemma_transition_reads(before: u32, e: MouseEvent, mask: u32, code: nat, rest: Seq<u8>)
    requires
        is_button(mask, code),
        read_reports(rest) is Some,
        faithful(read_reports(rest)->0, e),
    ensures
        ({
            let rs = read_reports(transition(before, e, mask, code) + rest);
            rs is Some && faithful(rs->0, e)
        }),
{
    let r = SgrReport {
        code: code + modifier_part(e.control_key_state),
        x: coordinate(e.x),
        y: coordinate(e.y),
        press: e.button_state & mask != 0,
    };
    let more = read_reports(rest)->0;
    lemma_modifiers(e.control_key_state);
    lemma_report_reads_back(r, rest);
    assert(Seq::<u8>::empty() + rest =~= rest);
    let all = seq![r] + more;
    assert(faithful_one(r, e));
    assert forall|i: int| 0 <= i < all.len() implies faithful_one(#[trigger] all[i], e) by {
        if i > 0 {
            assert(all[i] == more[i - 1]);
        }
    }
}

/// How many reports of a code those of the five buttons are.
#[verifier::rlimit(50)]
proof fn lemma_count_of(before: u32, e: MouseEvent, cb: nat)
    requires
        ({
            let m = modifier_part(e.control_key_state);
            cb == m || cb == m + 1 || cb == m + 2 || cb == m + 128 || cb == m + 129
        }),
    ensures
        ({
            let t5 = transition(before, e, 0x0010, 129) + Seq::<u8>::empty();
            let t4 = transition(before, e, 0x0008, 128) + t5;
            let t3 = transition(before, e, 0x0002, 2) + t4;
            let t2 = transition(before, e, 0x0004, 1) + t3;
            let t1 = transition(before, e, 0x0001, 0) + t2;
            let mask = mask_of((cb - modifier_part(e.control_key_state)) as nat);
            reports_of(read_reports(t1)->0, cb) == if (before & mask != 0) != (e.button_state & mask
                != 0) {
                1nat
            } else {
                0nat
            }
        }),
{
    let none = Seq::<u8>::empty();
    let t5 = transition(before, e, 0x0010, 129) + none;
    let t4 = transition(before, e, 0x0008, 128) + t5;
    let t3 = transition(before, e, 0x0002, 2) + t4;
    let t2 = transition(before, e, 0x0004, 1) + t3;
    assert(read_reports(none) == Some(Seq::<SgrReport>::empty()));
    assert(faithful(Seq::<SgrReport>::empty(), e));
    lemma_transition_reads(before, e, 0x0010, 129, none);
    lemma_transition_reads(before, e, 0x0008, 128, t5);
    lemma_transition_reads(before, e, 0x0002, 2, t4);
    lemma_transition_reads(before, e, 0x0004, 1, t3);
    lemma_counts(before, e, 0x0010, 129, none, cb);
    lemma_counts(before, e, 0x0008, 128, t5, cb);
    lemma_counts(before, e, 0x0002, 2, t4, cb);
    lemma_counts(before, e, 0x0004, 1, t3, cb);
    lemma_counts(before, e, 0x0001, 0, t2, cb);
}

/// The bit of the button with a code.
spec fn mask_of(code: nat) -> u32 {
    if code == 0 {
        0x1
    } else if code == 1 {
        0x4
    } else if code == 2 {
        0x2
    } else if code == 128 {
        0x8
    } else {
        0x10
    }
}

/// How many reports of a code the report of one button, if there is one, adds.
proof fn lemma_counts(before: u32, e: MouseEvent, mask: u32, code: nat, rest: Seq<u8>, cb: nat)
    requires
        read_reports(rest) is Some,
    ensures
        reports_of(read_reports(transition(before, e, mask, code) + rest)->0, cb) == reports_of(
            read_reports(rest)->0,
            cb,
        ) + if (before & mask != 0) != (e.button_state & mask != 0) && cb == code + modifier_part(
            e.control_key_state,
        ) {
            1nat
        } else {
            0nat
        },
{
    let r = SgrReport {
        code: code + modifier_part(e.control_key_state),
        x: coordinate(e.x),
        y: coordinate(e.y),
        press: e.button_state & mask != 0,
    };
    lemma_modifiers(e.control_key_state);
    lemma_report_reads_back(r, rest);
    assert(Seq::<u8>::empty() + rest =~= rest);
    lemma_reports_of_front(r, read_reports(rest)->0, cb);
}

proof fn lemma_reports_of_front(r: SgrReport, more: Seq<SgrReport>, cb: nat)
    ensures
        reports_of(seq![r] + more, cb) == reports_of(more, cb) + if r.code == cb {
            1nat
        } else {
            0
        },
    decreases more.len(),
{
    let all = seq![r] + more;
    if more.len() == 0 {
        assert(all.drop_last() =~= Seq::<SgrReport>::empty());
        assert(reports_of(all.drop_last(), cb) == 0);
    } else {
        lemma_reports_of_front(r, more.drop_last(), cb);
        assert(all.drop_last() =~= seq![r] + more.drop_last());
    }
}

/// An event that was reported is not reported again: with the buttons that count as held after
/// it, it changes nothing.
pub proof fn law_reported_once(before: u32, e: MouseEvent)
    requires
        e.event_flags & 0x1 == 0,
        e.event_flags & 0x4 == 0,
        e.event_flags & 0x8 == 0,
    ensures
        mouse_bytes(buttons_after(before, e), e) == Seq::<u8>::empty(),
{
    let flags = e.event_flags;
    assert(flags & 0xc == 0) by (bit_vector)
        requires
            flags & 0x4 == 0,
            flags & 0x8 == 0,
    ;
    law_unchanged_buttons_are_silent(e);
}

/// A motion is one report: 32 and the code of the lowest-numbered button that is held, or of none.
#[verifier::rlimit(50)]
pub proof fn law_motion_is_one_report(before: u32, e: MouseEvent)
    requires
        e.event_flags & 0x1 != 0,
        e.event_flags & 0x4 == 0,
        e.event_flags & 0x8 == 0,
    ensures
        read_reports(mouse_bytes(before, e)) is Some,
        read_reports(mouse_bytes(before, e))->0.len() == 1,
        ({
            let r = read_reports(mouse_bytes(before, e))->0[0];
            let code = r.code - 32 - modifier_part(e.control_key_state);
            let held = e.button_state;
            &&& at_event(r, e) && r.press
            &&& code == 0 <==> held & 0x1 != 0
            &&& code == 1 <==> held & 0x4 != 0 && held & 0x1 == 0
            &&& code == 2 <==> held & 0x2 != 0 && held & 0x1 == 0 && held & 0x4 == 0
            &&& code == 128 <==> held & 0x8 != 0 && held & 0x1 == 0 && held & 0x4 == 0 && held & 0x2
                == 0
            &&& code == 129 <==> held & 0x10 != 0 && held & 0x1 == 0 && held & 0x4 == 0 && held
                & 0x2 == 0 && held & 0x8 == 0
            &&& code == 3 <==> held & 0x1 == 0 && held & 0x4 == 0 && held & 0x2 == 0 && held & 0x8
                == 0 && held & 0x10 == 0
        }),
{
    let flags = e.event_flags;
    assert(flags & 0xc == 0) by (bit_vector)
        requires
            flags & 0x4 == 0,
            flags & 0x8 == 0,
    ;
    lemma_modifiers(e.control_key_state);
    let r = SgrReport {
        code: held_code(e.button_state) + 32 + modifiers(e.control_key_state),
        x: coordinate(e.x),
        y: coordinate(e.y),
        press: true,
    };
    let none = Seq::<u8>::empty();
    lemma_report_reads_back(r, none);
    assert(read_reports(none) == Some(Seq::<SgrReport>::empty()));
    assert(mouse_bytes(before, e) + none =~= mouse_bytes(before, e));
    assert(seq![r] + Seq::<SgrReport>::empty() =~= seq![r]);
}

/// A turn of a wheel is one report: 64 away from the user and 65 towards them, or 66 to the right
/// and 67 to the left. `delta` is the turn, as the signed high word of the button state gives it.
pub proof fn law_wheel_is_one_report(before: u32, e: MouseEvent, delta: int)
    requires
        e.event_flags & 0x4 != 0 || e.event_flags & 0x8 != 0,
        -0x8000 <= delta < 0x8000,
        e.button_state / 0x10000 == if delta < 0 { delta + 0x10000 } else { delta },
    ensures
        read_reports(mouse_bytes(before, e)) is Some,
        read_reports(mouse_bytes(before, e))->0.len() == 1,
        ({
            let r = read_reports(mouse_bytes(before, e))->0[0];
            let base = if e.event_flags & 0x8 != 0 { 66int } else { 64int };
            let code = r.code - modifier_part(e.control_key_state);
            &&& at_event(r, e) && r.press
            &&& code == base || code == base + 1
            &&& code == base <==> delta > 0
        }),
        buttons_after(before, e) == before,
{
    let flags = e.event_flags;
    assert(flags & 0xc != 0) by (bit_vector)
        requires
            flags & 0x4 != 0 || flags & 0x8 != 0,
    ;
    lemma_modifiers(e.control_key_state);
    let r = SgrReport {
        code: wheel_code(e) + modifiers(e.control_key_state),
        x: coordinate(e.x),
        y: coordinate(e.y),
        press: true,
    };
    let none = Seq::<u8>::empty();
    lemma_report_reads_back(r, none);
    assert(read_reports(none) == Some(Seq::<SgrReport>::empty()));
    assert(mouse_bytes(before, e) + none =~= mouse_bytes(before, e));
    assert(seq![r] + Seq::<SgrReport>::empty() =~= seq![r]);
}

/// The size of a window is the number of its cells in each direction, where it has any and they
/// can be counted.
pub proof fn law_window_cells_are_counted(first: i16, cells: int)
    requires
        1 <= cells <= u16::MAX,
        first + cells - 1 <= i16::MAX,
    ensures
        extent(first, (first + cells - 1) as i16) == cells,
{
}

/// No window has a size of zero, however it is turned.
pub proof fn law_window_is_never_empty(first: i16, last: i16)
    ensures
        1 <= extent(first, last) <= u16::MAX,
        last < first ==> extent(first, last) == 1,
{
}

/// What is sent for a key is read back as that key: its fields in their order, and nothing more.
pub proof fn law_sent_key_reads_back(k: &KeyEvent, out: Vec<u8>)
    requires
        call_ensures(encode_key_event, (k,), out),
    ensures
        read_key(out@) == Some(
            (
                seq![
                    k.virtual_key_code as nat,
                    k.virtual_scan_code as nat,
                    k.unicode_char as nat,
                    if k.key_down { 1nat } else { 0nat },
                    k.control_key_state as nat,
                    k.repeat_count as nat,
                ],
                Seq::<u8>::empty(),
            ),
        ),
{
    law_key_reads_back(*k, Seq::empty());
    assert(out@ + Seq::<u8>::empty() =~= out@);
}

/// A window's size is the number of its columns and rows, edges included.
pub proof fn law_window_size(left: i16, top: i16, right: i16, bottom: i16, size: (u16, u16))
    requires
        call_ensures(win_size, (left, top, right, bottom), size),
    ensures
        size.0 >= 1,
        size.1 >= 1,
        left <= right && right - left < 0xffff ==> size.0 == right - left + 1,
        top <= bottom && bottom - top < 0xffff ==> size.1 == bottom - top + 1,
{
}

} // verus!
