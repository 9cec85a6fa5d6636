use vstd::prelude::*;

verus! {

/// HID usage of the first modifier key (LeftCtrl).
pub const LEFT_CTRL: u8 = 0xE0;

/// HID usage of LeftShift.
pub const LEFT_SHIFT: u8 = 0xE1;

/// HID usage of the last modifier key (RightGUI).
pub const RIGHT_GUI: u8 = 0xE7;

/// A modifier key is one of the eight usages LeftCtrl ..= RightGUI.
pub open spec fn is_modifier_spec(code: u8) -> bool {
    LEFT_CTRL <= code && code <= RIGHT_GUI
}

/// The bit a modifier sets in byte 0 of a report (bit 0 is LeftCtrl,
/// bit 7 is RightGUI); zero for any other code.
pub open spec fn modifier_bit_spec(code: u8) -> u8 {
    if code == 0xE0 {
        0x01
    } else if code == 0xE1 {
        0x02
    } else if code == 0xE2 {
        0x04
    } else if code == 0xE3 {
        0x08
    } else if code == 0xE4 {
        0x10
    } else if code == 0xE5 {
        0x20
    } else if code == 0xE6 {
        0x40
    } else if code == 0xE7 {
        0x80
    } else {
        0
    }
}

/// Whether `code` is a modifier key.
pub fn is_modifier(code: u8) -> (r: bool)
    ensures
        r == is_modifier_spec(code),
{
    LEFT_CTRL <= code && code <= RIGHT_GUI
}

/// The modifier bit of `code`, or zero if it is no modifier.
pub fn modifier_bit(code: u8) -> (r: u8)
    ensures
        r == modifier_bit_spec(code),
{
    if is_modifier(code) {
        let shift: u8 = code - LEFT_CTRL;
        let r: u8 = 1u8 << shift;
        assert(shift < 8);
        assert(r == modifier_bit_spec(code)) by (bit_vector)
            requires
                shift == (code - 0xE0u8) as u8,
                0xE0u8 <= code <= 0xE7u8,
                r == 1u8 << shift,
        ;
        r
    } else {
        0
    }
}

} // verus!
