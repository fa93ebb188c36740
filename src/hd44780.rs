//! Instruction codes of the HD44780 controller.
use vstd::prelude::*;

verus! {

/// Instruction byte "clear display": blanks the screen and homes the cursor.
pub const CLEAR_DISPLAY: u8 = 0x01;

/// The command byte that clears the whole display.
pub fn clear_screen() -> (r: u8)
    ensures
        r == CLEAR_DISPLAY,
{
    CLEAR_DISPLAY
}

} // verus!
