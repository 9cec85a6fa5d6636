use vstd::prelude::*;

use crate::keycode::{LEFT_CTRL, LEFT_SHIFT};
use crate::layout::Action;

verus! {

/// Rows of this board's matrix.
pub const ROWS: usize = 1;

/// Columns of this board's matrix.
pub const COLS: usize = 2;

/// Consecutive disagreeing scans before a key flips; at the 1 kHz tick
/// this is a 5 ms debounce window.
pub const DEBOUNCE_THRESHOLD: u16 = 5;

/// Rate of the periodic tick, in hertz.
pub const TICK_HZ: u32 = 1000;

/// Writes of one report to a busy transport before the tick gives up.
pub const MAX_WRITE_ATTEMPTS: u32 = 1000;

/// This board's layer table: one layer, LeftShift at (0, 0) and
/// LeftCtrl at (0, 1).
pub fn layers() -> (l: Vec<Vec<Vec<Action>>>)
    ensures
        l@.len() == 1,
        l@[0]@.len() == ROWS,
        l@[0]@[0]@ == seq![Action::KeyCode(LEFT_SHIFT), Action::KeyCode(LEFT_CTRL)],
{
    let row: Vec<Action> = vec![Action::KeyCode(LEFT_SHIFT), Action::KeyCode(LEFT_CTRL)];
    let layer: Vec<Vec<Action>> = vec![row];
    vec![layer]
}

} // verus!
