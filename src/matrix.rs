use vstd::prelude::*;

use crate::debounce::PressedKeys;

verus! {

/// Why a scan of the matrix failed.
#[derive(PartialEq, Eq, Structural, Clone, Copy, Debug)]
pub enum ScanError {
    /// A column pin could not be read.
    PinRead,
}

/// Whether every read of the grid succeeded.
pub open spec fn all_read(levels: Seq<Seq<Result<bool, ScanError>>>) -> bool {
    forall|r: int, c: int|
        0 <= r < levels.len() && 0 <= c < levels[r].len() ==> (#[trigger] levels[r][c]).is_ok()
}

/// Switches pull their column low when closed: a key is pressed when its
/// column read low while its row was driven.
pub open spec fn pressed_from_levels(levels: Seq<Seq<Result<bool, ScanError>>>) -> Seq<Seq<bool>> {
    Seq::new(
        levels.len(),
        |r: int| Seq::new(levels[r].len(), |c: int| levels[r][c] == Ok::<bool, ScanError>(false)),
    )
}

/// Builds the snapshot of one scan from the column levels read while
/// each row was driven in turn (`levels[row][col]`, true for high). Any
/// failed read fails the whole scan, so no partial grid is ever produced.
pub fn scan(levels: &Vec<Vec<Result<bool, ScanError>>>) -> (res: Result<PressedKeys, ScanError>)
    ensures
        match res {
            Ok(p) => all_read(levels@.map_values(|row: Vec<Result<bool, ScanError>>| row@))
                && p@ == pressed_from_levels(levels@.map_values(|row: Vec<Result<bool, ScanError>>| row@)),
            Err(e) => !all_read(levels@.map_values(|row: Vec<Result<bool, ScanError>>| row@))
                && e == ScanError::PinRead,
        },
{
    let ghost lv = levels@.map_values(|row: Vec<Result<bool, ScanError>>| row@);
    let mut keys: Vec<Vec<bool>> = Vec::new();
    let mut r: usize = 0;
    while r < levels.len()
        invariant
            r <= levels@.len(),
            lv == levels@.map_values(|row: Vec<Result<bool, ScanError>>| row@),
            keys@.len() == r,
            forall|i: int, j: int| 0 <= i < r && 0 <= j < lv[i].len() ==> (#[trigger] lv[i][j]).is_ok(),
            forall|i: int| 0 <= i < r ==> (#[trigger] keys@[i])@ == pressed_from_levels(lv)[i],
        decreases levels.len() - r,
    {
        let row = &levels[r];
        let mut out: Vec<bool> = Vec::new();
        let mut c: usize = 0;
        while c < row.len()
            invariant
                r < levels@.len(),
                row@ == lv[r as int],
                lv == levels@.map_values(|row: Vec<Result<bool, ScanError>>| row@),
                c <= row@.len(),
                forall|j: int| 0 <= j < c ==> (#[trigger] lv[r as int][j]).is_ok(),
                out@ == pressed_from_levels(lv)[r as int].take(c as int),
            decreases row.len() - c,
        {
            match &row[c] {
                Ok(level) => {
                    out.push(!*level);
                },
                Err(_) => {
                    return Err(ScanError::PinRead);
                },
            }
            c = c + 1;
            assert(out@ =~= pressed_from_levels(lv)[r as int].take(c as int));
        }
        assert(out@ =~= pressed_from_levels(lv)[r as int]);
        keys.push(out);
        r = r + 1;
    }
    let p = PressedKeys { keys };
    assert(p@ =~= pressed_from_levels(lv));
    Ok(p)
}

} // verus!
