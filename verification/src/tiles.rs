//! The tile connectivity model: which of the four sides each of the ten
//! tile symbols connects to, and the admissibility rule for placing a
//! symbol given its neighbour context.

use vstd::prelude::*;

verus! {

/// Symbol `t` has a strand toward its upper side.
pub open spec fn connects_up(t: u8) -> bool {
    t == 3 || t == 4 || t == 6 || t == 7 || t == 8 || t == 9
}

/// Symbol `t` has a strand toward its right side.
pub open spec fn connects_right(t: u8) -> bool {
    t == 2 || t == 3 || t == 5 || t == 7 || t == 8 || t == 9
}

/// Symbol `t` has a strand toward its lower side.
pub open spec fn connects_down(t: u8) -> bool {
    t == 1 || t == 2 || t == 6 || t == 7 || t == 8 || t == 9
}

/// Symbol `t` has a strand toward its left side.
pub open spec fn connects_left(t: u8) -> bool {
    t == 1 || t == 4 || t == 5 || t == 7 || t == 8 || t == 9
}

/// A symbol `t` may stand in a cell whose context is described by the four
/// flags: `require_up` / `require_left` say whether the already-placed upper
/// / left neighbour reaches into this cell (so the strand must be met), and
/// `open_right` / `open_down` say whether a strand may leave toward a
/// not-yet-placed right / lower neighbour (false on the grid boundary).
pub open spec fn admissible(
    t: u8,
    require_up: bool,
    require_left: bool,
    open_right: bool,
    open_down: bool,
) -> bool {
    &&& connects_up(t) == require_up
    &&& connects_left(t) == require_left
    &&& (connects_right(t) ==> open_right)
    &&& (connects_down(t) ==> open_down)
}

/// Executable lookup of the upward connectivity flag.
pub fn tile_connects_up(t: u8) -> (r: bool)
    ensures
        r == connects_up(t),
{
    t == 3 || t == 4 || t == 6 || t == 7 || t == 8 || t == 9
}

/// Executable lookup of the rightward connectivity flag.
pub fn tile_connects_right(t: u8) -> (r: bool)
    ensures
        r == connects_right(t),
{
    t == 2 || t == 3 || t == 5 || t == 7 || t == 8 || t == 9
}

/// Executable lookup of the downward connectivity flag.
pub fn tile_connects_down(t: u8) -> (r: bool)
    ensures
        r == connects_down(t),
{
    t == 1 || t == 2 || t == 6 || t == 7 || t == 8 || t == 9
}

/// Executable lookup of the leftward connectivity flag.
pub fn tile_connects_left(t: u8) -> (r: bool)
    ensures
        r == connects_left(t),
{
    t == 1 || t == 4 || t == 5 || t == 7 || t == 8 || t == 9
}

/// Executable admissibility test for one symbol in one cell context.
pub fn tile_admissible(
    t: u8,
    require_up: bool,
    require_left: bool,
    open_right: bool,
    open_down: bool,
) -> (r: bool)
    ensures
        r == admissible(t, require_up, require_left, open_right, open_down),
{
    tile_connects_up(t) == require_up && tile_connects_left(t) == require_left
        && (!tile_connects_right(t) || open_right) && (!tile_connects_down(t) || open_down)
}

} // verus!
