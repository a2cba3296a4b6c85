//! The parity rule of the spatial checkerboard texture.

use vstd::prelude::*;

verus! {

/// Whether the checkerboard cell with integer coordinates `(x, y, z)` takes the
/// even texture: the sum of the coordinates is even.
pub open spec fn is_even_cell(x: int, y: int, z: int) -> bool {
    (x + y + z) % 2 == 0
}

/// Chooses between the even and the odd texture for the cell `(x, y, z)`,
/// the floors of the scaled coordinates of a point; `true` selects the even one.
pub fn checker_is_even(x: i32, y: i32, z: i32) -> (r: bool)
    ensures
        r == is_even_cell(x as int, y as int, z as int),
{
    let sum: i64 = x as i64 + y as i64 + z as i64;
    sum % 2 == 0
}

} // verus!
