//! The rules of the games: everything about them that is whole numbers.

pub mod dumptruck;
pub mod snake;

use vstd::prelude::*;

verus! {

/// How many games the cabinet carries.
pub const COUNT: u32 = 2;
pub const SNAKE_ID: u32 = 0;
pub const DUMPTRUCK_ID: u32 = 1;

/// The game a request for `id` gets: that one if it exists, the first
/// otherwise.
pub fn select_id(id: u32) -> (g: u32)
    ensures
        g == (if id < COUNT { id } else { 0 }),
        g < COUNT,
{
    if id < COUNT {
        id
    } else {
        0
    }
}

} // verus!
