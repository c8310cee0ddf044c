//! What the screen shows, computed: colours of players, population symbols,
//! dates and screen positions of tiles.
use vstd::prelude::*;
use crate::common::{MAX_CLASS, MAX_PLAYER, MAX_POP};
use crate::state::UI;

verus! {

/// Width of the text of a tile on screen.
pub const CELL_STR_LEN: i32 = 3;

/// The colour pair of player `p`.
pub open spec fn spec_player_color(p: int) -> int {
    if p == 0 {
        6
    } else if p == 1 {
        4
    } else if p == 2 {
        5
    } else if p == 3 {
        3
    } else if p == 4 {
        6
    } else if p == 5 {
        7
    } else if p == 6 {
        8
    } else if p == 7 {
        2
    } else {
        -1
    }
}

/// The colour pair of player `p` (-1 for a number that is no player).
pub fn player_color(p: i32) -> (r: i16)
    ensures
        r == spec_player_color(p as int),
{
    match p {
        0 => 6,
        1 => 4,
        2 => 5,
        3 => 3,
        4 => 6,
        5 => 7,
        6 => 8,
        7 => 2,
        _ => -1,
    }
}

/// The symbol level of a population: -1 for none, then 0 to 8 for more
/// than 0, 3, 6, 12, 25, 50, 100, 200 and 400 citizens.
pub open spec fn spec_pop_to_symbol(num: int) -> int {
    if num > 400 {
        8
    } else if num > 200 {
        7
    } else if num > 100 {
        6
    } else if num > 50 {
        5
    } else if num > 25 {
        4
    } else if num > 12 {
        3
    } else if num > 6 {
        2
    } else if num > 3 {
        1
    } else if num > 0 {
        0
    } else {
        -1
    }
}

/// The symbol level of a population (see `spec_pop_to_symbol`).
pub fn pop_to_symbol(num: i32) -> (r: i32)
    ensures
        r == spec_pop_to_symbol(num as int),
{
    if num > 400 {
        8
    } else if num > 200 {
        7
    } else if num > 100 {
        6
    } else if num > 50 {
        5
    } else if num > 25 {
        4
    } else if num > 12 {
        3
    } else if num > 6 {
        2
    } else if num > 3 {
        1
    } else if num > 0 {
        0
    } else {
        -1
    }
}

/// The text that shows a symbol level, three characters wide: more dots and
/// colons for more citizens; empty for no citizens.
pub open spec fn spec_symbol_text(level: int) -> Seq<char> {
    if level == 8 {
        ":::"@
    } else if level == 7 {
        ".::"@
    } else if level == 6 {
        " ::"@
    } else if level == 5 {
        ".:."@
    } else if level == 4 {
        ".: "@
    } else if level == 3 {
        " : "@
    } else if level == 2 {
        "..."@
    } else if level == 1 {
        ".. "@
    } else if level == 0 {
        " . "@
    } else {
        ""@
    }
}

/// The text that shows a symbol level (see `spec_symbol_text`).
pub fn symbol_text(level: i32) -> (r: &'static str)
    ensures
        r@ == spec_symbol_text(level as int),
{
    match level {
        8 => ":::",
        7 => ".::",
        6 => " ::",
        5 => ".:.",
        4 => ".: ",
        3 => " : ",
        2 => "...",
        1 => ".. ",
        0 => " . ",
        _ => "",
    }
}

/// Sum of the populations of the players below `n` on a tile.
pub open spec fn units_sum(units: [[i32; MAX_CLASS]; MAX_PLAYER], n: int) -> int
    decreases n,
{
    if n <= 0 {
        0
    } else {
        units_sum(units, n - 1) + units[n - 1][0]
    }
}

/// The number of citizens of all players on a tile whose populations lie between 0 and `MAX_POP`.
pub fn tile_population(units: &[[i32; MAX_CLASS]; MAX_PLAYER]) -> (r: i32)
    requires
        forall|p: int| 0 <= p < MAX_PLAYER ==> 0 <= #[trigger] units[p][0] <= MAX_POP,
    ensures
        r == units_sum(*units, MAX_PLAYER as int),
{
    let mut num: i32 = 0;
    for p in 0..MAX_PLAYER
        invariant
            forall|q: int| 0 <= q < MAX_PLAYER ==> 0 <= #[trigger] units[q][0] <= MAX_POP,
            num == units_sum(*units, p as int),
            0 <= num <= p * MAX_POP,
    {
        num = num + units[p][0];
    }
    num
}

/// The date of day `time`, in 360-day years of twelve 30-day months: year,
/// month (from 1) and day (from 1).
pub open spec fn spec_time_to_ymd(time: int) -> (int, int, int) {
    (time / 360, (time % 360) / 30 + 1, (time % 360) % 30 + 1)
}

/// The date of day `time` (see `spec_time_to_ymd`).
pub fn time_to_ymd(time: u64) -> (r: (i32, i32, i32))
    requires
        time / 360 <= i32::MAX,
    ensures
        (r.0 as int, r.1 as int, r.2 as int) == spec_time_to_ymd(time as int),
{
    let year = (time / 360) as i32;
    let mut month = (time - (year as u64) * 360) as i32;
    let day = month % 30 + 1;
    month = month / 30 + 1;
    (year, month, day)
}

/// The screen row of tile `(i, j)`.
pub fn posy(_ui: &UI, _i: i32, j: i32) -> (r: i32)
    requires
        j < i32::MAX,
    ensures
        r == j + 1,
{
    j + 1
}

/// The screen column of tile `(i, j)`: four columns per step along `i`, two
/// per step along `j`, shifted left by the skipped columns of the map.
pub fn posx(ui: &UI, i: i32, j: i32) -> (r: i32)
    requires
        i32::MIN <= i * 4 <= i32::MAX,
        i32::MIN <= j * 2 <= i32::MAX,
        i32::MIN <= i * 4 + j * 2 + 1 <= i32::MAX,
        i32::MIN <= ui.xskip * (CELL_STR_LEN + 1) <= i32::MAX,
        i32::MIN <= (i * 4 + j * 2 + 1) - ui.xskip * (CELL_STR_LEN + 1) <= i32::MAX,
    ensures
        r == (i * 4 + j * 2 + 1) - ui.xskip * (CELL_STR_LEN + 1),
{
    (i * 4 + j * 2 + 1) - (ui.xskip * (CELL_STR_LEN + 1))
}

} // verus!
