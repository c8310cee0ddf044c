//! Shared constants, enumerations and small integer helpers.
use vstd::prelude::*;

verus! {

/// Number of players (countries), the neutral one included.
pub const MAX_PLAYER: usize = 8;

/// The neutral player.
pub const NEUTRAL: usize = 0;

/// Number of unit classes; only citizens exist.
pub const MAX_CLASS: usize = 1;

/// Largest map width.
pub const MAX_WIDTH: usize = 40;

/// Largest map height.
pub const MAX_HEIGHT: usize = 29;

/// Number of neighbours of a tile on the hexagonal grid.
pub const DIRECTIONS: usize = 6;

/// Largest population of one player on one tile.
pub const MAX_POP: i32 = 499;

/// Number of samples kept by the timeline.
pub const MAX_TIMELINE_MARK: usize = 72;

pub const FLAG_ON: i32 = 1;

pub const FLAG_OFF: i32 = 0;

/// Strength with which a flag attracts units.
pub const FLAG_POWER: i32 = 8;

/// Inequality setting that asks for no balance check of the start positions.
pub const RANDOM_INEQUALITY: i32 = -1;

/// Largest number of candidate start locations of a map shape.
pub const MAX_AVLBL_LOC: usize = 7;

/// Game speed.
#[derive(Clone, Copy, Debug, PartialEq, Eq, Structural)]
pub enum ConfigSpeed {
    Pause,
    Slowest,
    Slower,
    Slow,
    Normal,
    Fast,
    Faster,
    Fastest,
}

/// Difficulty of the computer opponents.
#[derive(Clone, Copy, Debug, PartialEq, Eq, Structural)]
pub enum ConfigDif {
    Easiest,
    Easy,
    Normal,
    Hard,
    Hardest,
}

/// Classes of units; citizens are the only class, stored at index 0.
#[derive(Clone, Copy, Debug, PartialEq, Eq, Structural)]
pub enum UnitClass {
    Citizen,
}

/// Kind of a tile of the map.
#[derive(Clone, Copy, Debug, PartialEq, Eq, Structural)]
pub enum TileClass {
    Abyss,
    Mountain,
    Mine,
    Grassland,
    Village,
    Town,
    Castle,
}

/// Shape of the map.
#[derive(Clone, Copy, Debug, PartialEq, Eq, Structural)]
pub enum Stencil {
    Rhombus,
    Rect,
    Hex,
}

/// A position on the grid: column `i`, row `j`.
#[derive(Clone, Copy, Debug, PartialEq, Eq, Structural)]
pub struct Loc {
    pub i: i32,
    pub j: i32,
}

/// Column offset of the `k`-th neighbour direction.
pub open spec fn dir_di(k: int) -> int {
    if k == 0 {
        -1
    } else if k == 1 {
        1
    } else if k == 4 {
        1
    } else if k == 5 {
        -1
    } else {
        0
    }
}

/// Row offset of the `k`-th neighbour direction.
pub open spec fn dir_dj(k: int) -> int {
    if k == 2 {
        -1
    } else if k == 3 {
        1
    } else if k == 4 {
        -1
    } else if k == 5 {
        1
    } else {
        0
    }
}

/// The `k`-th of the six neighbour directions of the hexagonal grid:
/// (-1,0), (1,0), (0,-1), (0,1), (1,-1), (-1,1).
pub fn dir(k: usize) -> (l: Loc)
    requires
        k < DIRECTIONS,
    ensures
        l.i == dir_di(k as int),
        l.j == dir_dj(k as int),
{
    match k {
        0 => Loc { i: -1, j: 0 },
        1 => Loc { i: 1, j: 0 },
        2 => Loc { i: 0, j: -1 },
        3 => Loc { i: 0, j: 1 },
        4 => Loc { i: 1, j: -1 },
        _ => Loc { i: -1, j: 1 },
    }
}

pub open spec fn spec_min(x: int, y: int) -> int {
    if x < y {
        x
    } else {
        y
    }
}

pub open spec fn spec_max(x: int, y: int) -> int {
    if x < y {
        y
    } else {
        x
    }
}

/// `x` moved into `[l, r]`: `l` below it, `r` above it.
pub open spec fn spec_in_segment(x: int, l: int, r: int) -> int {
    if x < l {
        l
    } else if x > r {
        r
    } else {
        x
    }
}

pub fn min_i32(x: i32, y: i32) -> (r: i32)
    ensures
        r == spec_min(x as int, y as int),
{
    if x < y {
        x
    } else {
        y
    }
}

pub fn max_i32(x: i32, y: i32) -> (r: i32)
    ensures
        r == spec_max(x as int, y as int),
{
    if x < y {
        y
    } else {
        x
    }
}

pub fn in_segment(x: i32, l: i32, r: i32) -> (res: i32)
    ensures
        res == spec_in_segment(x as int, l as int, r as int),
{
    if x < l {
        l
    } else if x > r {
        r
    } else {
        x
    }
}

} // verus!
