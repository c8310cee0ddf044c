//! The map: tiles, flag layers and the shapes that cut a map out of the grid.
use vstd::prelude::*;
use crate::common::{
    Loc, Stencil, TileClass, MAX_AVLBL_LOC, MAX_CLASS, MAX_HEIGHT, MAX_PLAYER, MAX_POP,
    MAX_WIDTH, NEUTRAL, FLAG_OFF, FLAG_ON, min_i32, spec_min,
};

verus! {

/// A layer of integers, one per grid position.
pub type Layer = [[i32; MAX_HEIGHT]; MAX_WIDTH];

/// One tile: its kind, its owner and the population of each player on it.
#[derive(Clone, Copy, Debug)]
pub struct Tile {
    pub cl: TileClass,
    pub pl: i32,
    pub units: [[i32; MAX_CLASS]; MAX_PLAYER],
}

/// The map. Only the positions `0 <= i < width`, `0 <= j < height` are in play.
#[derive(Clone, Copy, Debug)]
pub struct Grid {
    pub width: i32,
    pub height: i32,
    pub tiles: [[Tile; MAX_HEIGHT]; MAX_WIDTH],
}

/// The flags of one player, and the attraction (`call`) that they exert.
#[derive(Clone, Copy, Debug)]
pub struct FlagGrid {
    pub width: i32,
    pub height: i32,
    pub flag: Layer,
    pub call: Layer,
}

// ---------------------------------------------------------------------------
// Tile kinds
// ---------------------------------------------------------------------------

pub open spec fn spec_is_a_city(t: TileClass) -> bool {
    t == TileClass::Village || t == TileClass::Town || t == TileClass::Castle
}

pub open spec fn spec_is_inhabitable(t: TileClass) -> bool {
    !(t == TileClass::Abyss || t == TileClass::Mountain || t == TileClass::Mine)
}

pub open spec fn spec_is_visible(t: TileClass) -> bool {
    t != TileClass::Abyss
}

pub fn is_a_city(t: TileClass) -> (r: bool)
    ensures
        r == spec_is_a_city(t),
{
    match t {
        TileClass::Village | TileClass::Town | TileClass::Castle => true,
        _ => false,
    }
}

pub fn is_inhabitable(t: TileClass) -> (r: bool)
    ensures
        r == spec_is_inhabitable(t),
{
    match t {
        TileClass::Abyss | TileClass::Mountain | TileClass::Mine => false,
        _ => true,
    }
}

pub fn is_visible(t: TileClass) -> (r: bool)
    ensures
        r == spec_is_visible(t),
{
    match t {
        TileClass::Abyss => false,
        _ => true,
    }
}

// ---------------------------------------------------------------------------
// Positions and well-formedness
// ---------------------------------------------------------------------------

/// `(i, j)` indexes the arrays of a layer.
pub open spec fn in_array(i: int, j: int) -> bool {
    0 <= i < MAX_WIDTH && 0 <= j < MAX_HEIGHT
}

/// The dimensions of a map fit the arrays.
pub open spec fn dims_ok(w: int, h: int) -> bool {
    0 <= w <= MAX_WIDTH && 0 <= h <= MAX_HEIGHT
}

/// `(i, j)` is a position of the map in play.
pub open spec fn in_grid(g: &Grid, i: int, j: int) -> bool {
    0 <= i < g.width && 0 <= j < g.height
}

/// `(i, j)` is a position of the map in play whose tile can hold units.
pub open spec fn passable(g: &Grid, i: int, j: int) -> bool {
    in_grid(g, i, j) && spec_is_inhabitable(g.tiles[i][j].cl)
}

/// Whether the neighbour of `(i, j)` in direction `k` is in play and inhabitable.
pub open spec fn nb_open(g: &Grid, i: int, j: int, k: int) -> bool {
    passable(g, i + crate::common::dir_di(k), j + crate::common::dir_dj(k))
}

/// The population of player `p` on tile `t`.
pub open spec fn pop(t: Tile, p: int) -> int {
    t.units[p][0] as int
}

/// An owner that is a player, and populations between 0 and `MAX_POP`.
pub open spec fn tile_wf(t: Tile) -> bool {
    &&& 0 <= t.pl < MAX_PLAYER
    &&& forall|p: int| 0 <= p < MAX_PLAYER ==> 0 <= #[trigger] pop(t, p) <= MAX_POP
}

/// The dimensions fit the arrays and every tile, in play or not, is well formed.
pub open spec fn grid_wf(g: &Grid) -> bool {
    &&& dims_ok(g.width as int, g.height as int)
    &&& forall|i: int, j: int| in_array(i, j) ==> tile_wf(#[trigger] g.tiles[i][j])
}

/// `b` is a neighbour of `a` on the hexagonal grid.
pub open spec fn adjacent(ai: int, aj: int, bi: int, bj: int) -> bool {
    let di = bi - ai;
    let dj = bj - aj;
    ||| di == -1 && dj == 0
    ||| di == 1 && dj == 0
    ||| di == 0 && dj == -1
    ||| di == 0 && dj == 1
    ||| di == 1 && dj == -1
    ||| di == -1 && dj == 1
}

// ---------------------------------------------------------------------------
// Map shapes
// ---------------------------------------------------------------------------

pub open spec fn spec_avlbl_loc_num(st: Stencil) -> int {
    match st {
        Stencil::Rhombus => 4,
        Stencil::Rect => 4,
        Stencil::Hex => 6,
    }
}

/// Number of start locations that a map shape offers.
pub fn stencil_avlbl_loc_num(st: Stencil) -> (r: i32)
    ensures
        r == spec_avlbl_loc_num(st),
{
    match st {
        Stencil::Rhombus => 4,
        Stencil::Rect => 4,
        Stencil::Hex => 6,
    }
}

/// Position `(i, j)` of a `w` by `h` map belongs to the shape `st`
/// (positions outside it become abyss).
/// For the rectangle, a tile is drawn at abscissa `i + j/2`, and it is kept
/// when that abscissa lies between the ones of `(0, h-1)` and `(w-1, 0)`.
pub open spec fn in_shape(st: Stencil, w: int, h: int, i: int, j: int) -> bool {
    match st {
        Stencil::Rhombus => true,
        Stencil::Rect => !(2 * i + j < h - 1 || 2 * i + j > 2 * w - 2),
        Stencil::Hex => !(i + j < h / 2 || i + j > w - 1 + h - 1 - h / 2),
    }
}

/// The `k`-th start location of shape `st` on a `w` by `h` map, at distance `d` from the border.
pub open spec fn stencil_loc(st: Stencil, w: int, h: int, d: int, k: int) -> (int, int) {
    match st {
        Stencil::Rhombus => if k == 0 {
            (d, d)
        } else if k == 1 {
            (w - 1 - d, h - 1 - d)
        } else if k == 2 {
            (d, h - 1 - d)
        } else {
            (w - 1 - d, d)
        },
        Stencil::Rect => if k == 0 {
            (h / 2 + d - 1, d)
        } else if k == 1 {
            (w - h / 2 - 1 - d + 1, h - 1 - d)
        } else if k == 2 {
            (d + 1, h - 1 - d)
        } else {
            (w - 1 - d - 1, d)
        },
        Stencil::Hex => if k == 0 {
            (h / 2 + d - 2, d)
        } else if k == 1 {
            (d, h - 1 - d)
        } else if k == 2 {
            (w - 1 - d, h / 2)
        } else if k == 3 {
            (d, h / 2)
        } else if k == 4 {
            (w - 1 - d - 2 + 2, d)
        } else {
            (w - 1 - h / 2 - d + 2, h - 1 - d)
        },
    }
}

/// `x` is a value of `i32`.
pub open spec fn fits(x: int) -> bool {
    i32::MIN <= x <= i32::MAX
}

/// A distance `d` from the border for which every step of the arithmetic of
/// the start locations of `st` on a `w` by `h` map stays within `i32`.
pub open spec fn border_ok(st: Stencil, w: int, h: int, d: int) -> bool {
    let dx = h / 2;
    match st {
        Stencil::Rhombus => fits(w - 1 - d) && fits(h - 1 - d),
        Stencil::Rect => {
            &&& fits(dx + d)
            &&& fits(dx + d - 1)
            &&& fits(w - dx - 1 - d)
            &&& fits(w - dx - 1 - d + 1)
            &&& fits(d + 1)
            &&& fits(h - 1 - d)
            &&& fits(w - 1 - d)
            &&& fits(w - 1 - d - 1)
        },
        Stencil::Hex => {
            &&& fits(dx + d)
            &&& fits(dx + d - 2)
            &&& fits(h - 1 - d)
            &&& fits(w - 1 - d)
            &&& fits(w - 1 - d - 2)
            &&& fits(w - 1 - d - 2 + 2)
            &&& fits(w - 1 - dx - d)
            &&& fits(w - 1 - dx - d + 2)
        },
    }
}

/// The first `n` entries of `loc` are the start locations of `st`; the others are `old_loc`'s.
pub open spec fn locs_of_stencil(
    st: Stencil,
    w: int,
    h: int,
    d: int,
    n: int,
    loc: [Loc; MAX_AVLBL_LOC],
    old_loc: [Loc; MAX_AVLBL_LOC],
) -> bool {
    forall|k: int|
        0 <= k < MAX_AVLBL_LOC ==> if k < n {
            (#[trigger] loc[k]).i == stencil_loc(st, w, h, d, k).0 && loc[k].j == stencil_loc(
                st,
                w,
                h,
                d,
                k,
            ).1
        } else {
            loc[k] == old_loc[k]
        }
}

fn stencil_rhombus(g: &mut Grid, d: i32, loc: &mut [Loc; MAX_AVLBL_LOC])
    requires
        dims_ok(old(g).width as int, old(g).height as int),
        border_ok(Stencil::Rhombus, old(g).width as int, old(g).height as int, d as int),
    ensures
        *final(g) == *old(g),
        locs_of_stencil(Stencil::Rhombus, old(g).width as int, old(g).height as int, d as int, 4, *final(loc), *old(loc)),
{
    let xs: [i32; 4] = [d, g.width - 1 - d, d, g.width - 1 - d];
    let ys: [i32; 4] = [d, g.height - 1 - d, g.height - 1 - d, d];
    let ghost loc0 = *loc;
    for k in 0..4
        invariant
            *g == *old(g),
            forall|m: int| 0 <= m < 4 ==> #[trigger] xs[m] == stencil_loc(Stencil::Rhombus, g.width as int, g.height as int, d as int, m).0,
            forall|m: int| 0 <= m < 4 ==> #[trigger] ys[m] == stencil_loc(Stencil::Rhombus, g.width as int, g.height as int, d as int, m).1,
            locs_of_stencil(Stencil::Rhombus, g.width as int, g.height as int, d as int, k as int, *loc, loc0),
    {
        loc[k] = Loc { i: xs[k], j: ys[k] };
    }
}

/// Turns the positions of the map in play that lie outside `st` into abyss.
/// (The rectangle is cut by the drawn abscissa `j / 2 + i`, half-integral;
/// `in_shape` states the test on doubled, integral abscissas.)
fn cut_shape(g: &mut Grid, st: Stencil)
    requires
        dims_ok(old(g).width as int, old(g).height as int),
    ensures
        final(g).width == old(g).width,
        final(g).height == old(g).height,
        cut_post(*old(g), *final(g), st),
{
    let w = g.width;
    let h = g.height;
    let dx = h / 2;
    let ghost g0 = *g;
    let mut i: i32 = 0;
    while i < w
        invariant
            0 <= i <= w,
            w == g.width,
            h == g.height,
            dx == h / 2,
            dims_ok(w as int, h as int),
            g.width == g0.width,
            g.height == g0.height,
            forall|a: int, b: int|
                in_array(a, b) ==> #[trigger] g.tiles[a][b] == if a < i && b < h && !in_shape(
                    st,
                    w as int,
                    h as int,
                    a,
                    b,
                ) {
                    Tile { cl: TileClass::Abyss, ..g0.tiles[a][b] }
                } else {
                    g0.tiles[a][b]
                },
        decreases w - i,
    {
        let mut j: i32 = 0;
        while j < h
            invariant
                0 <= i < w,
                0 <= j <= h,
                w == g.width,
                h == g.height,
                dx == h / 2,
                dims_ok(w as int, h as int),
                g.width == g0.width,
                g.height == g0.height,
                forall|a: int, b: int|
                    in_array(a, b) ==> #[trigger] g.tiles[a][b] == if (a < i || (a == i && b < j))
                        && b < h && !in_shape(st, w as int, h as int, a, b) {
                        Tile { cl: TileClass::Abyss, ..g0.tiles[a][b] }
                    } else {
                        g0.tiles[a][b]
                    },
            decreases h - j,
        {
            let outside = match st {
                Stencil::Rhombus => false,
                Stencil::Rect => 2 * i + j < h - 1 || 2 * i + j > 2 * w - 2,
                Stencil::Hex => i + j < dx || i + j > w - 1 + h - 1 - dx,
            };
            if outside {
                g.tiles[i as usize][j as usize].cl = TileClass::Abyss;
            }
            j += 1;
        }
        i += 1;
    }
}

/// The tiles of `g1` are those of `g0`, with the positions in play outside `st` turned to abyss.
pub open spec fn cut_post(g0: Grid, g1: Grid, st: Stencil) -> bool {
    forall|a: int, b: int|
        in_array(a, b) ==> #[trigger] g1.tiles[a][b] == if in_grid(&g0, a, b) && !in_shape(
            st,
            g0.width as int,
            g0.height as int,
            a,
            b,
        ) {
            Tile { cl: TileClass::Abyss, ..g0.tiles[a][b] }
        } else {
            g0.tiles[a][b]
        }
}

fn stencil_rect(g: &mut Grid, d: i32, loc: &mut [Loc; MAX_AVLBL_LOC])
    requires
        dims_ok(old(g).width as int, old(g).height as int),
        border_ok(Stencil::Rect, old(g).width as int, old(g).height as int, d as int),
    ensures
        final(g).width == old(g).width,
        final(g).height == old(g).height,
        cut_post(*old(g), *final(g), Stencil::Rect),
        locs_of_stencil(Stencil::Rect, old(g).width as int, old(g).height as int, d as int, 4, *final(loc), *old(loc)),
{
    cut_shape(g, Stencil::Rect);
    let dx = g.height / 2;
    let temp_loc: [Loc; 4] = [
        Loc { i: dx + d - 1, j: d },
        Loc { i: g.width - dx - 1 - d + 1, j: g.height - 1 - d },
        Loc { i: d + 1, j: g.height - 1 - d },
        Loc { i: g.width - 1 - d - 1, j: d },
    ];
    let ghost loc0 = *loc;
    for k in 0..4
        invariant
            dx == g.height / 2,
            border_ok(Stencil::Rect, g.width as int, g.height as int, d as int),
            dims_ok(g.width as int, g.height as int),
            forall|m: int| 0 <= m < 4 ==> (#[trigger] temp_loc[m]).i == stencil_loc(Stencil::Rect, g.width as int, g.height as int, d as int, m).0 && temp_loc[m].j == stencil_loc(Stencil::Rect, g.width as int, g.height as int, d as int, m).1,
            locs_of_stencil(Stencil::Rect, g.width as int, g.height as int, d as int, k as int, *loc, loc0),
    {
        loc[k] = temp_loc[k];
    }
}

fn stencil_hex(g: &mut Grid, d: i32, loc: &mut [Loc; MAX_AVLBL_LOC])
    requires
        dims_ok(old(g).width as int, old(g).height as int),
        border_ok(Stencil::Hex, old(g).width as int, old(g).height as int, d as int),
    ensures
        final(g).width == old(g).width,
        final(g).height == old(g).height,
        cut_post(*old(g), *final(g), Stencil::Hex),
        locs_of_stencil(Stencil::Hex, old(g).width as int, old(g).height as int, d as int, 6, *final(loc), *old(loc)),
{
    cut_shape(g, Stencil::Hex);
    let dx = g.height / 2;
    let temp_loc: [Loc; 6] = [
        Loc { i: dx + d - 2, j: d },
        Loc { i: d, j: g.height - 1 - d },
        Loc { i: g.width - 1 - d, j: dx },
        Loc { i: d, j: dx },
        Loc { i: g.width - 1 - d - 2 + 2, j: d },
        Loc { i: g.width - 1 - dx - d + 2, j: g.height - 1 - d },
    ];
    let ghost loc0 = *loc;
    for k in 0..6
        invariant
            dx == g.height / 2,
            border_ok(Stencil::Hex, g.width as int, g.height as int, d as int),
            dims_ok(g.width as int, g.height as int),
            forall|m: int| 0 <= m < 6 ==> (#[trigger] temp_loc[m]).i == stencil_loc(Stencil::Hex, g.width as int, g.height as int, d as int, m).0 && temp_loc[m].j == stencil_loc(Stencil::Hex, g.width as int, g.height as int, d as int, m).1,
            locs_of_stencil(Stencil::Hex, g.width as int, g.height as int, d as int, k as int, *loc, loc0),
    {
        loc[k] = temp_loc[k];
    }
}

/// What `apply_stencil` makes of one tile: outside the shape it becomes an
/// empty neutral abyss; an abyss stays empty and neutral.
pub open spec fn stenciled_tile(g0: Grid, st: Stencil, a: int, b: int) -> Tile {
    let t = g0.tiles[a][b];
    if in_grid(&g0, a, b) {
        if !in_shape(st, g0.width as int, g0.height as int, a, b) || t.cl == TileClass::Abyss {
            Tile { cl: TileClass::Abyss, pl: NEUTRAL as i32, units: [[0i32; MAX_CLASS]; MAX_PLAYER] }
        } else {
            t
        }
    } else {
        t
    }
}

/// Cuts the map to the shape `st`, writes its start locations (at distance `d`
/// from the border) into `loc` and their number into `avlbl_loc_num`, and
/// empties every abyss tile of units and owner.
pub fn apply_stencil(
    st: Stencil,
    g: &mut Grid,
    d: i32,
    loc: &mut [Loc; MAX_AVLBL_LOC],
    avlbl_loc_num: &mut i32,
)
    requires
        dims_ok(old(g).width as int, old(g).height as int),
        border_ok(st, old(g).width as int, old(g).height as int, d as int),
    ensures
        final(g).width == old(g).width,
        final(g).height == old(g).height,
        forall|a: int, b: int|
            in_array(a, b) ==> #[trigger] final(g).tiles[a][b] == stenciled_tile(*old(g), st, a, b),
        *final(avlbl_loc_num) == spec_avlbl_loc_num(st),
        locs_of_stencil(
            st,
            old(g).width as int,
            old(g).height as int,
            d as int,
            spec_avlbl_loc_num(st),
            *final(loc),
            *old(loc),
        ),
{
    *avlbl_loc_num = stencil_avlbl_loc_num(st);
    let ghost g0 = *g;
    match st {
        Stencil::Rhombus => stencil_rhombus(g, d, loc),
        Stencil::Rect => stencil_rect(g, d, loc),
        Stencil::Hex => stencil_hex(g, d, loc),
    }
    let ghost g1 = *g;
    assert(cut_post(g0, g1, st)) by {
        if st == Stencil::Rhombus {
            assert forall|a: int, b: int| in_array(a, b) implies #[trigger] g1.tiles[a][b] == if in_grid(&g0, a, b) && !in_shape(st, g0.width as int, g0.height as int, a, b) {
                Tile { cl: TileClass::Abyss, ..g0.tiles[a][b] }
            } else {
                g0.tiles[a][b]
            } by {}
        }
    }
    let w = g.width as usize;
    let h = g.height as usize;
    for i in 0..w
        invariant
            w == g.width,
            h == g.height,
            g.width == g0.width,
            g.height == g0.height,
            dims_ok(w as int, h as int),
            cut_post(g0, g1, st),
            forall|a: int, b: int|
                in_array(a, b) ==> #[trigger] g.tiles[a][b] == if a < i {
                    stenciled_tile(g0, st, a, b)
                } else {
                    g1.tiles[a][b]
                },
    {
        for j in 0..h
            invariant
                i < w,
                w == g.width,
                h == g.height,
                g.width == g0.width,
                g.height == g0.height,
                dims_ok(w as int, h as int),
                cut_post(g0, g1, st),
                forall|a: int, b: int|
                    in_array(a, b) ==> #[trigger] g.tiles[a][b] == if a < i || (a == i && b < j) {
                        stenciled_tile(g0, st, a, b)
                    } else {
                        g1.tiles[a][b]
                    },
        {
            if g.tiles[i][j].cl == TileClass::Abyss {
                for p in 0..MAX_PLAYER
                    invariant
                        i < w,
                        j < h,
                        dims_ok(w as int, h as int),
                        w == g.width,
                        h == g.height,
                        g.width == g0.width,
                        g.height == g0.height,
                        g.tiles[i as int][j as int].cl == TileClass::Abyss,
                        p > 0 ==> g.tiles[i as int][j as int].pl == NEUTRAL,
                        forall|q: int| 0 <= q < p ==> #[trigger] g.tiles[i as int][j as int].units[q][0] == 0,
                        forall|q: int| p <= q < MAX_PLAYER ==> #[trigger] g.tiles[i as int][j as int].units[q] == g1.tiles[i as int][j as int].units[q],
                        forall|a: int, b: int|
                            in_array(a, b) && (a, b) != (i as int, j as int) ==> #[trigger] g.tiles[a][b] == if a < i || (a == i && b < j) {
                                stenciled_tile(g0, st, a, b)
                            } else {
                                g1.tiles[a][b]
                            },
                {
                    g.tiles[i][j].units[p][0] = 0;
                    g.tiles[i][j].pl = NEUTRAL as i32;
                }
                assert(g.tiles[i as int][j as int].units =~= [[0i32; MAX_CLASS]; MAX_PLAYER]) by {
                    assert forall|q: int| 0 <= q < MAX_PLAYER implies g.tiles[i as int][j as int].units[q] =~= [0i32; MAX_CLASS] by {
                        assert(g.tiles[i as int][j as int].units[q][0] == 0);
                    }
                }
            }
        }
    }
}

// ---------------------------------------------------------------------------
// Flag layers
// ---------------------------------------------------------------------------

/// The dimensions fit the arrays, flags are on or off and calls are not negative.
pub open spec fn flag_grid_wf(fg: &FlagGrid) -> bool {
    &&& dims_ok(fg.width as int, fg.height as int)
    &&& forall|i: int, j: int|
        in_array(i, j) ==> (#[trigger] fg.flag[i][j] == FLAG_ON || fg.flag[i][j] == FLAG_OFF)
    &&& forall|i: int, j: int| in_array(i, j) ==> 0 <= #[trigger] fg.call[i][j]
}

/// Sets the dimensions to `w` and `h`, capped at the largest map, and clears
/// the flags and calls of the positions in play.
pub fn flag_grid_init(fg: &mut FlagGrid, w: i32, h: i32)
    requires
        w >= 0,
        h >= 0,
    ensures
        final(fg).width == spec_min(w as int, MAX_WIDTH as int),
        final(fg).height == spec_min(h as int, MAX_HEIGHT as int),
        forall|i: int, j: int|
            in_array(i, j) ==> if i < final(fg).width && j < final(fg).height {
                #[trigger] final(fg).flag[i][j] == FLAG_OFF && final(fg).call[i][j] == 0
            } else {
                final(fg).flag[i][j] == old(fg).flag[i][j] && final(fg).call[i][j] == old(
                    fg,
                ).call[i][j]
            },
{
    fg.width = min_i32(w, MAX_WIDTH as i32);
    fg.height = min_i32(h, MAX_HEIGHT as i32);
    let ghost f0 = *fg;
    let wu = fg.width as usize;
    let hu = fg.height as usize;
    for i in 0..wu
        invariant
            wu == fg.width,
            hu == fg.height,
            fg.width == f0.width,
            fg.height == f0.height,
            dims_ok(wu as int, hu as int),
            forall|a: int, b: int|
                in_array(a, b) ==> #[trigger] fg.flag[a][b] == if a < i && b < hu { FLAG_OFF } else { f0.flag[a][b] },
            forall|a: int, b: int|
                in_array(a, b) ==> #[trigger] fg.call[a][b] == if a < i && b < hu { 0 } else { f0.call[a][b] },
    {
        for j in 0..hu
            invariant
                i < wu,
                wu == fg.width,
                hu == fg.height,
                fg.width == f0.width,
                fg.height == f0.height,
                dims_ok(wu as int, hu as int),
                forall|a: int, b: int|
                    in_array(a, b) ==> #[trigger] fg.flag[a][b] == if (a < i && b < hu) || (a == i && b < j) { FLAG_OFF } else { f0.flag[a][b] },
                forall|a: int, b: int|
                    in_array(a, b) ==> #[trigger] fg.call[a][b] == if (a < i && b < hu) || (a == i && b < j) { 0 } else { f0.call[a][b] },
        {
            fg.flag[i][j] = FLAG_OFF;
            fg.call[i][j] = 0;
        }
    }
}


/// Every start location of a shape lies on the map and inside the shape, and
/// no two of them share a tile, for a distance `d` of at least 1 from the
/// border on a map tall and wide enough for it (at least `2 * d + 4` rows,
/// and twice the width at least the height plus `4 * d + 4`).
pub proof fn lemma_start_locations_inside(st: Stencil, w: int, h: int, d: int, k: int, k2: int)
    requires
        1 <= d,
        2 * d + 4 <= h,
        h + 4 * d + 4 <= 2 * w,
        0 <= k < spec_avlbl_loc_num(st),
        0 <= k2 < spec_avlbl_loc_num(st),
    ensures
        0 <= stencil_loc(st, w, h, d, k).0 < w,
        0 <= stencil_loc(st, w, h, d, k).1 < h,
        in_shape(st, w, h, stencil_loc(st, w, h, d, k).0, stencil_loc(st, w, h, d, k).1),
        k != k2 ==> stencil_loc(st, w, h, d, k) != stencil_loc(st, w, h, d, k2),
{
    assert(2 * (h / 2) <= h && h <= 2 * (h / 2) + 1);
}

} // verus!
