//! Map generation: random terrain, and the starting positions of a game.
use vstd::prelude::*;
use crate::common::{
    DIRECTIONS, Loc, MAX_AVLBL_LOC, MAX_CLASS, MAX_HEIGHT, MAX_PLAYER, MAX_WIDTH, NEUTRAL, TileClass, dir, dir_di,
    dir_dj, in_segment, min_i32, spec_in_segment, spec_min,
};
use crate::grid::{
    Grid, Layer, Tile, dims_ok, grid_wf, in_array, in_grid, is_a_city, is_inhabitable, nb_open, passable, pop,
    spec_is_a_city, tile_wf,
};
use crate::flood::{floodfill_closest, near_post};
use crate::rng::{gen_index, gen_range, new_rng};

verus! {

/// Citizens that a city starts with.
pub const START_CITIZENS: i32 = 10;

/// The class of a tile drawn from `x` (out of 20), `y` (out of 6) and `m`
/// (out of 10): one tile in 20 is a city (a castle for `y == 0`, a town for
/// `y` 1 or 2, a village otherwise), four in 20 are mountains or, for
/// `m == 0`, mines, and the rest grassland.
pub open spec fn drawn_class(x: int, y: int, m: int) -> TileClass {
    if x == 0 {
        if y == 0 {
            TileClass::Castle
        } else if y <= 2 {
            TileClass::Town
        } else {
            TileClass::Village
        }
    } else if x < 5 {
        if m == 0 {
            TileClass::Mine
        } else {
            TileClass::Mountain
        }
    } else {
        TileClass::Grassland
    }
}

/// The tile `t` drawn from `x`, `y`, `m` (see `drawn_class`) and the player
/// `o`: mountains and mines belong to the neutral player and other tiles to
/// `o`; a city holds `START_CITIZENS` citizens of its owner, and no other
/// tile holds any.
pub open spec fn tile_drawn(t: Tile, x: int, y: int, m: int, o: int) -> bool {
    let cl = drawn_class(x, y, m);
    &&& t.cl == cl
    &&& t.pl == if cl == TileClass::Mountain || cl == TileClass::Mine {
        NEUTRAL as int
    } else {
        o
    }
    &&& forall|p: int|
        0 <= p < MAX_PLAYER ==> #[trigger] pop(t, p) == if spec_is_a_city(cl) && p == t.pl {
            START_CITIZENS as int
        } else {
            0
        }
}

/// The draws are in range: `x` out of 20, `y` out of 6, `m` out of 10 and a
/// player `o` other than the neutral one.
pub open spec fn draws_ok(x: int, y: int, m: int, o: int) -> bool {
    0 <= x < 20 && 0 <= y < 6 && 0 <= m < 10 && 1 <= o < MAX_PLAYER
}

/// `t` is a tile that some draws give.
pub open spec fn random_tile(t: Tile) -> bool {
    exists|x: int, y: int, m: int, o: int| draws_ok(x, y, m, o) && #[trigger] tile_drawn(t, x, y, m, o)
}

/// The tile that the draws `x`, `y`, `m` and `o` give (see `tile_drawn`).
pub fn tile_of_draws(x: i32, y: i32, m: i32, o: i32) -> (t: Tile)
    requires
        draws_ok(x as int, y as int, m as int, o as int),
    ensures
        tile_drawn(t, x as int, y as int, m as int, o as int),
        tile_wf(t),
{
    let mut cl = TileClass::Grassland;
    if x == 0 {
        cl = if y == 0 {
            TileClass::Castle
        } else if y <= 2 {
            TileClass::Town
        } else {
            TileClass::Village
        };
    }
    if x > 0 && x < 5 {
        if m == 0 {
            cl = TileClass::Mine;
        } else {
            cl = TileClass::Mountain;
        }
    }
    let mut pl = NEUTRAL as i32;
    if !(cl == TileClass::Mountain || cl == TileClass::Mine) {
        pl = o;
    }
    let mut tile = Tile { cl, pl, units: [[0; MAX_CLASS]; MAX_PLAYER] };
    if is_a_city(cl) {
        let owner = tile.pl as usize;
        tile.units[owner][0] = START_CITIZENS;
    }
    proof {
        assert forall|p: int| 0 <= p < MAX_PLAYER implies #[trigger] pop(tile, p) == if spec_is_a_city(cl) && p
            == tile.pl {
            START_CITIZENS as int
        } else {
            0
        } by {}
        assert forall|p: int| 0 <= p < MAX_PLAYER implies 0 <= #[trigger] pop(tile, p) <= crate::common::MAX_POP by {}
    }
    tile
}

/// Makes a random map of width `w` and height `h` (capped at the largest
/// map): every tile in play is drawn as `tile_of_draws` says, with `x`, `y`,
/// `m` and `o` uniform in their ranges; the tiles out of play are unchanged.
pub fn grid_init(g: &mut Grid, w: i32, h: i32)
    requires
        w >= 0,
        h >= 0,
    ensures
        final(g).width == spec_min(w as int, MAX_WIDTH as int),
        final(g).height == spec_min(h as int, MAX_HEIGHT as int),
        forall|a: int, b: int| #[trigger] in_grid(final(g), a, b) ==> random_tile(final(g).tiles[a][b]),
        forall|a: int, b: int|
            in_array(a, b) && !in_grid(final(g), a, b) ==> #[trigger] final(g).tiles[a][b] == old(g).tiles[a][b],
        (forall|a: int, b: int| in_array(a, b) ==> tile_wf(#[trigger] old(g).tiles[a][b])) ==> grid_wf(final(g)),
{
    let ghost g0 = *g;
    g.width = min_i32(w, MAX_WIDTH as i32);
    g.height = min_i32(h, MAX_HEIGHT as i32);
    let mut rng = new_rng();
    let wu = g.width;
    let hu = g.height;
    let mut i: i32 = 0;
    while i < wu
        invariant
            g.width == wu,
            g.height == hu,
            dims_ok(wu as int, hu as int),
            0 <= i <= wu,
            forall|a: int, b: int| #[trigger] in_grid(g, a, b) && a < i ==> random_tile(g.tiles[a][b]) && tile_wf(g.tiles[a][b]),
            forall|a: int, b: int| in_array(a, b) && !(in_grid(g, a, b) && a < i) ==> #[trigger] g.tiles[a][b] == g0.tiles[a][b],
        decreases wu - i,
    {
        let mut j: i32 = 0;
        while j < hu
            invariant
                g.width == wu,
                g.height == hu,
                dims_ok(wu as int, hu as int),
                0 <= i < wu,
                0 <= j <= hu,
                forall|a: int, b: int|
                    #[trigger] in_grid(g, a, b) && (a < i || (a == i && b < j)) ==> random_tile(g.tiles[a][b]) && tile_wf(g.tiles[a][b]),
                forall|a: int, b: int|
                    in_array(a, b) && !(in_grid(g, a, b) && (a < i || (a == i && b < j))) ==> #[trigger] g.tiles[a][b]
                        == g0.tiles[a][b],
            decreases hu - j,
        {
            let x = gen_range(&mut rng, 0, 20);
            let mut y: i32 = 0;
            let mut m: i32 = 0;
            let mut o: i32 = 1;
            if x == 0 {
                y = gen_range(&mut rng, 0, 6);
            }
            if x > 0 && x < 5 {
                m = gen_range(&mut rng, 0, 10);
            }
            if !(x > 0 && x < 5) {
                o = 1 + gen_range(&mut rng, 0, MAX_PLAYER as i32 - 1);
            }
            let t = tile_of_draws(x, y, m, o);
            proof {
                assert(draws_ok(x as int, y as int, m as int, o as int));
                assert(random_tile(t));
            }
            let ghost gb = *g;
            g.tiles[i as usize][j as usize] = t;
            proof {
                assert forall|a: int, b: int|
                    #[trigger] in_grid(g, a, b) && (a < i || (a == i && b < j + 1)) implies random_tile(g.tiles[a][b])
                        && tile_wf(g.tiles[a][b]) by {
                    if !(a == i && b == j) {
                        assert(in_grid(&gb, a, b));
                        assert(g.tiles[a][b] == gb.tiles[a][b]);
                    }
                }
            }
            j = j + 1;
        }
        i = i + 1;
    }
    proof {
        if forall|a: int, b: int| in_array(a, b) ==> tile_wf(#[trigger] g0.tiles[a][b]) {
            assert forall|a: int, b: int| in_array(a, b) implies tile_wf(#[trigger] g.tiles[a][b]) by {
                if !in_grid(g, a, b) {
                    assert(g.tiles[a][b] == g0.tiles[a][b]);
                } else {
                    assert(in_grid(g, a, b) && a < wu);
                }
            }
        }
    }
}

// ---------------------------------------------------------------------------
// Starting positions
// ---------------------------------------------------------------------------

/// A tile as the start of a conflict leaves it: no citizens, no owner, and a
/// city turned back to grassland.
pub open spec fn reset_tile(t0: Tile, t1: Tile) -> bool {
    &&& t1.cl == if spec_is_a_city(t0.cl) {
        TileClass::Grassland
    } else {
        t0.cl
    }
    &&& t1.pl == NEUTRAL
    &&& forall|p: int| 0 <= p < MAX_PLAYER ==> #[trigger] pop(t1, p) == 0
}

/// Clears the map in play for a conflict (see `reset_tile`); the tiles out
/// of play are unchanged.
pub fn conflict_reset(g: &mut Grid)
    requires
        dims_ok(old(g).width as int, old(g).height as int),
    ensures
        final(g).width == old(g).width,
        final(g).height == old(g).height,
        forall|a: int, b: int| #[trigger] in_grid(old(g), a, b) ==> reset_tile(old(g).tiles[a][b], final(g).tiles[a][b]),
        forall|a: int, b: int|
            in_array(a, b) && !in_grid(old(g), a, b) ==> #[trigger] final(g).tiles[a][b] == old(g).tiles[a][b],
{
    let ghost g0 = *g;
    let w = g.width as usize;
    let h = g.height as usize;
    for i in 0..w
        invariant
            w == g0.width,
            h == g0.height,
            g.width == g0.width,
            g.height == g0.height,
            dims_ok(w as int, h as int),
            forall|a: int, b: int| #[trigger] in_grid(&g0, a, b) && a < i ==> reset_tile(g0.tiles[a][b], g.tiles[a][b]),
            forall|a: int, b: int| in_array(a, b) && !(in_grid(&g0, a, b) && a < i) ==> #[trigger] g.tiles[a][b] == g0.tiles[a][b],
    {
        for j in 0..h
            invariant
                w == g0.width,
                h == g0.height,
                g.width == g0.width,
                g.height == g0.height,
                dims_ok(w as int, h as int),
                i < w,
                forall|a: int, b: int|
                    #[trigger] in_grid(&g0, a, b) && (a < i || (a == i && b < j)) ==> reset_tile(g0.tiles[a][b], g.tiles[a][b]),
                forall|a: int, b: int|
                    in_array(a, b) && !(in_grid(&g0, a, b) && (a < i || (a == i && b < j))) ==> #[trigger] g.tiles[a][b]
                        == g0.tiles[a][b],
        {
            let ghost gb = *g;
            let cl = g.tiles[i][j].cl;
            let ncl = if is_a_city(cl) {
                TileClass::Grassland
            } else {
                cl
            };
            g.tiles[i][j] = Tile { cl: ncl, pl: NEUTRAL as i32, units: [[0; MAX_CLASS]; MAX_PLAYER] };
            proof {
                assert forall|a: int, b: int|
                    #[trigger] in_grid(&g0, a, b) && (a < i || (a == i && b < j + 1)) implies reset_tile(
                    g0.tiles[a][b],
                    g.tiles[a][b],
                ) by {
                    if !(a == i && b == j) {
                        assert(g.tiles[a][b] == gb.tiles[a][b]);
                    } else {
                        assert forall|p: int| 0 <= p < MAX_PLAYER implies #[trigger] pop(g.tiles[a][b], p) == 0 by {}
                    }
                }
            }
        }
    }
}

/// A starting location lies at least two tiles from the edges of the arrays,
/// so that the mines around a castle fit.
pub open spec fn start_loc_ok(l: Loc) -> bool {
    2 <= l.i < MAX_WIDTH - 2 && 2 <= l.j < MAX_HEIGHT - 2
}

/// The tiles around a castle at `l`, with `r` the direction drawn for it: a
/// castle at `l`, mines at `l + r` and `l - 2r` and grassland at `l - r`, the
/// mines and the grassland without owner; the rest of the map is unchanged.
pub open spec fn castle_placed(g0: &Grid, g1: &Grid, l: Loc, ri: int, rj: int) -> bool {
    let x = l.i as int;
    let y = l.j as int;
    &&& g1.width == g0.width
    &&& g1.height == g0.height
    &&& forall|a: int, b: int|
        in_array(a, b) ==> #[trigger] g1.tiles[a][b] == if a == x - ri && b == y - rj {
            Tile { cl: TileClass::Grassland, pl: NEUTRAL as i32, ..g0.tiles[a][b] }
        } else if a == x - 2 * ri && b == y - 2 * rj {
            Tile { cl: TileClass::Mine, pl: NEUTRAL as i32, ..g0.tiles[a][b] }
        } else if a == x + ri && b == y + rj {
            Tile { cl: TileClass::Mine, pl: NEUTRAL as i32, ..g0.tiles[a][b] }
        } else if a == x && b == y {
            Tile { cl: TileClass::Castle, ..g0.tiles[a][b] }
        } else {
            g0.tiles[a][b]
        }
}

/// The location taken by the `i`-th castle: the locations are taken in
/// turn, starting from the `di`-th.
pub open spec fn chosen_loc(loc_arr: [Loc; MAX_AVLBL_LOC], avail: int, di: int, i: int) -> Loc {
    loc_arr[(i + di) % avail]
}

/// The grids `gs` go from `g0` to the map with the first `num` castles placed
/// in turn at the chosen locations, each with its drawn direction.
pub open spec fn castles_placed(
    g0: &Grid,
    gs: Seq<Grid>,
    loc_arr: [Loc; MAX_AVLBL_LOC],
    avail: int,
    di: int,
    dirs: Seq<int>,
    num: int,
) -> bool {
    &&& gs.len() == num + 1
    &&& dirs.len() == num
    &&& gs[0] == *g0
    &&& forall|i: int| 0 <= i < num ==> 0 <= #[trigger] dirs[i] < DIRECTIONS
    &&& forall|i: int|
        0 <= i < num ==> castle_placed(
            &gs[i],
            #[trigger] &gs[i + 1],
            chosen_loc(loc_arr, avail, di, i),
            dir_di(dirs[i]),
            dir_dj(dirs[i]),
        )
}

/// Number of castles of a conflict: the number of locations asked for,
/// between 2 and the number available, and no more than the players.
pub open spec fn castles_num(locations_num: int, avail: int, players_total: int) -> int {
    spec_min(spec_in_segment(locations_num, 2, avail), players_total)
}

/// Places the castles of a conflict: `num` castles (see `castles_num`) at
/// the available locations taken in turn from a random one, each with two
/// mines and a grassland tile in a random direction (see `castle_placed`).
/// Returns the castles' locations and their number.
pub fn place_castles(
    g: &mut Grid,
    loc_arr: &[Loc; MAX_AVLBL_LOC],
    avail: i32,
    players_total: i32,
    locations_num: i32,
) -> (res: ([Loc; MAX_AVLBL_LOC], usize))
    requires
        1 <= avail <= MAX_AVLBL_LOC,
        forall|k: int| 0 <= k < avail ==> start_loc_ok(#[trigger] loc_arr[k]),
        0 <= players_total,
    ensures
        res.1 == castles_num(locations_num as int, avail as int, players_total as int),
        exists|gs: Seq<Grid>, di: int, dirs: Seq<int>|
            0 <= di < avail && #[trigger] castles_placed(old(g), gs, *loc_arr, avail as int, di, dirs, res.1 as int)
                && gs[res.1 as int] == *final(g) && forall|i: int|
                0 <= i < res.1 ==> #[trigger] res.0[i] == chosen_loc(*loc_arr, avail as int, di, i),
{
    let ghost g0 = *g;
    let mut rng = new_rng();
    let locations = in_segment(locations_num, 2, avail);
    let num_i = min_i32(locations, players_total);
    let num: usize = if num_i < 0 {
        0
    } else {
        num_i as usize
    };
    let di = gen_range(&mut rng, 0, avail);
    let mut chosen = [Loc { i: 0, j: 0 }; MAX_AVLBL_LOC];
    let ghost mut gs: Seq<Grid> = seq![*g];
    let ghost mut dirs: Seq<int> = Seq::empty();
    let mut i: usize = 0;
    while i < num
        invariant
            num == castles_num(locations_num as int, avail as int, players_total as int),
            num <= MAX_AVLBL_LOC,
            1 <= avail <= MAX_AVLBL_LOC,
            0 <= di < avail,
            forall|k: int| 0 <= k < avail ==> start_loc_ok(#[trigger] loc_arr[k]),
            0 <= i <= num,
            castles_placed(&g0, gs, *loc_arr, avail as int, di as int, dirs, i as int),
            gs[i as int] == *g,
            forall|t: int| 0 <= t < i ==> #[trigger] chosen[t] == chosen_loc(*loc_arr, avail as int, di as int, t),
        decreases num - i,
    {
        let ii = ((i as i32 + di) % avail) as usize;
        let l = loc_arr[ii];
        chosen[i] = l;
        let x = l.i;
        let y = l.j;
        let d = gen_range(&mut rng, 0, DIRECTIONS as i32) as usize;
        let r = dir(d);
        let ghost gb = *g;
        proof {
            assert(start_loc_ok(loc_arr[ii as int]));
        }
        g.tiles[x as usize][y as usize].cl = TileClass::Castle;
        g.tiles[(x + r.i) as usize][(y + r.j) as usize].cl = TileClass::Mine;
        g.tiles[(x + r.i) as usize][(y + r.j) as usize].pl = NEUTRAL as i32;
        g.tiles[(x - 2 * r.i) as usize][(y - 2 * r.j) as usize].cl = TileClass::Mine;
        g.tiles[(x - 2 * r.i) as usize][(y - 2 * r.j) as usize].pl = NEUTRAL as i32;
        g.tiles[(x - r.i) as usize][(y - r.j) as usize].cl = TileClass::Grassland;
        g.tiles[(x - r.i) as usize][(y - r.j) as usize].pl = NEUTRAL as i32;
        proof {
            assert(castle_placed(&gb, g, l, dir_di(d as int), dir_dj(d as int)));
            let gs1 = gs.push(*g);
            let dirs1 = dirs.push(d as int);
            assert forall|t: int| 0 <= t < i + 1 implies castle_placed(
                &gs1[t],
                #[trigger] &gs1[t + 1],
                chosen_loc(*loc_arr, avail as int, di as int, t),
                dir_di(dirs1[t]),
                dir_dj(dirs1[t]),
            ) by {
                if t < i {
                    assert(gs1[t] == gs[t] && gs1[t + 1] == gs[t + 1] && dirs1[t] == dirs[t]);
                }
            }
            gs = gs1;
            dirs = dirs1;
        }
        i = i + 1;
    }
    proof {
        assert(castles_placed(&g0, gs, *loc_arr, avail as int, di as int, dirs, num as int));
    }
    (chosen, num)
}

// ---------------------------------------------------------------------------
// Evaluating the locations
// ---------------------------------------------------------------------------

/// A distance that no search reaches: one more than the number of positions.
pub const FAR: i32 = 1161;

/// What a mine contributes to the evaluation of a starting location: the
/// location whose search reached all its reached passable neighbours first,
/// and the largest and smallest distance at which they were reached.
#[derive(Clone, Copy, Debug)]
pub struct MineClaim {
    pub loc: i32,
    pub max_dist: i32,
    pub min_dist: i32,
}

/// A claim as a triple of integers.
pub open spec fn claim_view(c: MineClaim) -> (int, int, int) {
    (c.loc as int, c.max_dist as int, c.min_dist as int)
}

/// The searches start with every position far, and every position in play unlabelled (-1).
pub open spec fn search_start(g: &Grid, u: Layer, d: Layer) -> bool {
    forall|a: int, b: int| in_array(a, b) ==> #[trigger] d[a][b] == FAR && (in_grid(g, a, b) ==> u[a][b] == -1)
}

/// The layers `us` and `ds` of the searches from the first `len` locations in
/// turn, the `k`-th labelling with `k` the positions that it reaches first
/// (see `near_post`).
pub open spec fn searched(g: &Grid, loc: [Loc; MAX_AVLBL_LOC], len: int, us: Seq<Layer>, ds: Seq<Layer>) -> bool {
    &&& us.len() == len + 1
    &&& ds.len() == len + 1
    &&& search_start(g, us[0], ds[0])
    &&& forall|k: int|
        0 <= k < len ==> #[trigger] near_post(g, us[k], ds[k], us[k + 1], ds[k + 1], loc[k].i as int, loc[k].j as int, k as i32, 0)
}

/// The neighbour of `(i, j)` in direction `k` is passable and labelled.
pub open spec fn reached_nb(g: &Grid, u: Layer, i: int, j: int, k: int) -> bool {
    nb_open(g, i, j, k) && u[i + dir_di(k)][j + dir_dj(k)] >= 0
}

/// The value of layer `l` at the neighbour of `(i, j)` in direction `k`.
pub open spec fn nb_val(l: Layer, i: int, j: int, k: int) -> int {
    l[i + dir_di(k)][j + dir_dj(k)] as int
}

/// Some neighbour of `(i, j)` is reached, and all reached ones carry the same label.
pub open spec fn claimable(g: &Grid, u: Layer, i: int, j: int) -> bool {
    &&& exists|k: int| 0 <= k < DIRECTIONS && #[trigger] reached_nb(g, u, i, j, k)
    &&& forall|k1: int, k2: int|
        0 <= k1 < DIRECTIONS && 0 <= k2 < DIRECTIONS && #[trigger] reached_nb(g, u, i, j, k1) && #[trigger] reached_nb(
            g,
            u,
            i,
            j,
            k2,
        ) ==> nb_val(u, i, j, k1) == nb_val(u, i, j, k2)
}

/// `c` is the claim at `(i, j)`: the common label of the reached neighbours,
/// and their largest and smallest distance.
pub open spec fn claim_is(g: &Grid, u: Layer, d: Layer, i: int, j: int, c: (int, int, int)) -> bool {
    &&& forall|k: int| 0 <= k < DIRECTIONS && #[trigger] reached_nb(g, u, i, j, k) ==> nb_val(u, i, j, k) == c.0
    &&& exists|k: int| 0 <= k < DIRECTIONS && #[trigger] reached_nb(g, u, i, j, k) && nb_val(d, i, j, k) == c.1
    &&& forall|k: int| 0 <= k < DIRECTIONS && #[trigger] reached_nb(g, u, i, j, k) ==> nb_val(d, i, j, k) <= c.1
    &&& exists|k: int| 0 <= k < DIRECTIONS && #[trigger] reached_nb(g, u, i, j, k) && nb_val(d, i, j, k) == c.2
    &&& forall|k: int| 0 <= k < DIRECTIONS && #[trigger] reached_nb(g, u, i, j, k) ==> nb_val(d, i, j, k) >= c.2
}

proof fn lemma_claim_unique(g: &Grid, u: Layer, d: Layer, i: int, j: int, c1: (int, int, int), c2: (int, int, int))
    requires
        claim_is(g, u, d, i, j, c1),
        claim_is(g, u, d, i, j, c2),
    ensures
        c1 == c2,
{
    let k1 = choose|k: int| 0 <= k < DIRECTIONS && #[trigger] reached_nb(g, u, i, j, k) && nb_val(d, i, j, k) == c1.1;
    let k2 = choose|k: int| 0 <= k < DIRECTIONS && #[trigger] reached_nb(g, u, i, j, k) && nb_val(d, i, j, k) == c2.1;
    let k3 = choose|k: int| 0 <= k < DIRECTIONS && #[trigger] reached_nb(g, u, i, j, k) && nb_val(d, i, j, k) == c1.2;
    let k4 = choose|k: int| 0 <= k < DIRECTIONS && #[trigger] reached_nb(g, u, i, j, k) && nb_val(d, i, j, k) == c2.2;
    assert(nb_val(u, i, j, k1) == c1.0);
    assert(nb_val(u, i, j, k1) == c2.0);
}

/// The claim of the mine at `(i, j)`, if the tile is a mine and some location claims it.
pub open spec fn mine_claim(g: &Grid, u: Layer, d: Layer, i: int, j: int) -> Option<(int, int, int)> {
    if g.tiles[i][j].cl == TileClass::Mine && claimable(g, u, i, j) {
        Some(choose|c: (int, int, int)| claim_is(g, u, d, i, j, c))
    } else {
        None
    }
}

/// The claims of the mines of column `a`, rows below `n`, in order.
pub open spec fn col_claims(g: &Grid, u: Layer, d: Layer, a: int, n: int) -> Seq<(int, int, int)>
    decreases n,
{
    if n <= 0 {
        Seq::empty()
    } else {
        col_claims(g, u, d, a, n - 1) + match mine_claim(g, u, d, a, n - 1) {
            Some(c) => seq![c],
            None => Seq::empty(),
        }
    }
}

/// The claims of the mines in play of the columns below `n`, column by column.
pub open spec fn claims_upto(g: &Grid, u: Layer, d: Layer, n: int) -> Seq<(int, int, int)>
    decreases n,
{
    if n <= 0 {
        Seq::empty()
    } else {
        claims_upto(g, u, d, n - 1) + col_claims(g, u, d, n - 1, g.height as int)
    }
}

/// Labels of the positions in play are below `len` (or -1), distances between 0 and `FAR`.
pub open spec fn layers_ok(g: &Grid, u: Layer, d: Layer, len: int) -> bool {
    forall|a: int, b: int|
        in_array(a, b) ==> 0 <= #[trigger] d[a][b] <= FAR && (in_grid(g, a, b) ==> -1 <= u[a][b] < len)
}

/// The claim of the mine at `(i, j)` (see `claim_is`), if some location claims it.
fn claim_of(g: &Grid, u: &Layer, d: &Layer, i: i32, j: i32, Ghost(len): Ghost<int>) -> (r: Option<MineClaim>)
    requires
        dims_ok(g.width as int, g.height as int),
        in_grid(g, i as int, j as int),
        layers_ok(g, *u, *d, len),
        0 <= len,
    ensures
        r is None <==> !claimable(g, *u, i as int, j as int),
        r matches Some(c) ==> claim_is(g, *u, *d, i as int, j as int, claim_view(c)) && 0 <= c.loc < len,
{
    let ghost ii = i as int;
    let ghost jj = j as int;
    let mut single: i32 = -1;
    let mut maxd: i32 = 0;
    let mut mind: i32 = FAR;
    let ghost mut w1: int = 0;
    let ghost mut w2: int = 0;
    let ghost mut wa: int = 0;
    let ghost mut wb: int = 0;
    for k in 0..DIRECTIONS
        invariant
            dims_ok(g.width as int, g.height as int),
            in_grid(g, ii, jj),
            ii == i,
            jj == j,
            layers_ok(g, *u, *d, len),
            0 <= len,
            -2 <= single < len,
            single == -1 ==> forall|m: int| 0 <= m < k ==> !#[trigger] reached_nb(g, *u, ii, jj, m),
            single >= 0 ==> {
                &&& forall|m: int| 0 <= m < k && #[trigger] reached_nb(g, *u, ii, jj, m) ==> nb_val(*u, ii, jj, m) == single
                &&& 0 <= wa < k && reached_nb(g, *u, ii, jj, wa) && nb_val(*d, ii, jj, wa) == maxd
                &&& forall|m: int| 0 <= m < k && #[trigger] reached_nb(g, *u, ii, jj, m) ==> nb_val(*d, ii, jj, m) <= maxd
                &&& 0 <= wb < k && reached_nb(g, *u, ii, jj, wb) && nb_val(*d, ii, jj, wb) == mind
                &&& forall|m: int| 0 <= m < k && #[trigger] reached_nb(g, *u, ii, jj, m) ==> nb_val(*d, ii, jj, m) >= mind
            },
            single == -2 ==> 0 <= w1 < k && 0 <= w2 < k && reached_nb(g, *u, ii, jj, w1) && reached_nb(g, *u, ii, jj, w2)
                && nb_val(*u, ii, jj, w1) != nb_val(*u, ii, jj, w2),
    {
        let dk = dir(k);
        let x = i + dk.i;
        let y = j + dk.j;
        let open = x >= 0 && x < g.width && y >= 0 && y < g.height && is_inhabitable(g.tiles[x as usize][y as usize].cl);
        proof {
            assert(nb_open(g, ii, jj, k as int) == open);
        }
        if open {
            let xu = x as usize;
            let yu = y as usize;
            proof {
                assert(in_array(x as int, y as int));
                assert(nb_val(*u, ii, jj, k as int) == u[x as int][y as int]);
                assert(nb_val(*d, ii, jj, k as int) == d[x as int][y as int]);
                assert(0 <= d[x as int][y as int] <= FAR && -1 <= u[x as int][y as int] < len);
            }
            if single == -1 {
                single = u[xu][yu];
                maxd = d[xu][yu];
                mind = d[xu][yu];
                proof {
                    wa = k as int;
                    wb = k as int;
                }
            } else if u[xu][yu] == single {
                proof {
                    assert(reached_nb(g, *u, ii, jj, k as int));
                }
                if d[xu][yu] > maxd {
                    maxd = d[xu][yu];
                    proof {
                        wa = k as int;
                    }
                }
                if d[xu][yu] < mind {
                    mind = d[xu][yu];
                    proof {
                        wb = k as int;
                    }
                }
            } else if u[xu][yu] != -1 {
                proof {
                    if single >= 0 {
                        w1 = wa;
                        w2 = k as int;
                        assert(reached_nb(g, *u, ii, jj, k as int));
                    }
                }
                single = -2;
            }
        }
    }
    if single >= 0 {
        let c = MineClaim { loc: single, max_dist: maxd, min_dist: mind };
        proof {
            assert(reached_nb(g, *u, ii, jj, wa));
            assert(claim_is(g, *u, *d, ii, jj, claim_view(c)));
        }
        Some(c)
    } else {
        proof {
            if single == -2 {
                assert(reached_nb(g, *u, ii, jj, w1) && reached_nb(g, *u, ii, jj, w2));
            }
        }
        None
    }
}

/// The claims as triples of integers.
pub open spec fn claims_view(claims: Seq<MineClaim>) -> Seq<(int, int, int)> {
    claims.map_values(|c: MineClaim| claim_view(c))
}

/// Evaluates the starting locations `loc[0..len]`: a search from each
/// location in turn labels with the location's index the passable positions
/// that it reaches first (see `searched`); then every mine in play whose
/// reached neighbours all carry one label gives a claim for that location
/// (see `claim_is`). Returns the claims, column by column; what a claim is
/// worth is left to the caller.
pub fn eval_locations(g: &Grid, loc: &[Loc; MAX_AVLBL_LOC], len: usize) -> (claims: Vec<MineClaim>)
    requires
        dims_ok(g.width as int, g.height as int),
        len <= MAX_AVLBL_LOC,
    ensures
        exists|us: Seq<Layer>, ds: Seq<Layer>|
            #[trigger] searched(g, *loc, len as int, us, ds) && claims_view(claims@) == claims_upto(
                g,
                us[len as int],
                ds[len as int],
                g.width as int,
            ),
        forall|t: int| 0 <= t < claims.len() ==> 0 <= #[trigger] claims@[t].loc < len,
{
    let mut u: Layer = [[0i32; MAX_HEIGHT]; MAX_WIDTH];
    let mut d: Layer = [[FAR; MAX_HEIGHT]; MAX_WIDTH];
    let w = g.width as usize;
    let h = g.height as usize;
    for i in 0..w
        invariant
            w == g.width,
            h == g.height,
            dims_ok(g.width as int, g.height as int),
            forall|a: int, b: int| in_array(a, b) ==> #[trigger] d[a][b] == FAR,
            forall|a: int, b: int| #[trigger] in_grid(g, a, b) && a < i ==> u[a][b] == -1,
    {
        for j in 0..h
            invariant
                w == g.width,
                h == g.height,
                dims_ok(g.width as int, g.height as int),
                i < w,
                forall|a: int, b: int| in_array(a, b) ==> #[trigger] d[a][b] == FAR,
                forall|a: int, b: int| #[trigger] in_grid(g, a, b) && (a < i || (a == i && b < j)) ==> u[a][b] == -1,
        {
            d[i][j] = FAR;
            u[i][j] = -1;
        }
    }
    proof {
        assert(search_start(g, u, d));
    }
    let ghost mut us: Seq<Layer> = seq![u];
    let ghost mut ds: Seq<Layer> = seq![d];
    for k in 0..len
        invariant
            dims_ok(g.width as int, g.height as int),
            len <= MAX_AVLBL_LOC,
            us.len() == k + 1,
            ds.len() == k + 1,
            search_start(g, us[0], ds[0]),
            forall|t: int|
                0 <= t < k ==> #[trigger] near_post(
                    g,
                    us[t],
                    ds[t],
                    us[t + 1],
                    ds[t + 1],
                    loc[t].i as int,
                    loc[t].j as int,
                    t as i32,
                    0,
                ),
            us[k as int] == u,
            ds[k as int] == d,
            layers_ok(g, u, d, k as int),
    {
        let ghost u0 = u;
        let ghost d0 = d;
        floodfill_closest(g, &mut u, &mut d, loc[k].i, loc[k].j, k as i32, 0);
        proof {
            assert forall|a: int, b: int| in_array(a, b) implies 0 <= #[trigger] d[a][b] <= FAR && (in_grid(g, a, b)
                ==> -1 <= u[a][b] < k + 1) by {
                assert(d[a][b] <= d0[a][b]);
                assert(0 <= d0[a][b] <= FAR);
            }
            let us1 = us.push(u);
            let ds1 = ds.push(d);
            assert forall|t: int| 0 <= t < k + 1 implies #[trigger] near_post(
                g,
                us1[t],
                ds1[t],
                us1[t + 1],
                ds1[t + 1],
                loc[t].i as int,
                loc[t].j as int,
                t as i32,
                0,
            ) by {
                if t < k {
                    assert(us1[t] == us[t] && us1[t + 1] == us[t + 1] && ds1[t] == ds[t] && ds1[t + 1] == ds[t + 1]);
                }
            }
            us = us1;
            ds = ds1;
        }
    }
    proof {
        assert(searched(g, *loc, len as int, us, ds));
    }
    let mut claims: Vec<MineClaim> = Vec::new();
    for i in 0..w
        invariant
            w == g.width,
            h == g.height,
            dims_ok(g.width as int, g.height as int),
            layers_ok(g, u, d, len as int),
            claims_view(claims@) == claims_upto(g, u, d, i as int),
            forall|t: int| 0 <= t < claims.len() ==> 0 <= #[trigger] claims@[t].loc < len,
    {
        for j in 0..h
            invariant
                w == g.width,
                h == g.height,
                dims_ok(g.width as int, g.height as int),
                i < w,
                layers_ok(g, u, d, len as int),
                claims_view(claims@) == claims_upto(g, u, d, i as int) + col_claims(g, u, d, i as int, j as int),
                forall|t: int| 0 <= t < claims.len() ==> 0 <= #[trigger] claims@[t].loc < len,
        {
            let ghost before = claims@;
            if g.tiles[i][j].cl == TileClass::Mine {
                let r = claim_of(g, &u, &d, i as i32, j as i32, Ghost(len as int));
                match r {
                    Some(c) => {
                        claims.push(c);
                        proof {
                            let cc = choose|c2: (int, int, int)| claim_is(g, u, d, i as int, j as int, c2);
                            lemma_claim_unique(g, u, d, i as int, j as int, cc, claim_view(c));
                            assert(mine_claim(g, u, d, i as int, j as int) == Some(claim_view(c)));
                            assert(claims_view(claims@) =~= claims_view(before).push(claim_view(c)));
                        }
                    },
                    None => {
                        proof {
                            assert(mine_claim(g, u, d, i as int, j as int) is None);
                        }
                    },
                }
            } else {
                proof {
                    assert(mine_claim(g, u, d, i as int, j as int) is None);
                }
            }
            proof {
                assert(claims_view(claims@) =~= claims_upto(g, u, d, i as int) + col_claims(g, u, d, i as int, j + 1));
            }
        }
    }
    claims
}

// ---------------------------------------------------------------------------
// Ranking the locations
// ---------------------------------------------------------------------------

/// `perm` rearranges the positions `0..n`: each is taken exactly once.
pub open spec fn is_perm(perm: Seq<int>, n: int) -> bool {
    &&& perm.len() == n
    &&& forall|t: int| 0 <= t < n ==> 0 <= #[trigger] perm[t] < n
    &&& forall|a: int, b: int| 0 <= a < n && 0 <= b < n && a != b ==> #[trigger] perm[a] != #[trigger] perm[b]
}

/// `v1` is `v0` with its first `n` entries rearranged by `perm`.
pub open spec fn rearranged(v0: Seq<i32>, v1: Seq<i32>, perm: Seq<int>, n: int) -> bool {
    &&& v1.len() == v0.len()
    &&& forall|t: int| 0 <= t < n ==> #[trigger] v1[t] == v0[perm[t]]
    &&& forall|t: int| n <= t < v0.len() ==> #[trigger] v1[t] == v0[t]
}

/// `k` is the first position of `[i, n)` that holds the smallest of the values `v[i..n]`.
pub open spec fn first_min(v: Seq<i32>, i: int, n: int, k: int) -> bool {
    &&& i <= k < n
    &&& forall|t: int| i <= t < n ==> v[k] <= #[trigger] v[t]
    &&& forall|t: int| i <= t < k ==> #[trigger] v[t] > v[k]
}

/// Step `i` of the sort: the entry `i` of values and items is swapped with
/// the first smallest value from `i` on (see `first_min`).
pub open spec fn selection_step(v1: Seq<i32>, t1: Seq<i32>, v2: Seq<i32>, t2: Seq<i32>, i: int, n: int) -> bool {
    exists|k: int|
        #[trigger] first_min(v1, i, n, k) && v2 == v1.update(i, v1[k]).update(k, v1[i]) && t2 == t1.update(i, t1[k]).update(
            k,
            t1[i],
        )
}

/// The values and items `vs` before and after each step of the sort of the first `n` entries.
pub open spec fn selection_trace(vs: Seq<(Seq<i32>, Seq<i32>)>, n: int) -> bool {
    let steps = if n > 0 { n - 1 } else { 0 };
    &&& vs.len() == steps + 1
    &&& forall|i: int|
        0 <= i < steps ==> #[trigger] selection_step(vs[i].0, vs[i].1, vs[i + 1].0, vs[i + 1].1, i, n)
}

/// Sorts the first `len` values of `val` in increasing order by selection
/// (see `selection_trace`), moving the entries of `item` along with them.
pub fn sort_increasing(val: &mut [i32], item: &mut [i32], len: usize)
    requires
        len <= old(val)@.len(),
        len <= old(item)@.len(),
    ensures
        exists|perm: Seq<int>|
            #[trigger] is_perm(perm, len as int) && rearranged(old(val)@, final(val)@, perm, len as int)
                && rearranged(old(item)@, final(item)@, perm, len as int),
        forall|a: int, b: int| 0 <= a <= b < len ==> #[trigger] final(val)@[a] <= #[trigger] final(val)@[b],
        exists|vs: Seq<(Seq<i32>, Seq<i32>)>|
            #[trigger] selection_trace(vs, len as int) && vs[0] == (old(val)@, old(item)@) && vs[vs.len() - 1] == (
            final(val)@,
            final(item)@,
        ),
{
    let ghost v0 = val@;
    let ghost i0 = item@;
    let ghost mut vs: Seq<(Seq<i32>, Seq<i32>)> = seq![(val@, item@)];
    let ghost mut perm: Seq<int> = Seq::new(len as nat, |t: int| t);
    let n = if len > 0 {
        len - 1
    } else {
        0
    };
    for i in 0..n
        invariant
            n == if len > 0 { len - 1 } else { 0 },
            len <= v0.len(),
            len <= i0.len(),
            val@.len() == v0.len(),
            item@.len() == i0.len(),
            is_perm(perm, len as int),
            rearranged(v0, val@, perm, len as int),
            rearranged(i0, item@, perm, len as int),
            forall|a: int, b: int| 0 <= a <= b < i ==> #[trigger] val@[a] <= #[trigger] val@[b],
            forall|a: int, b: int| 0 <= a < i && i <= b < len ==> #[trigger] val@[a] <= #[trigger] val@[b],
            vs.len() == i + 1,
            vs[0] == (v0, i0),
            vs[i as int] == (val@, item@),
            forall|t: int|
                0 <= t < i ==> #[trigger] selection_step(vs[t].0, vs[t].1, vs[t + 1].0, vs[t + 1].1, t, len as int),
    {
        let mut k = i;
        for j in (i + 1)..len
            invariant
                i < len,
                i <= k < len,
                k < j || j == i + 1,
                i <= k,
                k <= j,
                len <= val@.len(),
                forall|t: int| i <= t < j ==> val@[k as int] <= #[trigger] val@[t],
                forall|t: int| i <= t < k ==> #[trigger] val@[t] > val@[k as int],
        {
            if val[j] < val[k] {
                k = j;
            }
        }
        let vi = val[i];
        let vk = val[k];
        let ti = item[i];
        let tk = item[k];
        let ghost pv = val@;
        let ghost pi = item@;
        proof {
            assert(first_min(pv, i as int, len as int, k as int));
        }
        val[i] = vk;
        val[k] = vi;
        item[i] = tk;
        item[k] = ti;
        proof {
            let p1 = perm.update(i as int, perm[k as int]).update(k as int, perm[i as int]);
            assert forall|a: int, b: int| 0 <= a < len && 0 <= b < len && a != b implies #[trigger] p1[a] != #[trigger] p1[b] by {
                if a != i && a != k && b != i && b != k {
                    assert(perm[a] != perm[b]);
                } else if a == i && b != k {
                    assert(perm[k as int] != perm[b]);
                } else if a == k && b != i {
                    assert(perm[i as int] != perm[b]);
                } else if b == i && a != k {
                    assert(perm[k as int] != perm[a]);
                } else if b == k && a != i {
                    assert(perm[i as int] != perm[a]);
                }
            }
            assert(is_perm(p1, len as int));
            assert forall|t: int| 0 <= t < len implies #[trigger] val@[t] == v0[p1[t]] by {
                if t != i && t != k {
                    assert(val@[t] == pv[t]);
                }
            }
            assert forall|t: int| 0 <= t < len implies #[trigger] item@[t] == i0[p1[t]] by {
                if t != i && t != k {
                    assert(item@[t] == pi[t]);
                }
            }
            perm = p1;
            assert(val@ =~= pv.update(i as int, pv[k as int]).update(k as int, pv[i as int]));
            assert(item@ =~= pi.update(i as int, pi[k as int]).update(k as int, pi[i as int]));
            assert(selection_step(pv, pi, val@, item@, i as int, len as int));
            let vs1 = vs.push((val@, item@));
            assert forall|t: int| 0 <= t < i + 1 implies #[trigger] selection_step(
                vs1[t].0,
                vs1[t].1,
                vs1[t + 1].0,
                vs1[t + 1].1,
                t,
                len as int,
            ) by {
                if t < i {
                    assert(vs1[t] == vs[t] && vs1[t + 1] == vs[t + 1]);
                } else {
                    assert(vs1[t] == (pv, pi) && vs1[t + 1] == (val@, item@));
                }
            }
            vs = vs1;
            assert forall|a: int, b: int| 0 <= a < i + 1 && i + 1 <= b < len implies #[trigger] val@[a] <= #[trigger] val@[b] by {
                if a < i {
                    assert(pv[a as int] <= pv[b]);
                    assert(pv[a as int] <= pv[k as int]);
                } else {
                    if b == k {
                        assert(pv[k as int] <= pv[i as int]);
                    } else {
                        assert(pv[k as int] <= pv[b]);
                    }
                }
            }
            assert forall|a: int, b: int| 0 <= a <= b < i + 1 implies #[trigger] val@[a] <= #[trigger] val@[b] by {
                if b < i {
                    assert(pv[a] <= pv[b]);
                } else if a < i {
                    assert(pv[a] <= pv[k as int]);
                }
            }
        }
    }
    proof {
        assert(is_perm(perm, len as int));
        assert(selection_trace(vs, len as int));
        assert forall|a: int, b: int| 0 <= a <= b < len implies #[trigger] val@[a] <= #[trigger] val@[b] by {
            if b >= n {
                if a < n {
                    assert(val@[a] <= val@[b]);
                }
            }
        }
    }
}

/// Sum of the first `n` values.
pub open spec fn sum_upto(v: Seq<i32>, n: int) -> int
    decreases n,
{
    if n <= 0 {
        0
    } else {
        sum_upto(v, n - 1) + v[n - 1]
    }
}

/// Sum of the squares of the first `n` values.
pub open spec fn sq_sum_upto(v: Seq<i32>, n: int) -> int
    decreases n,
{
    if n <= 0 {
        0
    } else {
        sq_sum_upto(v, n - 1) + v[n - 1] * v[n - 1]
    }
}

/// `n^2` times the variance of the first `n` values.
pub open spec fn var_n2(v: Seq<i32>, n: int) -> int {
    n * sq_sum_upto(v, n) - sum_upto(v, n) * sum_upto(v, n)
}

/// The inequality of the first `n` values, in thousandths of their mean (the
/// standard deviation times 1000 over the mean), is at most `t`; never when
/// the sum is 0 (the ratio is undefined), always when it is negative.
pub open spec fn ineq_at_most(v: Seq<i32>, n: int, t: int) -> bool {
    let s = sum_upto(v, n);
    if s > 0 {
        1000000 * var_n2(v, n) <= t * t * (s * s)
    } else {
        s < 0
    }
}

/// The inequality exceeds `t` (never when the sum is not positive).
pub open spec fn ineq_above(v: Seq<i32>, n: int, t: int) -> bool {
    let s = sum_upto(v, n);
    s > 0 && 1000000 * var_n2(v, n) > t * t * (s * s)
}

/// The inequality of the evaluations falls in the band that `ineq` asks for:
/// 0 up to 50, 1 above 50 up to 100, 2 above 100 up to 250, 3 above 250 up
/// to 500, 4 above 500; any other value asks for nothing.
pub open spec fn ineq_band_ok(v: Seq<i32>, n: int, ineq: int) -> bool {
    if ineq == 0 {
        ineq_at_most(v, n, 50)
    } else if ineq == 1 {
        ineq_above(v, n, 50) && ineq_at_most(v, n, 100)
    } else if ineq == 2 {
        ineq_above(v, n, 100) && ineq_at_most(v, n, 250)
    } else if ineq == 3 {
        ineq_above(v, n, 250) && ineq_at_most(v, n, 500)
    } else if ineq == 4 {
        ineq_above(v, n, 500)
    } else {
        true
    }
}

proof fn lemma_sums_bounds(v: Seq<i32>, n: int)
    requires
        0 <= n <= v.len(),
    ensures
        -n * 2147483648 <= sum_upto(v, n) <= n * 2147483647,
        0 <= sq_sum_upto(v, n) <= n * 4611686018427387904,
    decreases n,
{
    if n > 0 {
        lemma_sums_bounds(v, n - 1);
        let x = v[n - 1] as int;
        assert(0 <= x * x <= 4611686018427387904) by (nonlinear_arith)
            requires
                -2147483648 <= x <= 2147483647,
        ;
        assert(sq_sum_upto(v, n) == sq_sum_upto(v, n - 1) + x * x);
        assert((n - 1) * 4611686018427387904 + 4611686018427387904 == n * 4611686018427387904);
    }
}

/// Whether the inequality of the first `num` evaluations falls in the band
/// that `ineq` asks for (see `ineq_band_ok`).
pub fn inequality_ok(vals: &[i32], num: usize, ineq: i32) -> (r: bool)
    requires
        num <= vals@.len(),
        num <= MAX_AVLBL_LOC,
    ensures
        r == ineq_band_ok(vals@, num as int, ineq as int),
{
    let mut s: i128 = 0;
    let mut q: i128 = 0;
    for t in 0..num
        invariant
            num <= vals@.len(),
            num <= MAX_AVLBL_LOC,
            t <= num,
            s == sum_upto(vals@, t as int),
            q == sq_sum_upto(vals@, t as int),
    {
        proof {
            lemma_sums_bounds(vals@, t as int);
            let x = vals@[t as int] as int;
            assert(0 <= x * x <= 4611686018427387904) by (nonlinear_arith)
                requires
                    -2147483648 <= x <= 2147483647,
            ;
        }
        let x = vals[t] as i128;
        s = s + x;
        q = q + x * x;
    }
    proof {
        lemma_sums_bounds(vals@, num as int);
        assert(0 <= num * q <= 225972614902942007296) by (nonlinear_arith)
            requires
                0 <= num <= 7,
                0 <= q <= num * 4611686018427387904,
        ;
        assert(0 <= s * s <= 225972614902942007296) by (nonlinear_arith)
            requires
                -7 * 2147483648 <= s <= 7 * 2147483647,
        ;
    }
    let ss = s * s;
    let n = num as i128;
    let nq = n * q;
    let var = nq - ss;
    proof {
        assert(var == var_n2(vals@, num as int));
        assert(-225972614902942007296000000 <= 1000000 * var <= 225972614902942007296000000) by (nonlinear_arith)
            requires
                var == nq - ss,
                0 <= nq <= 225972614902942007296,
                0 <= ss <= 225972614902942007296,
        ;
        assert(0 <= 250000 * ss <= 56493153725735501824000000) by (nonlinear_arith)
            requires
                0 <= ss <= 225972614902942007296,
        ;
    }
    let at_most_50 = if s > 0 { 1000000 * var <= 2500 * ss } else { s < 0 };
    let at_most_100 = if s > 0 { 1000000 * var <= 10000 * ss } else { s < 0 };
    let at_most_250 = if s > 0 { 1000000 * var <= 62500 * ss } else { s < 0 };
    let at_most_500 = if s > 0 { 1000000 * var <= 250000 * ss } else { s < 0 };
    let above_50 = s > 0 && 1000000 * var > 2500 * ss;
    let above_100 = s > 0 && 1000000 * var > 10000 * ss;
    let above_250 = s > 0 && 1000000 * var > 62500 * ss;
    let above_500 = s > 0 && 1000000 * var > 250000 * ss;
    match ineq {
        0 => at_most_50,
        1 => above_50 && at_most_100,
        2 => above_100 && at_most_250,
        3 => above_250 && at_most_500,
        4 => above_500,
        _ => true,
    }
}

// ---------------------------------------------------------------------------
// Assigning the castles
// ---------------------------------------------------------------------------

/// `v1` is `v0` in another order: `v1[t] == v0[perm[t]]`.
pub open spec fn reordered(v0: Seq<i32>, v1: Seq<i32>) -> bool {
    exists|perm: Seq<int>| #[trigger] is_perm(perm, v0.len() as int) && rearranged(v0, v1, perm, v0.len() as int)
}

/// Swaps the entries `a` and `b` of `v`, keeping track of the rearrangement.
fn swap_entries(v: &mut Vec<i32>, a: usize, b: usize, Ghost(v0): Ghost<Seq<i32>>, Ghost(perm): Ghost<Seq<int>>) -> (p1: Ghost<Seq<int>>)
    requires
        a < old(v)@.len(),
        b < old(v)@.len(),
        is_perm(perm, v0.len() as int),
        rearranged(v0, old(v)@, perm, v0.len() as int),
    ensures
        is_perm(p1@, v0.len() as int),
        rearranged(v0, final(v)@, p1@, v0.len() as int),
{
    let va = v[a];
    let vb = v[b];
    let ghost pv = v@;
    v.set(a, vb);
    v.set(b, va);
    let ghost p1 = perm.update(a as int, perm[b as int]).update(b as int, perm[a as int]);
    proof {
        let n = v0.len() as int;
        assert forall|x: int, y: int| 0 <= x < n && 0 <= y < n && x != y implies #[trigger] p1[x] != #[trigger] p1[y] by {
            if x != a && x != b && y != a && y != b {
                assert(perm[x] != perm[y]);
            } else if x == a && y != b {
                assert(perm[b as int] != perm[y]);
            } else if x == b && y != a {
                assert(perm[a as int] != perm[y]);
            } else if y == a && x != b {
                assert(perm[b as int] != perm[x]);
            } else if y == b && x != a {
                assert(perm[a as int] != perm[x]);
            }
        }
        assert forall|t: int| 0 <= t < n implies #[trigger] v@[t] == v0[p1[t]] by {
            if t != a && t != b {
                assert(v@[t] == pv[t]);
            }
        }
    }
    Ghost(p1)
}

/// Shuffles `arr` by as many random swaps as it has entries.
pub fn shuffle(arr: &mut Vec<i32>)
    ensures
        reordered(old(arr)@, final(arr)@),
{
    let ghost v0 = arr@;
    let ghost mut perm: Seq<int> = Seq::new(v0.len(), |t: int| t);
    let mut rng = new_rng();
    let n = arr.len();
    if n == 0 {
        proof {
            assert(is_perm(perm, 0));
            assert(rearranged(v0, arr@, perm, 0));
        }
        return;
    }
    proof {
        assert(rearranged(v0, arr@, perm, v0.len() as int));
    }
    for _t in 0..n
        invariant
            n == arr@.len(),
            n == v0.len(),
            n > 0,
            is_perm(perm, v0.len() as int),
            rearranged(v0, arr@, perm, v0.len() as int),
    {
        let a = gen_index(&mut rng, n);
        let b = gen_index(&mut rng, n);
        let p1 = swap_entries(arr, a, b, Ghost(v0), Ghost(perm));
        proof {
            perm = p1@;
        }
    }
}

/// The starting tile `t0` of a castle became `t1` owned by `o`, with
/// `START_CITIZENS` citizens of `o`; its class is kept, and every other
/// player's population is kept or (where an earlier castle stood on the same
/// tile) `START_CITIZENS`.
pub open spec fn castle_owned(t0: Tile, t1: Tile, o: int) -> bool {
    &&& t1.cl == t0.cl
    &&& t1.pl == o
    &&& pop(t1, o) == START_CITIZENS
    &&& forall|p: int|
        0 <= p < MAX_PLAYER && p != o ==> #[trigger] pop(t1, p) == pop(t0, p) || pop(t1, p) == START_CITIZENS
}

/// The location of the castle ranked `i`.
pub open spec fn ranked_loc(chosen: [Loc; MAX_AVLBL_LOC], loc_index: [i32; MAX_AVLBL_LOC], i: int) -> Loc {
    chosen[loc_index[i] as int]
}

/// The castle ranked `i` is the last of the first `num` on its tile.
pub open spec fn last_on_tile(chosen: [Loc; MAX_AVLBL_LOC], loc_index: [i32; MAX_AVLBL_LOC], num: int, i: int) -> bool {
    forall|i2: int| i < i2 < num ==> #[trigger] ranked_loc(chosen, loc_index, i2) != ranked_loc(chosen, loc_index, i)
}

/// `g1` is `g0` with the castles ranked below `num` given to `owners`: each
/// castle's tile, as last written, is owned as `castle_owned` says, and no
/// other tile changed.
pub open spec fn castles_owned(
    g0: &Grid,
    g1: &Grid,
    chosen: [Loc; MAX_AVLBL_LOC],
    loc_index: [i32; MAX_AVLBL_LOC],
    num: int,
    owners: Seq<i32>,
) -> bool {
    &&& g1.width == g0.width
    &&& g1.height == g0.height
    &&& forall|a: int, b: int|
        in_array(a, b) && (forall|i: int| 0 <= i < num ==> #[trigger] ranked_loc(chosen, loc_index, i) != Loc {
            i: a as i32,
            j: b as i32,
        }) ==> #[trigger] g1.tiles[a][b] == g0.tiles[a][b]
    &&& forall|i: int|
        0 <= i < num && #[trigger] last_on_tile(chosen, loc_index, num, i) ==> castle_owned(
            g0.tiles[ranked_loc(chosen, loc_index, i).i as int][ranked_loc(chosen, loc_index, i).j as int],
            g1.tiles[ranked_loc(chosen, loc_index, i).i as int][ranked_loc(chosen, loc_index, i).j as int],
            owners[i] as int,
        )
}

/// Gives the castle ranked `i` to `o` for `i < num` (see `castles_owned`).
fn give_castles(
    g: &mut Grid,
    chosen: &[Loc; MAX_AVLBL_LOC],
    loc_index: &[i32; MAX_AVLBL_LOC],
    num: usize,
    owners: &Vec<i32>,
)
    requires
        num <= MAX_AVLBL_LOC,
        owners@.len() == num,
        forall|i: int| 0 <= i < num ==> 0 <= #[trigger] loc_index[i] < MAX_AVLBL_LOC,
        forall|i: int| 0 <= i < num ==> start_loc_ok(#[trigger] ranked_loc(*chosen, *loc_index, i)),
        forall|i: int| 0 <= i < num ==> 0 <= #[trigger] owners@[i] < MAX_PLAYER,
    ensures
        castles_owned(old(g), final(g), *chosen, *loc_index, num as int, owners@),
{
    let ghost g0 = *g;
    for i in 0..num
        invariant
            num <= MAX_AVLBL_LOC,
            owners@.len() == num,
            forall|t: int| 0 <= t < num ==> 0 <= #[trigger] loc_index[t] < MAX_AVLBL_LOC,
            forall|t: int| 0 <= t < num ==> start_loc_ok(#[trigger] ranked_loc(*chosen, *loc_index, t)),
            forall|t: int| 0 <= t < num ==> 0 <= #[trigger] owners@[t] < MAX_PLAYER,
            castles_owned(&g0, g, *chosen, *loc_index, i as int, owners@),
            forall|a: int, b: int| in_array(a, b) ==> #[trigger] g.tiles[a][b].cl == g0.tiles[a][b].cl,
            forall|a: int, b: int, p: int|
                in_array(a, b) && 0 <= p < MAX_PLAYER ==> #[trigger] pop(g.tiles[a][b], p) == pop(g0.tiles[a][b], p)
                    || pop(g.tiles[a][b], p) == START_CITIZENS,
    {
        let ii = loc_index[i] as usize;
        let l = chosen[ii];
        let x = l.i as usize;
        let y = l.j as usize;
        let o = owners[i];
        proof {
            assert(start_loc_ok(ranked_loc(*chosen, *loc_index, i as int)));
        }
        let ghost gb = *g;
        g.tiles[x][y].pl = o;
        g.tiles[x][y].units[o as usize][0] = START_CITIZENS;
        proof {
            assert forall|a: int, b: int, p: int|
                in_array(a, b) && 0 <= p < MAX_PLAYER implies #[trigger] pop(g.tiles[a][b], p) == pop(g0.tiles[a][b], p)
                    || pop(g.tiles[a][b], p) == START_CITIZENS by {
                assert(pop(gb.tiles[a][b], p) == pop(g0.tiles[a][b], p) || pop(gb.tiles[a][b], p) == START_CITIZENS);
            }
            assert forall|a: int, b: int|
                in_array(a, b) && (forall|t: int| 0 <= t < i + 1 ==> #[trigger] ranked_loc(*chosen, *loc_index, t) != Loc {
                    i: a as i32,
                    j: b as i32,
                }) implies #[trigger] g.tiles[a][b] == g0.tiles[a][b] by {
                assert(ranked_loc(*chosen, *loc_index, i as int) != Loc { i: a as i32, j: b as i32 });
                assert(gb.tiles[a][b] == g0.tiles[a][b]);
            }
            assert forall|t: int|
                0 <= t < i + 1 && #[trigger] last_on_tile(*chosen, *loc_index, i + 1, t) implies castle_owned(
                g0.tiles[ranked_loc(*chosen, *loc_index, t).i as int][ranked_loc(*chosen, *loc_index, t).j as int],
                g.tiles[ranked_loc(*chosen, *loc_index, t).i as int][ranked_loc(*chosen, *loc_index, t).j as int],
                owners@[t] as int,
            ) by {
                let lt = ranked_loc(*chosen, *loc_index, t);
                assert(start_loc_ok(lt));
                let t0 = g0.tiles[lt.i as int][lt.j as int];
                let t1 = g.tiles[lt.i as int][lt.j as int];
                if t < i {
                    assert(ranked_loc(*chosen, *loc_index, i as int) != lt);
                    assert(last_on_tile(*chosen, *loc_index, i as int, t));
                    assert(t1 == gb.tiles[lt.i as int][lt.j as int]);
                } else {
                    let tb = gb.tiles[x as int][y as int];
                    assert forall|p: int| 0 <= p < MAX_PLAYER && p != o implies #[trigger] pop(t1, p) == pop(t0, p)
                        || pop(t1, p) == START_CITIZENS by {
                        assert(pop(t1, p) == pop(tb, p));
                        assert(pop(tb, p) == pop(t0, p) || pop(tb, p) == START_CITIZENS);
                    }
                }
            }
        }
    }
}

/// The player at position `idx` of the list of the castles' owners before it
/// is shuffled: the controlled players first, then computer players from
/// `comp`, in turn from the `dplayer`-th.
pub open spec fn listed_owner(ui: Seq<i32>, ui_num: int, comp: Seq<i32>, dplayer: int, idx: int) -> i32 {
    if idx < ui_num {
        ui[idx]
    } else {
        comp[(idx - ui_num + dplayer) % (comp.len() as int)]
    }
}

/// With several controlled players, the castle ranked `i` goes to the entry
/// `perm[i]` of the list of owners (see `listed_owner`).
pub open spec fn shared_owners(owners: Seq<i32>, num: int, ui: Seq<i32>, ui_num: int, comp: Seq<i32>, dplayer: int, perm: Seq<int>) -> bool {
    &&& is_perm(perm, num)
    &&& 0 <= dplayer < comp.len()
    &&& forall|i: int| 0 <= i < num ==> #[trigger] owners[i] == listed_owner(ui, ui_num, comp, dplayer, perm[i])
}

/// The location index of the controlled player when `conditions` asks for
/// one: the location ranked `num - conditions` (kept between 0 and `num - 1`)
/// in increasing evaluation.
pub open spec fn conditioned_loc(loc_index: [i32; MAX_AVLBL_LOC], num: int, conditions: int) -> int {
    loc_index[spec_in_segment(num - conditions, 0, num - 1)] as int
}

/// With one controlled player, the castle at location `ihuman` goes to it and
/// the castle ranked `i` otherwise to `comp[i]`.
pub open spec fn single_owners(owners: Seq<i32>, num: int, ui: Seq<i32>, comp: Seq<i32>, loc_index: [i32; MAX_AVLBL_LOC], ihuman: int) -> bool {
    &&& 0 <= ihuman < num
    &&& forall|i: int|
        0 <= i < num ==> #[trigger] owners[i] == if loc_index[i] == ihuman {
            ui[0]
        } else {
            comp[i]
        }
}

/// The owners of the castles ranked below `num`, as `conflict_assign` draws
/// them: `comp` is the computer players in a random order; with several
/// controlled players the owners are a random order of a list of them (see
/// `shared_owners`); with one, it takes a random location, or the one that
/// `conditions` asks for, and the other castles go to `comp` (see
/// `single_owners`).
pub open spec fn owners_drawn(
    owners: Seq<i32>,
    num: int,
    players: Seq<i32>,
    ui: Seq<i32>,
    ui_num: int,
    loc_index: [i32; MAX_AVLBL_LOC],
    conditions: int,
) -> bool {
    &&& owners.len() == num
    &&& if ui_num > 1 {
        exists|comp: Seq<i32>, dplayer: int, perm: Seq<int>|
            reordered(players, comp) && #[trigger] shared_owners(owners, num, ui, ui_num, comp, dplayer, perm)
    } else {
        exists|comp: Seq<i32>, ihuman: int|
            reordered(players, comp) && #[trigger] single_owners(owners, num, ui, comp, loc_index, ihuman) && (
            conditions > 0 ==> ihuman == conditioned_loc(loc_index, num, conditions))
    }
}

/// Gives the castles ranked below `num` (the location `chosen[loc_index[i]]`
/// for rank `i`) to the players: the owners are drawn as `owners_drawn` says,
/// and each castle gets `START_CITIZENS` citizens of its owner (see
/// `castles_owned`).
pub fn conflict_assign(
    g: &mut Grid,
    chosen: &[Loc; MAX_AVLBL_LOC],
    loc_index: &[i32; MAX_AVLBL_LOC],
    num: usize,
    players: &[i32],
    players_num: i32,
    ui_players: &[i32],
    ui_players_num: i32,
    conditions: i32,
)
    requires
        1 <= ui_players_num,
        ui_players_num <= num <= MAX_AVLBL_LOC,
        ui_players_num <= ui_players@.len(),
        1 <= players_num,
        players_num == players@.len(),
        players_num <= MAX_PLAYER,
        ui_players_num <= 1 ==> num <= players_num,
        forall|i: int| 0 <= i < num ==> 0 <= #[trigger] loc_index[i] < num,
        forall|i: int| 0 <= i < num ==> start_loc_ok(#[trigger] ranked_loc(*chosen, *loc_index, i)),
        forall|t: int| 0 <= t < players@.len() ==> 0 <= #[trigger] players@[t] < MAX_PLAYER,
        forall|t: int| 0 <= t < ui_players_num ==> 0 <= #[trigger] ui_players@[t] < MAX_PLAYER,
    ensures
        exists|owners: Seq<i32>|
            #[trigger] owners_drawn(owners, num as int, players@, ui_players@, ui_players_num as int, *loc_index, conditions as int)
                && castles_owned(old(g), final(g), *chosen, *loc_index, num as int, owners),
{
    let mut rng = new_rng();
    let ui_num = ui_players_num as usize;
    let pn = players_num as usize;
    let mut comp: Vec<i32> = Vec::new();
    for t in 0..pn
        invariant
            pn == players@.len(),
            comp@ == players@.subrange(0, t as int),
    {
        comp.push(players[t]);
        proof {
            assert(comp@ =~= players@.subrange(0, t + 1));
        }
    }
    proof {
        assert(comp@ =~= players@);
    }
    shuffle(&mut comp);
    let ghost perm_c = choose|perm: Seq<int>| #[trigger] is_perm(perm, players@.len() as int) && rearranged(players@, comp@, perm, players@.len() as int);
    let mut sh: Vec<i32> = Vec::new();
    let mut idx: usize = 0;
    while idx < ui_num
        invariant
            ui_num == ui_players_num,
            ui_num <= num,
            ui_num <= ui_players@.len(),
            0 <= idx <= ui_num,
            sh@.len() == idx,
            forall|t: int| 0 <= t < idx ==> #[trigger] sh@[t] == ui_players@[t],
        decreases ui_num - idx,
    {
        sh.push(ui_players[idx]);
        idx = idx + 1;
    }
    let dplayer = gen_range(&mut rng, 0, players_num) as usize;
    while idx < num
        invariant
            ui_num == ui_players_num,
            ui_num <= idx <= num,
            num <= MAX_AVLBL_LOC,
            pn == comp@.len(),
            pn >= 1,
            pn <= MAX_PLAYER,
            dplayer < pn,
            sh@.len() == idx,
            forall|t: int| 0 <= t < idx ==> #[trigger] sh@[t] == listed_owner(ui_players@, ui_num as int, comp@, dplayer as int, t),
        decreases num - idx,
    {
        let k = (idx - ui_num + dplayer) % pn;
        sh.push(comp[k]);
        idx = idx + 1;
    }
    let ghost listed = sh@;
    shuffle(&mut sh);
    let ghost perm_s = choose|perm: Seq<int>| #[trigger] is_perm(perm, listed.len() as int) && rearranged(listed, sh@, perm, listed.len() as int);
    let mut ihuman = gen_range(&mut rng, 0, num as i32) as usize;
    if conditions > 0 {
        let select = in_segment(num as i32 - conditions, 0, num as i32 - 1) as usize;
        proof {
            assert(0 <= loc_index[select as int] < num);
        }
        ihuman = loc_index[select] as usize;
    }
    let mut owners: Vec<i32> = Vec::new();
    for i in 0..num
        invariant
            ui_num == ui_players_num,
            ui_num >= 1,
            ui_num <= ui_players@.len(),
            num <= MAX_AVLBL_LOC,
            sh@.len() == num,
            ui_num <= 1 ==> num <= comp@.len(),
            forall|t: int| 0 <= t < num ==> 0 <= #[trigger] loc_index[t] < num,
            owners@.len() == i,
            forall|t: int|
                0 <= t < i ==> #[trigger] owners@[t] == if ui_num > 1 {
                    sh@[t]
                } else if loc_index[t] == ihuman {
                    ui_players@[0]
                } else {
                    comp@[t]
                },
    {
        let ii = loc_index[i] as usize;
        let o = if ui_num > 1 {
            sh[i]
        } else if ii == ihuman {
            ui_players[0]
        } else {
            comp[i]
        };
        owners.push(o);
    }
    proof {
        assert forall|t: int| 0 <= t < num implies 0 <= #[trigger] owners@[t] < MAX_PLAYER by {
            if ui_num > 1 {
                let q = perm_s[t];
                assert(sh@[t] == listed[q]);
                if q >= ui_num {
                    let r = (q - ui_num + dplayer) % (comp@.len() as int);
                    assert(0 <= r < comp@.len());
                    assert(comp@[r] == players@[perm_c[r]]);
                }
            } else if loc_index[t] != ihuman {
                assert(comp@[t] == players@[perm_c[t]]);
            }
        }
    }
    let ghost g0 = *g;
    give_castles(g, chosen, loc_index, num, &owners);
    proof {
        assert(reordered(players@, comp@));
        if ui_num > 1 {
            assert(shared_owners(owners@, num as int, ui_players@, ui_num as int, comp@, dplayer as int, perm_s));
        } else {
            assert(single_owners(owners@, num as int, ui_players@, comp@, *loc_index, ihuman as int));
        }
        assert(owners_drawn(owners@, num as int, players@, ui_players@, ui_players_num as int, *loc_index, conditions as int));
    }
}


/// The positions of the chosen locations before they are ranked.
pub open spec fn positions() -> Seq<i32> {
    seq![0i32, 1, 2, 3, 4, 5, 6]
}

/// `ranked` and `idx` are what `sort_increasing` makes of the worths and of
/// `positions()`: the first `num` worths in increasing order, each position
/// carried along with its worth (see `selection_trace`).
pub open spec fn ranking(worth: Seq<i32>, num: int, ranked: Seq<i32>, idx: Seq<i32>) -> bool {
    exists|vs: Seq<(Seq<i32>, Seq<i32>)>|
        #[trigger] selection_trace(vs, num) && vs[0] == (worth, positions()) && vs[vs.len() - 1] == (ranked, idx)
}

/// Ends a conflict once the first `num` chosen locations have their worths:
/// the locations are ranked by increasing worth (see `ranking`); where the
/// inequality of the ranked worths is out of the band that `ineq` asks for
/// (see `ineq_band_ok`), the map is left as it is and -1 comes back;
/// otherwise the castles are handed out in that ranking as `conflict_assign`
/// says, and 0 comes back.
pub fn conflict_settle(
    g: &mut Grid,
    chosen: &[Loc; MAX_AVLBL_LOC],
    worth: &[i32; MAX_AVLBL_LOC],
    num: usize,
    players: &[i32],
    players_num: i32,
    ui_players: &[i32],
    ui_players_num: i32,
    conditions: i32,
    ineq: i32,
) -> (r: i32)
    requires
        1 <= ui_players_num,
        ui_players_num <= num <= MAX_AVLBL_LOC,
        ui_players_num <= ui_players@.len(),
        1 <= players_num,
        players_num == players@.len(),
        players_num <= MAX_PLAYER,
        ui_players_num <= 1 ==> num <= players_num,
        forall|k: int| 0 <= k < num ==> start_loc_ok(#[trigger] chosen[k]),
        forall|t: int| 0 <= t < players@.len() ==> 0 <= #[trigger] players@[t] < MAX_PLAYER,
        forall|t: int| 0 <= t < ui_players_num ==> 0 <= #[trigger] ui_players@[t] < MAX_PLAYER,
    ensures
        r == 0 || r == -1,
        exists|ranked: [i32; MAX_AVLBL_LOC], idx: [i32; MAX_AVLBL_LOC]|
            #[trigger] ranking(worth@, num as int, ranked@, idx@) && (r == -1 <==> !ineq_band_ok(
                ranked@,
                num as int,
                ineq as int,
            )) && (r == -1 ==> *final(g) == *old(g)) && (r == 0 ==> exists|owners: Seq<i32>|
                #[trigger] owners_drawn(owners, num as int, players@, ui_players@, ui_players_num as int, idx, conditions as int)
                    && castles_owned(old(g), final(g), *chosen, idx, num as int, owners)),
{
    let mut ranked: [i32; MAX_AVLBL_LOC] = *worth;
    let mut idx: [i32; MAX_AVLBL_LOC] = [0, 1, 2, 3, 4, 5, 6];
    proof {
        assert(idx@ =~= positions());
    }
    sort_increasing(&mut ranked, &mut idx, num);
    proof {
        assert(ranking(worth@, num as int, ranked@, idx@));
    }
    let ok = inequality_ok(&ranked, num, ineq);
    if !ok {
        return -1;
    }
    proof {
        let perm = choose|perm: Seq<int>|
            #[trigger] is_perm(perm, num as int) && rearranged(worth@, ranked@, perm, num as int)
                && rearranged(positions(), idx@, perm, num as int);
        assert forall|i: int| 0 <= i < num implies 0 <= #[trigger] idx[i] < num by {
            assert(idx@[i] == positions()[perm[i]]);
        }
    }
    conflict_assign(g, chosen, &idx, num, players, players_num, ui_players, ui_players_num, conditions);
    proof {
        assert(ranking(worth@, num as int, ranked@, idx@));
    }
    0
}


/// The conditions level places the controlled player: with one controlled
/// player and a level `conditions` above 0, it gets the castle ranked
/// `num - conditions` in increasing worth (the one ranked 0 when the level
/// exceeds `num`), and each castle on another location goes to a computer
/// player.
pub proof fn lemma_conditions_place_controlled_player(
    owners: Seq<i32>,
    num: int,
    players: Seq<i32>,
    ui: Seq<i32>,
    loc_index: [i32; MAX_AVLBL_LOC],
    conditions: int,
)
    requires
        1 <= num <= players.len(),
        1 <= conditions,
        owners_drawn(owners, num, players, ui, 1, loc_index, conditions),
    ensures
        ({
            let s = if num - conditions < 0 { 0 } else { num - conditions };
            &&& owners[s] == ui[0]
            &&& forall|t: int| 0 <= t < num && loc_index[t] != loc_index[s] ==> players.contains(#[trigger] owners[t])
        }),
{
    let s = if num - conditions < 0 { 0 } else { num - conditions };
    let (comp, ihuman) = choose|comp: Seq<i32>, ihuman: int|
        reordered(players, comp) && #[trigger] single_owners(owners, num, ui, comp, loc_index, ihuman) && (
        conditions > 0 ==> ihuman == conditioned_loc(loc_index, num, conditions));
    assert(ihuman == loc_index[s] as int);
    assert(owners[s] == ui[0]);
    let perm = choose|perm: Seq<int>| #[trigger] is_perm(perm, players.len() as int) && rearranged(players, comp, perm, players.len() as int);
    assert forall|t: int| 0 <= t < num && loc_index[t] != loc_index[s] implies players.contains(#[trigger] owners[t]) by {
        assert(owners[t] == comp[t]);
        assert(comp[t] == players[perm[t]]);
    }
}

} // verus!
