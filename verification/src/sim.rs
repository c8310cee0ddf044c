//! One step of the simulation: mines, battles, growth of cities, migration
//! of citizens along the flags' attraction, and ownership of tiles.
use vstd::prelude::*;
use rand::rngs::ThreadRng;
use crate::common::{
    ConfigDif, DIRECTIONS, MAX_CLASS, MAX_HEIGHT, MAX_PLAYER, MAX_POP, MAX_WIDTH, NEUTRAL, TileClass, dir,
    dir_di, dir_dj, max_i32, spec_max, spec_min,
};
use crate::grid::{
    FlagGrid, Grid, adjacent, nb_open, Tile, dims_ok, flag_grid_wf, grid_wf, in_array, in_grid, is_a_city, is_inhabitable,
    passable, pop, spec_is_a_city, spec_is_inhabitable, tile_wf,
};
use crate::king::{degrade, downgrade};
use crate::rng::{gen_bool, gen_range, new_rng};
use crate::state::{State, acol_pop, all_pop, all_pop_upto};
use crate::king::{Country, evaluated, king_evaluate_map, king_wf};
use crate::flags::{flags_consistent, lemma_consistent_same_cells};
use crate::turns::flags_agree;

verus! {

/// `num / den` rounded by a draw `draw` out of `den`: up when the draw falls
/// below the remainder `num % den`, down otherwise.
pub open spec fn rounded(num: int, den: int, draw: int) -> int {
    num / den + if draw < num % den { 1int } else { 0int }
}

/// Rounds `num / den` with the draw `draw` taken out of `den` (see `rounded`):
/// a uniform draw rounds up with probability `(num % den) / den`.
pub fn round_by_draw(num: i64, den: i64, draw: i32) -> (r: i64)
    requires
        0 <= num,
        0 < den <= i32::MAX,
        0 <= draw < den,
    ensures
        r == rounded(num as int, den as int, draw as int),
{
    let q = num / den;
    let rem = num % den;
    proof {
        if rem > 0 {
            assert(den >= 2);
            assert(q * den <= num) by (nonlinear_arith)
                requires
                    q == num / den,
                    num >= 0,
                    den > 0,
            ;
            assert(q * 2 <= q * den) by (nonlinear_arith)
                requires
                    q >= 0,
                    den >= 2,
            ;
        }
    }
    if (draw as i64) < rem {
        q + 1
    } else {
        q
    }
}

/// `num / den` rounded down or up at random, up with probability `(num % den) / den`.
fn rnd_round_ratio(rng: &mut ThreadRng, num: i64, den: i64) -> (r: i64)
    requires
        0 <= num,
        0 < den <= i32::MAX,
    ensures
        exists|draw: int| 0 <= draw < den && r == #[trigger] rounded(num as int, den as int, draw),
        r == num / den || (r == num / den + 1 && num % den != 0),
{
    let draw = gen_range(rng, 0, den as i32);
    let r = round_by_draw(num, den, draw);
    proof {
        assert(r == rounded(num as int, den as int, draw as int));
    }
    r
}

/// `p` is the owner of a tile with populations `units`: the first player
/// with the largest population (player 0 when all are equal).
pub open spec fn is_owner(units: [[i32; MAX_CLASS]; MAX_PLAYER], p: int) -> bool {
    &&& 0 <= p < MAX_PLAYER
    &&& forall|q: int| 0 <= q < MAX_PLAYER ==> #[trigger] units[q][0] <= units[p][0]
    &&& forall|q: int| 0 <= q < p ==> #[trigger] units[q][0] < units[p][0]
}

/// The first player with the largest population on a tile.
fn owner_of(units: &[[i32; MAX_CLASS]; MAX_PLAYER]) -> (r: i32)
    ensures
        is_owner(*units, r as int),
{
    let mut pl: usize = 0;
    for p in 0..MAX_PLAYER
        invariant
            pl < MAX_PLAYER,
            forall|q: int| 0 <= q < p ==> #[trigger] units[q][0] <= units[pl as int][0],
            forall|q: int| 0 <= q < pl ==> #[trigger] units[q][0] < units[pl as int][0],
    {
        if units[p][0] > units[pl][0] {
            pl = p;
        }
    }
    pl as i32
}

/// The owner of the neighbour of `(i, j)` in direction `k`, read from `plv`.
pub open spec fn nb_pl(plv: spec_fn(int, int) -> int, i: int, j: int, k: int) -> int {
    plv(i + dir_di(k), j + dir_dj(k))
}

/// The owners of the tiles of a grid, as a function of the position.
pub open spec fn owners_of(g: &Grid) -> spec_fn(int, int) -> int {
    |a: int, b: int| if in_array(a, b) { g.tiles[a][b].pl as int } else { 0 }
}

/// `q` is the owner that a mine at `(i, j)` takes when its neighbours are
/// owned as `plv` says: the one player other than the neutral one that owns
/// passable neighbours, when there is exactly one; the neutral player
/// otherwise.
pub open spec fn mine_owner(g: &Grid, plv: spec_fn(int, int) -> int, i: int, j: int, q: int) -> bool {
    if q != NEUTRAL {
        &&& exists|k: int| 0 <= k < DIRECTIONS && #[trigger] nb_open(g, i, j, k) && nb_pl(plv, i, j, k) == q
        &&& forall|k: int|
            0 <= k < DIRECTIONS && #[trigger] nb_open(g, i, j, k) && nb_pl(plv, i, j, k) != NEUTRAL ==> nb_pl(
                plv,
                i,
                j,
                k,
            ) == q
    } else {
        ||| forall|k: int| 0 <= k < DIRECTIONS && #[trigger] nb_open(g, i, j, k) ==> nb_pl(plv, i, j, k) == NEUTRAL
        ||| exists|m1: int, m2: int|
            0 <= m1 < DIRECTIONS && 0 <= m2 < DIRECTIONS && #[trigger] nb_open(g, i, j, m1) && #[trigger] nb_open(
                g,
                i,
                j,
                m2,
            ) && nb_pl(plv, i, j, m1) != NEUTRAL && nb_pl(plv, i, j, m2) != NEUTRAL && nb_pl(plv, i, j, m1)
                != nb_pl(plv, i, j, m2)
    }
}

/// Computes the owner of the mine at `(i, j)` from its passable neighbours (see `mine_owner`).
fn claim_mine(g: &Grid, i: i32, j: i32) -> (r: i32)
    requires
        grid_wf(g),
        in_grid(g, i as int, j as int),
    ensures
        mine_owner(g, owners_of(g), i as int, j as int, r as int),
        0 <= r < MAX_PLAYER,
{
    let ghost plv = owners_of(g);
    let mut owner: i32 = NEUTRAL as i32;
    let ghost mut wk: int = 0;
    for k in 0..DIRECTIONS
        invariant
            grid_wf(g),
            in_grid(g, i as int, j as int),
            plv == owners_of(g),
            -1 <= owner < MAX_PLAYER,
            owner == NEUTRAL ==> forall|m: int|
                0 <= m < k && #[trigger] nb_open(g, i as int, j as int, m) ==> nb_pl(plv, i as int, j as int, m)
                    == NEUTRAL,
            owner > 0 ==> 0 <= wk < k && nb_open(g, i as int, j as int, wk) && nb_pl(plv, i as int, j as int, wk)
                == owner,
            owner > 0 ==> forall|m: int|
                0 <= m < k && #[trigger] nb_open(g, i as int, j as int, m) && nb_pl(plv, i as int, j as int, m)
                    != NEUTRAL ==> nb_pl(plv, i as int, j as int, m) == owner,
            owner == -1 ==> exists|m1: int, m2: int|
                0 <= m1 < k && 0 <= m2 < k && #[trigger] nb_open(g, i as int, j as int, m1) && #[trigger] nb_open(
                    g,
                    i as int,
                    j as int,
                    m2,
                ) && nb_pl(plv, i as int, j as int, m1) != NEUTRAL && nb_pl(plv, i as int, j as int, m2) != NEUTRAL
                    && nb_pl(plv, i as int, j as int, m1) != nb_pl(plv, i as int, j as int, m2),
    {
        let dk = dir(k);
        let ni = i + dk.i;
        let nj = j + dk.j;
        proof {
            assert(nb_open(g, i as int, j as int, k as int) == (0 <= ni < g.width && 0 <= nj < g.height
                && spec_is_inhabitable(g.tiles[ni as int][nj as int].cl)));
        }
        if ni >= 0 && ni < g.width && nj >= 0 && nj < g.height && is_inhabitable(
            g.tiles[ni as usize][nj as usize].cl,
        ) {
            let pl = g.tiles[ni as usize][nj as usize].pl;
            proof {
                assert(in_array(ni as int, nj as int));
                assert(tile_wf(g.tiles[ni as int][nj as int]));
                assert(nb_open(g, i as int, j as int, k as int));
                assert(nb_pl(plv, i as int, j as int, k as int) == pl);
            }
            if owner == NEUTRAL as i32 {
                owner = pl;
                proof {
                    wk = k as int;
                }
            } else if owner != pl && pl != NEUTRAL as i32 {
                proof {
                    if owner > 0 {
                        assert(nb_open(g, i as int, j as int, wk));
                    }
                }
                owner = -1;
            }
        }
    }
    proof {
        if owner > 0 {
            assert(nb_open(g, i as int, j as int, wk));
        }
    }
    if owner != -1 {
        owner
    } else {
        NEUTRAL as i32
    }
}

// ---------------------------------------------------------------------------
// Battles and growth on one tile
// ---------------------------------------------------------------------------

/// Total population of the players below `n` on a tile.
pub open spec fn units_total(u: [[i32; MAX_CLASS]; MAX_PLAYER], n: int) -> int
    decreases n,
{
    if n <= 0 {
        0
    } else {
        units_total(u, n - 1) + u[n - 1][0]
    }
}

/// All populations of a tile lie between 0 and `MAX_POP`.
pub open spec fn units_ok(u: [[i32; MAX_CLASS]; MAX_PLAYER]) -> bool {
    forall|p: int| 0 <= p < MAX_PLAYER ==> 0 <= #[trigger] u[p][0] <= MAX_POP
}

/// A tile is well formed exactly when its owner is a player and its populations are in range.
proof fn lemma_tile_wf_units(t: Tile)
    ensures
        tile_wf(t) <==> (0 <= t.pl < MAX_PLAYER && units_ok(t.units)),
{
    if tile_wf(t) {
        assert forall|p: int| 0 <= p < MAX_PLAYER implies 0 <= #[trigger] t.units[p][0] <= MAX_POP by {
            assert(0 <= pop(t, p) <= MAX_POP);
        }
    }
    if 0 <= t.pl < MAX_PLAYER && units_ok(t.units) {
        assert forall|p: int| 0 <= p < MAX_PLAYER implies 0 <= #[trigger] pop(t, p) <= MAX_POP by {
            assert(0 <= t.units[p][0] <= MAX_POP);
        }
    }
}

proof fn lemma_units_total_bounds(u: [[i32; MAX_CLASS]; MAX_PLAYER], n: int)
    requires
        units_ok(u),
        0 <= n <= MAX_PLAYER,
    ensures
        0 <= units_total(u, n) <= n * MAX_POP,
        forall|p: int| 0 <= p < n ==> #[trigger] u[p][0] <= units_total(u, n),
    decreases n,
{
    if n > 0 {
        lemma_units_total_bounds(u, n - 1);
        assert(0 <= u[n - 1][0] <= MAX_POP);
    }
}

/// `d` is the damage that player `p` takes in the battle on a tile with
/// populations `u`: the population of the others times its own over the
/// total, rounded down or up at random (none on an empty tile).
pub open spec fn battle_damage(u: [[i32; MAX_CLASS]; MAX_PLAYER], p: int, d: int) -> bool {
    let t = units_total(u, MAX_PLAYER as int);
    let m = u[p][0] as int;
    if t == 0 {
        d == 0
    } else {
        d == (t - m) * m / t || (d == (t - m) * m / t + 1 && (t - m) * m % t != 0)
    }
}

/// Player `p` lost its damage in the battle that took populations `u0` to
/// `u1` (never below 0); `dd` is that damage when `p` owns the tile.
pub open spec fn fought(u0: [[i32; MAX_CLASS]; MAX_PLAYER], u1: [[i32; MAX_CLASS]; MAX_PLAYER], pl: int, p: int, dd: int) -> bool {
    exists|d: int|
        #[trigger] battle_damage(u0, p, d) && u1[p][0] == (if u0[p][0] - d > 0 { u0[p][0] - d } else { 0 }) && (p
            == pl ==> dd == d)
}

/// The battle on a tile: every player loses its damage (see `battle_damage`),
/// down to no less than 0; returns the damage of the tile's owner.
fn battle(rng: &mut ThreadRng, t: &mut Tile) -> (defender_dmg: i32)
    requires
        tile_wf(*old(t)),
    ensures
        tile_wf(*final(t)),
        final(t).cl == old(t).cl,
        final(t).pl == old(t).pl,
        forall|p: int| 0 <= p < MAX_PLAYER ==> #[trigger] fought(old(t).units, final(t).units, old(t).pl as int, p, defender_dmg as int),
        defender_dmg >= 0,
{
    let u0 = t.units;
    proof {
        lemma_tile_wf_units(*old(t));
    }
    let mut total: i32 = 0;
    for p in 0..MAX_PLAYER
        invariant
            units_ok(u0),
            u0 == old(t).units,
            total == units_total(u0, p as int),
    {
        proof {
            lemma_units_total_bounds(u0, p as int);
            assert(0 <= u0[p as int][0] <= MAX_POP);
        }
        total = total + u0[p][0];
    }
    proof {
        lemma_units_total_bounds(u0, MAX_PLAYER as int);
    }
    let mut defender_dmg: i32 = 0;
    for p in 0..MAX_PLAYER
        invariant
            units_ok(u0),
            u0 == old(t).units,
            tile_wf(*old(t)),
            total == units_total(u0, MAX_PLAYER as int),
            0 <= total <= MAX_PLAYER * MAX_POP,
            forall|q: int| 0 <= q < MAX_PLAYER ==> #[trigger] u0[q][0] <= total,
            t.cl == old(t).cl,
            t.pl == old(t).pl,
            defender_dmg >= 0,
            forall|q: int| p <= q < MAX_PLAYER ==> #[trigger] t.units[q][0] == u0[q][0],
            forall|q: int| 0 <= q < p ==> #[trigger] fought(u0, t.units, old(t).pl as int, q, defender_dmg as int),
            p <= old(t).pl ==> defender_dmg == 0,
            0 <= t.pl < MAX_PLAYER,
            units_ok(t.units),
    {
        let my = u0[p][0];
        let enemy = total - my;
        let mut dmg: i32 = 0;
        if total != 0 {
            proof {
                assert(0 <= my <= MAX_POP);
                assert(0 <= enemy * my <= MAX_PLAYER * MAX_POP * MAX_POP) by (nonlinear_arith)
                    requires
                        0 <= enemy <= MAX_PLAYER * MAX_POP,
                        0 <= my <= MAX_POP,
                ;
                assert((enemy as int) * (my as int) / (total as int) <= my) by (nonlinear_arith)
                    requires
                        0 <= enemy <= total,
                        0 <= my,
                        total > 0,
                ;
            }
            let r = rnd_round_ratio(rng, (enemy as i64) * (my as i64), total as i64);
            dmg = r as i32;
        }
        proof {
            assert(battle_damage(u0, p as int, dmg as int));
        }
        let ghost ub = t.units;
        let ghost db = defender_dmg;
        t.units[p][0] = max_i32(my - dmg, 0);
        if t.pl == p as i32 {
            defender_dmg = dmg;
        }
        proof {
            assert(fought(u0, t.units, old(t).pl as int, p as int, defender_dmg as int));
            assert forall|q: int| 0 <= q < p implies #[trigger] fought(u0, t.units, old(t).pl as int, q, defender_dmg as int) by {
                assert(fought(u0, ub, old(t).pl as int, q, db as int));
                let d = choose|d: int| #[trigger] battle_damage(u0, q, d) && ub[q][0] == (if u0[q][0] - d > 0 { u0[q][0] - d } else { 0 }) && (q == old(t).pl ==> db == d);
                assert(battle_damage(u0, q, d));
            }
        }
    }
    proof {
        lemma_tile_wf_units(*t);
    }
    defender_dmg
}

/// Growth rate of a city, in tenths: village 11, town 12, castle 13.
pub open spec fn growth10(cl: TileClass) -> int {
    match cl {
        TileClass::Village => 11,
        TileClass::Town => 12,
        TileClass::Castle => 13,
        _ => 0,
    }
}

/// The owner's population in a city grows by its rate, rounded down or up at
/// random, and is capped at `MAX_POP`.
fn grow(rng: &mut ThreadRng, t: &mut Tile)
    requires
        tile_wf(*old(t)),
        spec_is_a_city(old(t).cl),
    ensures
        tile_wf(*final(t)),
        final(t).cl == old(t).cl,
        final(t).pl == old(t).pl,
        forall|p: int| 0 <= p < MAX_PLAYER && p != old(t).pl ==> #[trigger] final(t).units[p][0] == old(t).units[p][0],
        ({
            let n = old(t).units[old(t).pl as int][0] * growth10(old(t).cl);
            let r = final(t).units[old(t).pl as int][0];
            r == if n / 10 > MAX_POP { MAX_POP as int } else { n / 10 }
                || (r == if n / 10 + 1 > MAX_POP { MAX_POP as int } else { n / 10 + 1 } && n % 10 != 0)
        }),
{
    let owner = t.pl as usize;
    let pop = t.units[owner][0];
    let rate: i64 = match t.cl {
        TileClass::Village => 11,
        TileClass::Town => 12,
        TileClass::Castle => 13,
        _ => 0,
    };
    proof {
        lemma_tile_wf_units(*t);
        assert(0 <= t.units[owner as int][0] <= MAX_POP);
    }
    let npop = rnd_round_ratio(rng, (pop as i64) * rate, 10);
    let capped: i64 = if npop > MAX_POP as i64 { MAX_POP as i64 } else { npop };
    t.units[owner][0] = capped as i32;
    proof {
        lemma_tile_wf_units(*t);
    }
}

// ---------------------------------------------------------------------------
// The first pass: mines, battles, degradation, owners and growth, tile by tile
// ---------------------------------------------------------------------------

/// A city whose owner loses more citizens than this in one battle (a fifth of
/// `MAX_POP`, rounded down) goes one class down.
pub const DEGRADE_DMG: i32 = 99;

/// Every player lost its damage in the battle that took populations `u0` to
/// `u1`; `dd` is the damage of the tile's owner `pl`.
pub open spec fn battled(u0: [[i32; MAX_CLASS]; MAX_PLAYER], u1: [[i32; MAX_CLASS]; MAX_PLAYER], pl: int, dd: int) -> bool {
    forall|p: int| 0 <= p < MAX_PLAYER ==> #[trigger] fought(u0, u1, pl, p, dd)
}

/// The owner `pl` of a city of class `cl` grew from `u0` to `u1` (see `grow`);
/// the other players are unchanged.
pub open spec fn grown(u0: [[i32; MAX_CLASS]; MAX_PLAYER], u1: [[i32; MAX_CLASS]; MAX_PLAYER], pl: int, cl: TileClass) -> bool {
    &&& forall|p: int| 0 <= p < MAX_PLAYER && p != pl ==> #[trigger] u1[p][0] == u0[p][0]
    &&& ({
        let n = u0[pl][0] * growth10(cl);
        let r = u1[pl][0];
        r == if n / 10 > MAX_POP { MAX_POP as int } else { n / 10 } || (r == if n / 10 + 1 > MAX_POP {
            MAX_POP as int
        } else {
            n / 10 + 1
        } && n % 10 != 0)
    })
}

/// The class of a tile after a battle in which its owner lost `dd` citizens.
pub open spec fn after_battle_class(cl: TileClass, dd: int) -> TileClass {
    if dd > DEGRADE_DMG && spec_is_a_city(cl) {
        downgrade(cl).unwrap()
    } else {
        cl
    }
}

/// The owner of a tile `t0` during its battle: a mine takes the owner `q`.
pub open spec fn battle_owner(t0: Tile, q: int) -> int {
    if t0.cl == TileClass::Mine {
        q
    } else {
        t0.pl as int
    }
}

/// The tile `t0`, owned by `pla` during its battle, came to `t1` through a
/// battle that left populations `ub` and cost the owner `dd` citizens.
pub open spec fn stepped_through(t0: Tile, pla: int, t1: Tile, ub: [[i32; MAX_CLASS]; MAX_PLAYER], dd: int) -> bool {
    let c1 = after_battle_class(t0.cl, dd);
    &&& battled(t0.units, ub, pla, dd)
    &&& dd >= 0
    &&& t1.cl == c1
    &&& if spec_is_inhabitable(c1) {
        is_owner(ub, t1.pl as int)
    } else {
        t1.pl == pla
    }
    &&& if spec_is_a_city(c1) {
        grown(ub, t1.units, t1.pl as int, c1)
    } else {
        t1.units == ub
    }
}

/// What the first pass does to a tile `t0`, a mine taking the owner `q`: a
/// battle; a city whose owner lost more than `DEGRADE_DMG` citizens goes one
/// class down; an inhabitable tile goes to its strongest player; a city then
/// grows.
pub open spec fn tile_stepped(t0: Tile, q: int, t1: Tile) -> bool {
    exists|ub: [[i32; MAX_CLASS]; MAX_PLAYER], dd: int| #[trigger] stepped_through(t0, battle_owner(t0, q), t1, ub, dd)
}

/// A tile of class `c0` now has class `c1`: the same, or one class down for a city.
pub open spec fn class_kept_or_lowered(c0: TileClass, c1: TileClass) -> bool {
    c1 == c0 || (spec_is_a_city(c0) && c1 == downgrade(c0).unwrap())
}

/// Runs the first pass on the tile `(i, j)`, a mine taking the owner `q`
/// (see `tile_stepped`); tells whether the tile changed class.
fn resolve_tile(rng: &mut ThreadRng, g: &mut Grid, i: i32, j: i32, q: i32) -> (changed: bool)
    requires
        grid_wf(old(g)),
        in_grid(old(g), i as int, j as int),
        0 <= q < MAX_PLAYER,
    ensures
        grid_wf(final(g)),
        final(g).width == old(g).width,
        final(g).height == old(g).height,
        forall|a: int, b: int|
            in_array(a, b) && !(a == i && b == j) ==> #[trigger] final(g).tiles[a][b] == old(g).tiles[a][b],
        tile_stepped(old(g).tiles[i as int][j as int], q as int, final(g).tiles[i as int][j as int]),
        changed == (final(g).tiles[i as int][j as int].cl != old(g).tiles[i as int][j as int].cl),
        class_kept_or_lowered(old(g).tiles[i as int][j as int].cl, final(g).tiles[i as int][j as int].cl),
        old(g).tiles[i as int][j as int].cl == TileClass::Mine ==> final(g).tiles[i as int][j as int].pl == q,
{
    let ghost g0 = *g;
    let iu = i as usize;
    let ju = j as usize;
    proof {
        assert(in_array(i as int, j as int));
        assert(tile_wf(g.tiles[i as int][j as int]));
    }
    let mut t = g.tiles[iu][ju];
    if t.cl == TileClass::Mine {
        t.pl = q;
    }
    let ghost ta = t;
    proof {
        lemma_tile_wf_units(t);
        lemma_tile_wf_units(g0.tiles[i as int][j as int]);
    }
    let dd = battle(rng, &mut t);
    let ghost ub = t.units;
    proof {
        lemma_tile_wf_units(t);
    }
    g.tiles[iu][ju] = t;
    let mut changed = false;
    if dd > DEGRADE_DMG && is_a_city(t.cl) {
        let ghost gb = *g;
        let _ = degrade(g, i, j);
        proof {
            assert(g.tiles[i as int][j as int] == Tile { cl: downgrade(ta.cl).unwrap(), ..gb.tiles[i as int][j as int] });
        }
        changed = true;
    }
    let ghost c1 = after_battle_class(ta.cl, dd as int);
    proof {
        assert(g.tiles[i as int][j as int].units == ub);
        assert(g.tiles[i as int][j as int].pl == ta.pl);
        assert(g.tiles[i as int][j as int].cl == c1);
    }
    let mut t = g.tiles[iu][ju];
    proof {
        lemma_tile_wf_units(t);
        assert(tile_wf(t));
    }
    if is_inhabitable(t.cl) {
        t.pl = owner_of(&t.units);
        proof {
            assert(is_owner(ub, t.pl as int));
        }
    }
    proof {
        lemma_tile_wf_units(t);
        assert(tile_wf(t));
    }
    let ghost tc = t;
    if is_a_city(t.cl) {
        grow(rng, &mut t);
        proof {
            assert(grown(ub, t.units, t.pl as int, c1));
        }
    }
    g.tiles[iu][ju] = t;
    proof {
        let pla = if g0.tiles[i as int][j as int].cl == TileClass::Mine { q as int } else { g0.tiles[i as int][j as int].pl as int };
        assert(ta.pl == pla);
        assert(ta.cl == g0.tiles[i as int][j as int].cl);
        assert(battled(g0.tiles[i as int][j as int].units, ub, pla, dd as int));
        assert(t.cl == c1);
        if spec_is_inhabitable(c1) {
            assert(is_owner(ub, t.pl as int));
        } else {
            assert(t.pl == pla);
        }
        if spec_is_a_city(c1) {
            assert(grown(ub, t.units, t.pl as int, c1));
        } else {
            assert(t.units == ub);
        }
        assert(g.tiles[i as int][j as int] == t);
        assert(stepped_through(g0.tiles[i as int][j as int], battle_owner(g0.tiles[i as int][j as int], q as int), t, ub, dd as int));
        assert(tile_stepped(g0.tiles[i as int][j as int], q as int, t));
        assert forall|a: int, b: int| in_array(a, b) implies tile_wf(#[trigger] g.tiles[a][b]) by {
            if !(a == i && b == j) {
                assert(tile_wf(g0.tiles[a][b]));
            }
        }
    }
    changed
}

/// `(a, b)` comes before `(i, j)` in a pass over the map, column by column.
pub open spec fn visited_before(a: int, b: int, i: int, j: int) -> bool {
    a < i || (a == i && b < j)
}

/// The owners as the first pass from `g0` to `g1` sees them when it reaches
/// `(i, j)`: the tiles visited before have their new owner, the others their
/// old one.
pub open spec fn seen_owners(g0: &Grid, g1: &Grid, i: int, j: int) -> spec_fn(int, int) -> int {
    |a: int, b: int|
        if !in_array(a, b) {
            0
        } else if visited_before(a, b, i, j) {
            g1.tiles[a][b].pl as int
        } else {
            g0.tiles[a][b].pl as int
        }
}

/// What the first pass did to the tile `(a, b)`: a mine took the owner that
/// its neighbours gave it when the pass reached it; then the tile went
/// through `tile_stepped` (the owner argument matters for mines only).
pub open spec fn first_pass_tile(g0: &Grid, g1: &Grid, a: int, b: int) -> bool {
    if g0.tiles[a][b].cl == TileClass::Mine {
        &&& mine_owner(g0, seen_owners(g0, g1, a, b), a, b, g1.tiles[a][b].pl as int)
        &&& tile_stepped(g0.tiles[a][b], g1.tiles[a][b].pl as int, g1.tiles[a][b])
    } else {
        tile_stepped(g0.tiles[a][b], 0, g1.tiles[a][b])
    }
}

/// Mines owned by player `p` in column `a`, rows below `n`.
pub open spec fn col_mines(g: &Grid, p: int, a: int, n: int) -> int
    decreases n,
{
    if n <= 0 {
        0
    } else {
        col_mines(g, p, a, n - 1) + if g.tiles[a][n - 1].cl == TileClass::Mine && g.tiles[a][n - 1].pl == p {
            1int
        } else {
            0int
        }
    }
}

/// Mines owned by player `p` in the columns below `n`, rows in play.
pub open spec fn mines_upto(g: &Grid, p: int, n: int) -> int
    decreases n,
{
    if n <= 0 {
        0
    } else {
        mines_upto(g, p, n - 1) + col_mines(g, p, n - 1, g.height as int)
    }
}

/// Mines in play owned by player `p`.
pub open spec fn mines_of(g: &Grid, p: int) -> int {
    mines_upto(g, p, g.width as int)
}

proof fn lemma_col_mines_frame(ga: &Grid, gb: &Grid, p: int, a: int, n: int)
    requires
        forall|b: int| 0 <= b < n ==> #[trigger] ga.tiles[a][b] == gb.tiles[a][b],
    ensures
        col_mines(ga, p, a, n) == col_mines(gb, p, a, n),
    decreases n,
{
    if n > 0 {
        lemma_col_mines_frame(ga, gb, p, a, n - 1);
        assert(ga.tiles[a][n - 1] == gb.tiles[a][n - 1]);
    }
}

proof fn lemma_mines_upto_frame(ga: &Grid, gb: &Grid, p: int, n: int)
    requires
        ga.height == gb.height,
        forall|a: int, b: int| 0 <= a < n && 0 <= b < ga.height ==> #[trigger] ga.tiles[a][b] == gb.tiles[a][b],
    ensures
        mines_upto(ga, p, n) == mines_upto(gb, p, n),
    decreases n,
{
    if n > 0 {
        lemma_mines_upto_frame(ga, gb, p, n - 1);
        assert forall|b: int| 0 <= b < ga.height implies #[trigger] ga.tiles[n - 1][b] == gb.tiles[n - 1][b] by {
            assert(ga.tiles[n - 1][b] == gb.tiles[n - 1][b]);
        }
        lemma_col_mines_frame(ga, gb, p, n - 1, ga.height as int);
    }
}

proof fn lemma_col_mines_bounds(g: &Grid, p: int, a: int, n: int)
    requires
        n >= 0,
    ensures
        0 <= col_mines(g, p, a, n) <= n,
    decreases n,
{
    if n > 0 {
        lemma_col_mines_bounds(g, p, a, n - 1);
    }
}

proof fn lemma_mines_upto_bounds(g: &Grid, p: int, n: int)
    requires
        n >= 0,
        g.height >= 0,
    ensures
        0 <= mines_upto(g, p, n) <= n * g.height,
    decreases n,
{
    if n > 0 {
        lemma_mines_upto_bounds(g, p, n - 1);
        lemma_col_mines_bounds(g, p, n - 1, g.height as int);
        assert((n - 1) * g.height + g.height == n * g.height) by (nonlinear_arith);
    }
}

/// The claim of a mine depends on the neighbours' owners and on which of them
/// are passable only.
proof fn lemma_mine_owner_cells(ga: &Grid, gb: &Grid, plv: spec_fn(int, int) -> int, i: int, j: int, q: int)
    requires
        dims_ok(ga.width as int, ga.height as int),
        ga.width == gb.width,
        ga.height == gb.height,
        forall|a: int, b: int|
            in_array(a, b) ==> spec_is_inhabitable(#[trigger] ga.tiles[a][b].cl) == spec_is_inhabitable(
                gb.tiles[a][b].cl,
            ),
    ensures
        mine_owner(ga, plv, i, j, q) == mine_owner(gb, plv, i, j, q),
{
    assert forall|k: int| #![trigger nb_open(ga, i, j, k)] #![trigger nb_open(gb, i, j, k)]
        nb_open(ga, i, j, k) == nb_open(gb, i, j, k) by {
        if in_grid(ga, i + dir_di(k), j + dir_dj(k)) {
            assert(in_array(i + dir_di(k), j + dir_dj(k)));
            assert(spec_is_inhabitable(ga.tiles[i + dir_di(k)][j + dir_dj(k)].cl) == spec_is_inhabitable(
                gb.tiles[i + dir_di(k)][j + dir_dj(k)].cl,
            ));
        }
    }
}

/// Upper bound on the gold of a country for the simulation step.
pub const GOLD_CAP: i64 = 1_000_000_000_000_000_000;

/// What the first pass does to a map and the treasuries: every tile in play,
/// visited column by column, goes through `first_pass_tile`, the others are
/// unchanged, and every player other than the neutral one earns one gold
/// piece per mine that it took.
pub open spec fn first_pass_done(
    g0: &Grid,
    g1: &Grid,
    c0: [crate::king::Country; MAX_PLAYER],
    c1: [crate::king::Country; MAX_PLAYER],
) -> bool {
    &&& g1.width == g0.width
    &&& g1.height == g0.height
    &&& forall|a: int, b: int| in_array(a, b) && !in_grid(g0, a, b) ==> #[trigger] g1.tiles[a][b] == g0.tiles[a][b]
    &&& forall|a: int, b: int| in_grid(g0, a, b) ==> #[trigger] first_pass_tile(g0, g1, a, b)
    &&& forall|p: int|
        0 <= p < MAX_PLAYER ==> #[trigger] c1[p].gold == c0[p].gold + if p == NEUTRAL {
            0
        } else {
            mines_of(g1, p)
        }
}

/// Some tile changed class from `g0` to `g1`.
pub open spec fn classes_changed(g0: &Grid, g1: &Grid) -> bool {
    exists|a: int, b: int| in_array(a, b) && #[trigger] g1.tiles[a][b].cl != g0.tiles[a][b].cl
}

/// The first pass over one tile keeps what the pass has shown of the tiles
/// before it and establishes it for the tile itself.
proof fn lemma_first_pass_step(g0: &Grid, gb: &Grid, g1: &Grid, i: int, j: int, q: int)
    requires
        grid_wf(g0),
        in_grid(g0, i, j),
        gb.width == g0.width,
        gb.height == g0.height,
        g1.width == g0.width,
        g1.height == g0.height,
        forall|a: int, b: int|
            in_array(a, b) && !(in_grid(g0, a, b) && visited_before(a, b, i, j)) ==> #[trigger] gb.tiles[a][b]
                == g0.tiles[a][b],
        forall|a: int, b: int| in_grid(g0, a, b) && visited_before(a, b, i, j) ==> #[trigger] first_pass_tile(g0, gb, a, b),
        forall|a: int, b: int|
            in_array(a, b) ==> class_kept_or_lowered(g0.tiles[a][b].cl, #[trigger] gb.tiles[a][b].cl),
        forall|a: int, b: int| in_array(a, b) && !(a == i && b == j) ==> #[trigger] g1.tiles[a][b] == gb.tiles[a][b],
        gb.tiles[i][j].cl == TileClass::Mine ==> mine_owner(gb, owners_of(gb), i, j, q),
        gb.tiles[i][j].cl != TileClass::Mine ==> q == 0,
        tile_stepped(gb.tiles[i][j], q, g1.tiles[i][j]),
        class_kept_or_lowered(gb.tiles[i][j].cl, g1.tiles[i][j].cl),
        gb.tiles[i][j].cl == TileClass::Mine ==> g1.tiles[i][j].pl == q,
    ensures
        forall|a: int, b: int|
            in_array(a, b) && !(in_grid(g0, a, b) && visited_before(a, b, i, j + 1)) ==> #[trigger] g1.tiles[a][b]
                == g0.tiles[a][b],
        forall|a: int, b: int|
            in_grid(g0, a, b) && visited_before(a, b, i, j + 1) ==> #[trigger] first_pass_tile(g0, g1, a, b),
        forall|a: int, b: int|
            in_array(a, b) ==> class_kept_or_lowered(g0.tiles[a][b].cl, #[trigger] g1.tiles[a][b].cl),
{
    assert(in_array(i, j));
    assert(gb.tiles[i][j] == g0.tiles[i][j]);
    assert forall|a: int, b: int|
        in_array(a, b) && !(in_grid(g0, a, b) && visited_before(a, b, i, j + 1)) implies #[trigger] g1.tiles[a][b]
            == g0.tiles[a][b] by {
        assert(gb.tiles[a][b] == g0.tiles[a][b]);
    }
    assert forall|a: int, b: int| in_array(a, b) implies class_kept_or_lowered(
        g0.tiles[a][b].cl,
        #[trigger] g1.tiles[a][b].cl,
    ) by {
        assert(class_kept_or_lowered(g0.tiles[a][b].cl, gb.tiles[a][b].cl));
        if !(a == i && b == j) {
            assert(g1.tiles[a][b] == gb.tiles[a][b]);
        }
    }
    assert forall|a: int, b: int| in_grid(g0, a, b) && visited_before(a, b, i, j + 1) implies #[trigger] first_pass_tile(
        g0,
        g1,
        a,
        b,
    ) by {
        assert(in_array(a, b));
        if a == i && b == j {
            if g0.tiles[i][j].cl == TileClass::Mine {
                assert(owners_of(gb) =~= seen_owners(g0, g1, i, j)) by {
                    assert forall|x: int, y: int| #[trigger] owners_of(gb)(x, y) == seen_owners(g0, g1, i, j)(x, y) by {
                        if in_array(x, y) && visited_before(x, y, i, j) {
                            assert(g1.tiles[x][y] == gb.tiles[x][y]);
                        } else if in_array(x, y) {
                            assert(gb.tiles[x][y] == g0.tiles[x][y]);
                        }
                    }
                }
                assert forall|x: int, y: int| in_array(x, y) implies spec_is_inhabitable(
                    #[trigger] gb.tiles[x][y].cl,
                ) == spec_is_inhabitable(g0.tiles[x][y].cl) by {
                    assert(class_kept_or_lowered(g0.tiles[x][y].cl, gb.tiles[x][y].cl));
                }
                lemma_mine_owner_cells(g0, gb, seen_owners(g0, g1, i, j), i, j, q);
            }
        } else {
            assert(visited_before(a, b, i, j));
            assert(first_pass_tile(g0, gb, a, b));
            assert(g1.tiles[a][b] == gb.tiles[a][b]);
            assert(seen_owners(g0, g1, a, b) =~= seen_owners(g0, gb, a, b)) by {
                assert forall|x: int, y: int| #[trigger] seen_owners(g0, g1, a, b)(x, y) == seen_owners(g0, gb, a, b)(
                    x,
                    y,
                ) by {
                    if in_array(x, y) && visited_before(x, y, a, b) {
                        assert(g1.tiles[x][y] == gb.tiles[x][y]);
                    }
                }
            }
        }
    }
}

/// The first pass of a simulation step (see `first_pass_done`); tells whether
/// some tile changed class.
fn first_pass(rng: &mut ThreadRng, g: &mut Grid, country: &mut [crate::king::Country; MAX_PLAYER]) -> (changed: bool)
    requires
        grid_wf(old(g)),
        forall|p: int| 0 <= p < MAX_PLAYER ==> #[trigger] old(country)[p].gold <= GOLD_CAP,
    ensures
        grid_wf(final(g)),
        first_pass_done(old(g), final(g), *old(country), *final(country)),
        changed == classes_changed(old(g), final(g)),
        forall|a: int, b: int|
            in_array(a, b) ==> class_kept_or_lowered(old(g).tiles[a][b].cl, #[trigger] final(g).tiles[a][b].cl),
{
    let ghost g0 = *g;
    let ghost c0 = *country;
    let w = g.width;
    let h = g.height;
    let mut changed = false;
    let mut i: i32 = 0;
    while i < w
        invariant
            grid_wf(g),
            grid_wf(&g0),
            g0.width == w,
            g0.height == h,
            g.width == w,
            g.height == h,
            0 <= i <= w,
            forall|a: int, b: int|
                in_array(a, b) && !(in_grid(&g0, a, b) && visited_before(a, b, i as int, 0)) ==> #[trigger] g.tiles[a][b]
                    == g0.tiles[a][b],
            forall|a: int, b: int|
                in_grid(&g0, a, b) && visited_before(a, b, i as int, 0) ==> #[trigger] first_pass_tile(&g0, g, a, b),
            forall|a: int, b: int|
                in_array(a, b) ==> class_kept_or_lowered(g0.tiles[a][b].cl, #[trigger] g.tiles[a][b].cl),
            forall|p: int|
                0 <= p < MAX_PLAYER ==> #[trigger] country[p].gold == c0[p].gold + if p == NEUTRAL {
                    0
                } else {
                    mines_upto(g, p, i as int)
                },
            forall|p: int| 0 <= p < MAX_PLAYER ==> #[trigger] c0[p].gold <= GOLD_CAP,
            changed == classes_changed(&g0, g),
        decreases w - i,
    {
        let mut j: i32 = 0;
        while j < h
            invariant
                grid_wf(g),
                grid_wf(&g0),
                g0.width == w,
                g0.height == h,
                g.width == w,
                g.height == h,
                0 <= i < w,
                0 <= j <= h,
                forall|a: int, b: int|
                    in_array(a, b) && !(in_grid(&g0, a, b) && visited_before(a, b, i as int, j as int)) ==> #[trigger] g.tiles[a][b]
                        == g0.tiles[a][b],
                forall|a: int, b: int|
                    in_grid(&g0, a, b) && visited_before(a, b, i as int, j as int) ==> #[trigger] first_pass_tile(
                        &g0,
                        g,
                        a,
                        b,
                    ),
                forall|a: int, b: int|
                    in_array(a, b) ==> class_kept_or_lowered(g0.tiles[a][b].cl, #[trigger] g.tiles[a][b].cl),
                forall|p: int|
                    0 <= p < MAX_PLAYER ==> #[trigger] country[p].gold == c0[p].gold + if p == NEUTRAL {
                        0
                    } else {
                        mines_upto(g, p, i as int) + col_mines(g, p, i as int, j as int)
                    },
                forall|p: int| 0 <= p < MAX_PLAYER ==> #[trigger] c0[p].gold <= GOLD_CAP,
                changed == classes_changed(&g0, g),
            decreases h - j,
        {
            let iu = i as usize;
            let ju = j as usize;
            let ghost gb = *g;
            let ghost cb = *country;
            proof {
                assert(in_array(i as int, j as int));
                assert(g.tiles[i as int][j as int] == g0.tiles[i as int][j as int]);
            }
            let mut q: i32 = 0;
            if g.tiles[iu][ju].cl == TileClass::Mine {
                q = claim_mine(g, i, j);
                if q != NEUTRAL as i32 {
                    let qu = q as usize;
                    proof {
                        lemma_mines_upto_bounds(g, q as int, i as int);
                        lemma_col_mines_bounds(g, q as int, i as int, j as int);
                        assert(i * h <= MAX_WIDTH * MAX_HEIGHT) by (nonlinear_arith)
                            requires
                                0 <= i <= MAX_WIDTH,
                                0 <= h <= MAX_HEIGHT,
                        ;
                        assert(country[q as int].gold <= GOLD_CAP + MAX_WIDTH * MAX_HEIGHT + MAX_HEIGHT);
                    }
                    country[qu].gold = country[qu].gold + 1;
                }
            }
            let ch = resolve_tile(rng, g, i, j, q);
            if ch {
                changed = true;
            }
            proof {
                lemma_first_pass_step(&g0, &gb, g, i as int, j as int, q as int);
                let g1 = *g;
                // what the tile adds to the mine counts
                assert forall|p: int| 0 <= p < MAX_PLAYER implies #[trigger] country[p].gold == c0[p].gold + if p == NEUTRAL {
                    0
                } else {
                    mines_upto(g, p, i as int) + col_mines(g, p, i as int, j + 1)
                } by {
                    assert forall|a: int, b: int| 0 <= a < i && 0 <= b < gb.height implies #[trigger] gb.tiles[a][b]
                        == g1.tiles[a][b] by {
                        assert(in_array(a, b));
                    }
                    lemma_mines_upto_frame(&gb, &g1, p, i as int);
                    assert forall|b: int| 0 <= b < j implies #[trigger] gb.tiles[i as int][b] == g1.tiles[i as int][b] by {
                        assert(in_array(i as int, b));
                    }
                    lemma_col_mines_frame(&gb, &g1, p, i as int, j as int);
                    assert(class_kept_or_lowered(gb.tiles[i as int][j as int].cl, g1.tiles[i as int][j as int].cl));
                }
                // whether some class changed
                if ch {
                    assert(g1.tiles[i as int][j as int].cl != g0.tiles[i as int][j as int].cl);
                    assert(classes_changed(&g0, &g1));
                } else {
                    if classes_changed(&g0, &g1) {
                        let (a, b) = choose|a: int, b: int|
                            in_array(a, b) && #[trigger] g1.tiles[a][b].cl != g0.tiles[a][b].cl;
                        if !(a == i && b == j) {
                            assert(g1.tiles[a][b] == gb.tiles[a][b]);
                        }
                        assert(classes_changed(&g0, &gb));
                    }
                    if classes_changed(&g0, &gb) {
                        let (a, b) = choose|a: int, b: int|
                            in_array(a, b) && #[trigger] gb.tiles[a][b].cl != g0.tiles[a][b].cl;
                        if !(a == i && b == j) {
                            assert(g1.tiles[a][b] == gb.tiles[a][b]);
                        }
                        assert(classes_changed(&g0, &g1));
                    }
                }
            }
            j = j + 1;
        }
        proof {
            assert forall|a: int, b: int|
                in_array(a, b) && !(in_grid(&g0, a, b) && visited_before(a, b, i + 1, 0)) implies #[trigger] g.tiles[a][b]
                    == g0.tiles[a][b] by {
                if in_grid(&g0, a, b) {
                    assert(!visited_before(a, b, i as int, h as int));
                }
            }
            assert forall|a: int, b: int| in_grid(&g0, a, b) && visited_before(a, b, i + 1, 0) implies #[trigger] first_pass_tile(
                &g0,
                g,
                a,
                b,
            ) by {
                assert(visited_before(a, b, i as int, h as int));
            }
        }
        i = i + 1;
    }
    proof {
        assert forall|a: int, b: int| in_grid(&g0, a, b) implies #[trigger] first_pass_tile(&g0, g, a, b) by {
            assert(visited_before(a, b, w as int, 0));
        }
    }
    changed
}

// ---------------------------------------------------------------------------
// Migration
// ---------------------------------------------------------------------------

/// What migration does to a map: classes and owners stay, tiles out of play
/// stay, no tile in play that cannot be entered gains citizens, and every
/// player keeps the same number of citizens over the whole map.
pub open spec fn migrated(g1: &Grid, g2: &Grid) -> bool {
    &&& g2.width == g1.width
    &&& g2.height == g1.height
    &&& forall|a: int, b: int|
        in_array(a, b) ==> #[trigger] g2.tiles[a][b].cl == g1.tiles[a][b].cl && g2.tiles[a][b].pl
            == g1.tiles[a][b].pl
    &&& forall|a: int, b: int| in_array(a, b) && !in_grid(g1, a, b) ==> #[trigger] g2.tiles[a][b] == g1.tiles[a][b]
    &&& forall|a: int, b: int, p: int|
        in_grid(g1, a, b) && !spec_is_inhabitable(g1.tiles[a][b].cl) && 0 <= p < MAX_PLAYER ==> #[trigger] pop(
            g2.tiles[a][b],
            p,
        ) <= pop(g1.tiles[a][b], p)
    &&& forall|p: int| 0 <= p < MAX_PLAYER ==> #[trigger] all_pop(g2, p) == all_pop(g1, p)
}

proof fn lemma_migrated_trans(g1: &Grid, gb: &Grid, g2: &Grid)
    requires
        dims_ok(g1.width as int, g1.height as int),
        migrated(g1, gb),
        migrated(gb, g2),
    ensures
        migrated(g1, g2),
{
    assert forall|a: int, b: int| in_array(a, b) && !in_grid(g1, a, b) implies #[trigger] g2.tiles[a][b]
        == g1.tiles[a][b] by {
        assert(gb.tiles[a][b] == g1.tiles[a][b]);
    }
    assert forall|a: int, b: int, p: int|
        in_grid(g1, a, b) && !spec_is_inhabitable(g1.tiles[a][b].cl) && 0 <= p < MAX_PLAYER implies #[trigger] pop(
        g2.tiles[a][b],
        p,
    ) <= pop(g1.tiles[a][b], p) by {
        assert(gb.tiles[a][b].cl == g1.tiles[a][b].cl);
        assert(pop(gb.tiles[a][b], p) <= pop(g1.tiles[a][b], p));
    }
    assert forall|p: int| 0 <= p < MAX_PLAYER implies #[trigger] all_pop(g2, p) == all_pop(g1, p) by {
        assert(all_pop(gb, p) == all_pop(g1, p));
    }
}

proof fn lemma_acol_pop_update(ga: &Grid, gb: &Grid, p: int, a: int, n: int, i: int, j: int)
    requires
        0 <= n <= MAX_HEIGHT,
        forall|b: int| 0 <= b < MAX_HEIGHT && !(a == i && b == j) ==> #[trigger] pop(gb.tiles[a][b], p) == pop(ga.tiles[a][b], p),
    ensures
        acol_pop(gb, p, a, n) == acol_pop(ga, p, a, n) + if a == i && 0 <= j < n {
            pop(gb.tiles[i][j], p) - pop(ga.tiles[i][j], p)
        } else {
            0
        },
    decreases n,
{
    if n > 0 {
        lemma_acol_pop_update(ga, gb, p, a, n - 1, i, j);
        if !(a == i && n - 1 == j) {
            assert(pop(gb.tiles[a][n - 1], p) == pop(ga.tiles[a][n - 1], p));
        }
    }
}

proof fn lemma_all_pop_upto_update(ga: &Grid, gb: &Grid, p: int, n: int, i: int, j: int)
    requires
        0 <= n <= MAX_WIDTH,
        in_array(i, j),
        forall|a: int, b: int| in_array(a, b) && !(a == i && b == j) ==> #[trigger] pop(gb.tiles[a][b], p) == pop(ga.tiles[a][b], p),
    ensures
        all_pop_upto(gb, p, n) == all_pop_upto(ga, p, n) + if 0 <= i < n {
            pop(gb.tiles[i][j], p) - pop(ga.tiles[i][j], p)
        } else {
            0
        },
    decreases n,
{
    if n > 0 {
        lemma_all_pop_upto_update(ga, gb, p, n - 1, i, j);
        assert forall|b: int| 0 <= b < MAX_HEIGHT && !(n - 1 == i && b == j) implies #[trigger] pop(gb.tiles[n - 1][b], p)
            == pop(ga.tiles[n - 1][b], p) by {
            assert(in_array(n - 1, b));
        }
        lemma_acol_pop_update(ga, gb, p, n - 1, MAX_HEIGHT as int, i, j);
    }
}

/// Changing the population of one player on one tile changes that player's
/// total by the same amount.
proof fn lemma_all_pop_update(ga: &Grid, gb: &Grid, p: int, i: int, j: int)
    requires
        in_array(i, j),
        forall|a: int, b: int| in_array(a, b) && !(a == i && b == j) ==> #[trigger] pop(gb.tiles[a][b], p) == pop(ga.tiles[a][b], p),
    ensures
        all_pop(gb, p) == all_pop(ga, p) + pop(gb.tiles[i][j], p) - pop(ga.tiles[i][j], p),
{
    lemma_all_pop_upto_update(ga, gb, p, MAX_WIDTH as int, i, j);
}

/// `g2` is `g1` with `d` citizens of player `p` moved from `(i, j)` to `(ni, nj)`.
pub open spec fn moved(g1: &Grid, g2: &Grid, p: int, i: int, j: int, ni: int, nj: int, d: int) -> bool {
    &&& g2.width == g1.width
    &&& g2.height == g1.height
    &&& forall|a: int, b: int|
        in_array(a, b) ==> #[trigger] g2.tiles[a][b].cl == g1.tiles[a][b].cl && g2.tiles[a][b].pl
            == g1.tiles[a][b].pl
    &&& forall|a: int, b: int, q: int|
        in_array(a, b) && 0 <= q < MAX_PLAYER ==> #[trigger] pop(g2.tiles[a][b], q) == pop(g1.tiles[a][b], q) + if q
            == p && a == i && b == j {
            -d
        } else if q == p && a == ni && b == nj {
            d
        } else {
            0
        }
}

/// Moves `d` citizens of player `p` from the tile `(i, j)` to the passable
/// neighbour `(ni, nj)`.
fn move_citizens(g: &mut Grid, p: usize, i: i32, j: i32, ni: i32, nj: i32, d: i32)
    requires
        grid_wf(old(g)),
        p < MAX_PLAYER,
        in_grid(old(g), i as int, j as int),
        passable(old(g), ni as int, nj as int),
        !(ni == i && nj == j),
        0 <= d <= pop(old(g).tiles[i as int][j as int], p as int),
        d <= MAX_POP - pop(old(g).tiles[ni as int][nj as int], p as int),
    ensures
        grid_wf(final(g)),
        migrated(old(g), final(g)),
        moved(old(g), final(g), p as int, i as int, j as int, ni as int, nj as int, d as int),
        pop(final(g).tiles[i as int][j as int], p as int) == pop(old(g).tiles[i as int][j as int], p as int) - d,
        pop(final(g).tiles[ni as int][nj as int], p as int) == pop(old(g).tiles[ni as int][nj as int], p as int) + d,
        forall|a: int, b: int, q: int|
            in_array(a, b) && 0 <= q < MAX_PLAYER && !(q == p && ((a == i && b == j) || (a == ni && b == nj))) ==> #[trigger] pop(
                final(g).tiles[a][b],
                q,
            ) == pop(old(g).tiles[a][b], q),
{
    let ghost g0 = *g;
    proof {
        assert(in_array(i as int, j as int));
        assert(in_array(ni as int, nj as int));
    }
    let iu = i as usize;
    let ju = j as usize;
    let niu = ni as usize;
    let nju = nj as usize;
    g.tiles[niu][nju].units[p][0] = g.tiles[niu][nju].units[p][0] + d;
    let ghost gm = *g;
    g.tiles[iu][ju].units[p][0] = g.tiles[iu][ju].units[p][0] - d;
    proof {
        assert forall|a: int, b: int, q: int|
            in_array(a, b) && 0 <= q < MAX_PLAYER && !(q == p && ((a == i && b == j) || (a == ni && b == nj))) implies #[trigger] pop(
            g.tiles[a][b],
            q,
        ) == pop(g0.tiles[a][b], q) by {}
        lemma_all_pop_update(&g0, &gm, p as int, ni as int, nj as int);
        lemma_all_pop_update(&gm, g, p as int, i as int, j as int);
        assert forall|q: int| 0 <= q < MAX_PLAYER implies #[trigger] all_pop(g, q) == all_pop(&g0, q) by {
            if q != p {
                assert forall|a: int, b: int| in_array(a, b) implies #[trigger] g.tiles[a][b].units[q] == g0.tiles[a][b].units[q] by {}
                assert(all_pop(g, q) == all_pop(&g0, q)) by {
                    lemma_all_pop_update(&g0, g, q, 0, 0);
                }
            }
        }
        assert forall|a: int, b: int| in_array(a, b) implies tile_wf(#[trigger] g.tiles[a][b]) by {
            assert(tile_wf(g0.tiles[a][b]));
            assert forall|q: int| 0 <= q < MAX_PLAYER implies 0 <= #[trigger] pop(g.tiles[a][b], q) <= MAX_POP by {
                assert(0 <= pop(g0.tiles[a][b], q) <= MAX_POP);
            }
        }
    }
}

/// Numerator, over 20, of the share of the citizens `init` that a tile sends
/// towards a neighbour whose call exceeds its own by `dcall`: a twentieth of
/// them, plus a tenth per unit of call difference.
pub open spec fn share20(init: int, dcall: int) -> int {
    init * (1 + 2 * dcall)
}

/// The move towards direction `k` from `(i, j)`, for the citizens of player
/// `p` of whom the tile held `init` at first, takes `g1` to `g2`: towards a
/// passable neighbour, while the tile has citizens left, the share
/// `share20(init, dcall) / 20` rounded down or up at random (`r`), capped by
/// the citizens left and by the room on the neighbour; otherwise nothing.
pub open spec fn dir_move(g1: &Grid, g2: &Grid, fg: &FlagGrid, p: int, i: int, j: int, init: int, k: int, r: int) -> bool {
    let ni = i + dir_di(k);
    let nj = j + dir_dj(k);
    let cur = pop(g1.tiles[i][j], p);
    if passable(g1, ni, nj) && cur > 0 {
        let dcall = spec_max(0, fg.call[ni][nj] - fg.call[i][j]);
        let share = share20(init, dcall);
        let d = spec_min(spec_min(r, cur), MAX_POP - pop(g1.tiles[ni][nj], p));
        &&& (r == share / 20 || (r == share / 20 + 1 && share % 20 != 0))
        &&& moved(g1, g2, p, i, j, ni, nj, d)
    } else {
        *g2 == *g1
    }
}

/// The move towards direction `k` (see `dir_move`) took `g1` to `g2` for some rounding.
pub open spec fn dir_moved(g1: &Grid, g2: &Grid, fg: &FlagGrid, p: int, i: int, j: int, init: int, k: int) -> bool {
    exists|r: int| #[trigger] dir_move(g1, g2, fg, p, i, j, init, k, r)
}

/// The grids `gs` before and after each move of the citizens of player `p`
/// from `(i, j)`, the directions taken in turn from `shift`.
pub open spec fn moves_trace(fg: &FlagGrid, p: int, i: int, j: int, shift: int, gs: Seq<Grid>) -> bool {
    &&& gs.len() == DIRECTIONS + 1
    &&& 0 <= shift < DIRECTIONS
    &&& forall|kk: int|
        0 <= kk < DIRECTIONS ==> #[trigger] dir_moved(
            &gs[kk],
            &gs[kk + 1],
            fg,
            p,
            i,
            j,
            pop(gs[0].tiles[i][j], p),
            (kk + shift) % (DIRECTIONS as int),
        )
}

/// The citizens of player `p` on `(i, j)` moved out as `migrate_from` does,
/// taking `g1` to `g2`.
pub open spec fn migrated_from(g1: &Grid, g2: &Grid, fg: &FlagGrid, p: int, i: int, j: int) -> bool {
    exists|shift: int, gs: Seq<Grid>| #[trigger] moves_trace(fg, p, i, j, shift, gs) && gs[0] == *g1 && gs[DIRECTIONS as int] == *g2
}

/// The citizens of player `p` on `(i, j)` move to each passable neighbour in
/// turn, starting from a random direction: towards a neighbour whose call
/// exceeds the tile's by `dcall` (0 if it does not), `share20(init, dcall) / 20`
/// of the tile's initial population `init`, rounded down or up at random, as
/// long as the tile has citizens left and the neighbour room for them.
fn migrate_from(rng: &mut ThreadRng, g: &mut Grid, fg: &FlagGrid, i: i32, j: i32, p: usize)
    requires
        grid_wf(old(g)),
        flag_grid_wf(fg),
        p < MAX_PLAYER,
        in_grid(old(g), i as int, j as int),
    ensures
        grid_wf(final(g)),
        migrated(old(g), final(g)),
        migrated_from(old(g), final(g), fg, p as int, i as int, j as int),
        forall|a: int, b: int, q: int|
            in_array(a, b) && 0 <= q < MAX_PLAYER && q != p ==> #[trigger] pop(final(g).tiles[a][b], q) == pop(
                old(g).tiles[a][b],
                q,
            ),
        forall|a: int, b: int|
            in_array(a, b) && !(a == i && b == j) && !adjacent(i as int, j as int, a, b) ==> #[trigger] pop(
                final(g).tiles[a][b],
                p as int,
            ) == pop(old(g).tiles[a][b], p as int),
        forall|a: int, b: int|
            in_array(a, b) && adjacent(i as int, j as int, a, b) ==> #[trigger] pop(final(g).tiles[a][b], p as int)
                >= pop(old(g).tiles[a][b], p as int),
        pop(final(g).tiles[i as int][j as int], p as int) <= pop(old(g).tiles[i as int][j as int], p as int),
{
    let ghost g0 = *g;
    let iu = i as usize;
    let ju = j as usize;
    proof {
        assert(in_array(i as int, j as int));
        assert(tile_wf(g.tiles[i as int][j as int]));
        assert(0 <= pop(g.tiles[i as int][j as int], p as int) <= MAX_POP);
    }
    let initial_pop = g.tiles[iu][ju].units[p][0];
    let k_shift = gen_range(rng, 0, DIRECTIONS as i32);
    let ghost mut gs: Seq<Grid> = seq![*g];
    for kk in 0..DIRECTIONS
        invariant
            gs.len() == kk + 1,
            gs[0] == g0,
            gs[kk as int] == *g,
            initial_pop == pop(g0.tiles[i as int][j as int], p as int),
            forall|t: int|
                0 <= t < kk ==> #[trigger] dir_moved(
                    &gs[t],
                    &gs[t + 1],
                    fg,
                    p as int,
                    i as int,
                    j as int,
                    initial_pop as int,
                    (t + k_shift) % (DIRECTIONS as int),
                ),
            grid_wf(g),
            grid_wf(&g0),
            flag_grid_wf(fg),
            p < MAX_PLAYER,
            in_grid(&g0, i as int, j as int),
            in_array(i as int, j as int),
            iu == i,
            ju == j,
            g.width == g0.width,
            g.height == g0.height,
            migrated(&g0, g),
            0 <= initial_pop <= MAX_POP,
            0 <= k_shift < DIRECTIONS,
            forall|a: int, b: int, q: int|
                in_array(a, b) && 0 <= q < MAX_PLAYER && q != p ==> #[trigger] pop(g.tiles[a][b], q) == pop(
                    g0.tiles[a][b],
                    q,
                ),
            forall|a: int, b: int|
                in_array(a, b) && !(a == i && b == j) && !adjacent(i as int, j as int, a, b) ==> #[trigger] pop(
                    g.tiles[a][b],
                    p as int,
                ) == pop(g0.tiles[a][b], p as int),
            forall|a: int, b: int|
                in_array(a, b) && adjacent(i as int, j as int, a, b) ==> #[trigger] pop(g.tiles[a][b], p as int)
                    >= pop(g0.tiles[a][b], p as int),
            pop(g.tiles[i as int][j as int], p as int) <= pop(g0.tiles[i as int][j as int], p as int),
    {
        let k = ((kk as i32 + k_shift) % (DIRECTIONS as i32)) as usize;
        let dk = dir(k);
        let ni = i + dk.i;
        let nj = j + dk.j;
        let ghost gb = *g;
        let ghost mut rr: int = 0;
        proof {
            assert(k == (kk + k_shift) % (DIRECTIONS as int));
        }
        if ni >= 0 && ni < g.width && nj >= 0 && nj < g.height && is_inhabitable(
            g.tiles[ni as usize][nj as usize].cl,
        ) {
            let niu = ni as usize;
            let nju = nj as usize;
            proof {
                assert(in_array(ni as int, nj as int));
                assert(adjacent(i as int, j as int, ni as int, nj as int));
                assert(tile_wf(g.tiles[i as int][j as int]));
                assert(tile_wf(g.tiles[ni as int][nj as int]));
                assert(0 <= pop(g.tiles[i as int][j as int], p as int) <= MAX_POP);
                assert(0 <= pop(g.tiles[ni as int][nj as int], p as int) <= MAX_POP);
                assert(0 <= fg.call[ni as int][nj as int]);
                assert(0 <= fg.call[i as int][j as int]);
            }
            let cur = g.tiles[iu][ju].units[p][0];
            let dcall = max_i32(0, fg.call[niu][nju] - fg.call[iu][ju]);
            if cur > 0 {
                proof {
                    assert(0 <= (initial_pop as int) * (1 + 2 * (dcall as int)) <= 499 * (1 + 2 * 2147483647)) by (nonlinear_arith)
                        requires
                            0 <= initial_pop <= 499,
                            0 <= dcall <= 2147483647,
                    ;
                }
                let r = rnd_round_ratio(rng, (initial_pop as i64) * (1 + 2 * (dcall as i64)), 20);
                let room = MAX_POP - g.tiles[niu][nju].units[p][0];
                let mut d: i64 = r;
                if d > cur as i64 {
                    d = cur as i64;
                }
                if d > room as i64 {
                    d = room as i64;
                }
                proof {
                    assert(r >= 0) by (nonlinear_arith)
                        requires
                            r >= (initial_pop as int) * (1 + 2 * (dcall as int)) / 20,
                            (initial_pop as int) * (1 + 2 * (dcall as int)) >= 0,
                    ;
                    rr = r as int;
                    assert(share20(initial_pop as int, dcall as int) == (initial_pop as int) * (1 + 2 * (dcall as int)));
                    assert(d == spec_min(spec_min(r as int, cur as int), MAX_POP - pop(gb.tiles[ni as int][nj as int], p as int)));
                }
                move_citizens(g, p, i, j, ni, nj, d as i32);
                proof {
                    lemma_migrated_trans(&g0, &gb, g);
                }
            }
        }
        proof {
            assert(dir_move(&gb, g, fg, p as int, i as int, j as int, initial_pop as int, k as int, rr));
            let gs1 = gs.push(*g);
            assert forall|t: int| 0 <= t < kk + 1 implies #[trigger] dir_moved(
                &gs1[t],
                &gs1[t + 1],
                fg,
                p as int,
                i as int,
                j as int,
                initial_pop as int,
                (t + k_shift) % (DIRECTIONS as int),
            ) by {
                if t < kk {
                    assert(gs1[t] == gs[t] && gs1[t + 1] == gs[t + 1]);
                } else {
                    assert(gs1[t] == gb && gs1[t + 1] == *g);
                    assert(dir_move(&gs1[t], &gs1[t + 1], fg, p as int, i as int, j as int, initial_pop as int, (t + k_shift) % (DIRECTIONS as int), rr));
                }
            }
            gs = gs1;
        }
    }
    proof {
        assert(moves_trace(fg, p as int, i as int, j as int, k_shift as int, gs));
    }
}

/// The `n`-th of the indices `0..len`, counting forwards or backwards.
pub open spec fn ordered(len: int, n: int, forward: bool) -> int {
    if forward {
        n
    } else {
        len - 1 - n
    }
}

/// The grids `ps` before and after the citizens of each player in turn leave `(i, j)`.
pub open spec fn cell_trace(fgs: [FlagGrid; MAX_PLAYER], i: int, j: int, ps: Seq<Grid>) -> bool {
    &&& ps.len() == MAX_PLAYER + 1
    &&& forall|p: int| 0 <= p < MAX_PLAYER ==> #[trigger] migrated_from(&ps[p], &ps[p + 1], &fgs[p], p, i, j)
}

/// The citizens of every player left `(i, j)` in turn, taking `g1` to `g2`.
pub open spec fn cell_migrated(g1: &Grid, g2: &Grid, fgs: [FlagGrid; MAX_PLAYER], i: int, j: int) -> bool {
    exists|ps: Seq<Grid>| #[trigger] cell_trace(fgs, i, j, ps) && ps[0] == *g1 && ps[MAX_PLAYER as int] == *g2
}

/// The grids `rs` before and after each tile of column `i`, the rows taken
/// in the order that `fwd_j` says.
pub open spec fn column_trace(fgs: [FlagGrid; MAX_PLAYER], i: int, h: int, fwd_j: bool, rs: Seq<Grid>) -> bool {
    &&& rs.len() == h + 1
    &&& forall|n: int| 0 <= n < h ==> #[trigger] cell_migrated(&rs[n], &rs[n + 1], fgs, i, ordered(h, n, fwd_j))
}

/// The tiles of column `i` sent their citizens out in turn, taking `g1` to `g2`.
pub open spec fn column_migrated(g1: &Grid, g2: &Grid, fgs: [FlagGrid; MAX_PLAYER], i: int, h: int, fwd_j: bool) -> bool {
    exists|rs: Seq<Grid>| #[trigger] column_trace(fgs, i, h, fwd_j, rs) && rs[0] == *g1 && rs[h] == *g2
}

/// The grids `cs` before and after each column, the columns taken in the
/// order that `fwd_i` says and the rows in the order that `fwd_j` says.
pub open spec fn map_trace_m(fgs: [FlagGrid; MAX_PLAYER], w: int, h: int, fwd_i: bool, fwd_j: bool, cs: Seq<Grid>) -> bool {
    &&& cs.len() == w + 1
    &&& forall|n: int|
        0 <= n < w ==> #[trigger] column_migrated(&cs[n], &cs[n + 1], fgs, ordered(w, n, fwd_i), h, fwd_j)
}

/// What migration does to a map (see `migrate_from` for one tile and one
/// player): every tile in play sends out the citizens of each player in
/// turn, column by column and row by row, each order forwards or backwards
/// at random.
pub open spec fn migration_done(g1: &Grid, g2: &Grid, fgs: [FlagGrid; MAX_PLAYER]) -> bool {
    exists|fwd_i: bool, fwd_j: bool, cs: Seq<Grid>|
        #[trigger] map_trace_m(fgs, g1.width as int, g1.height as int, fwd_i, fwd_j, cs) && cs[0] == *g1
            && cs[g1.width as int] == *g2
}

/// Every tile in play, in a random order of columns and of rows, sends its
/// citizens of each player towards its neighbours (see `migration_done`).
fn migrate(rng: &mut ThreadRng, g: &mut Grid, fg: &[FlagGrid; MAX_PLAYER])
    requires
        grid_wf(old(g)),
        forall|p: int| 0 <= p < MAX_PLAYER ==> flag_grid_wf(#[trigger] &fg[p]),
    ensures
        grid_wf(final(g)),
        migrated(old(g), final(g)),
        migration_done(old(g), final(g), *fg),
{
    let ghost g0 = *g;
    let fwd_i = gen_bool(rng);
    let fwd_j = gen_bool(rng);
    let w = g.width;
    let h = g.height;
    let ghost mut cs: Seq<Grid> = seq![*g];
    let mut ii: i32 = 0;
    while ii < w
        invariant
            grid_wf(g),
            grid_wf(&g0),
            g.width == w,
            g.height == h,
            g0.width == w,
            g0.height == h,
            0 <= ii <= w,
            migrated(&g0, g),
            forall|p: int| 0 <= p < MAX_PLAYER ==> flag_grid_wf(#[trigger] &fg[p]),
            cs.len() == ii + 1,
            cs[0] == g0,
            cs[ii as int] == *g,
            forall|n: int|
                0 <= n < ii ==> #[trigger] column_migrated(&cs[n], &cs[n + 1], *fg, ordered(w as int, n, fwd_i), h as int, fwd_j),
        decreases w - ii,
    {
        let i = if fwd_i {
            ii
        } else {
            w - 1 - ii
        };
        let ghost gc = *g;
        let ghost mut rs: Seq<Grid> = seq![*g];
        let mut jj: i32 = 0;
        while jj < h
            invariant
                grid_wf(g),
                grid_wf(&g0),
                g.width == w,
                g.height == h,
                g0.width == w,
                g0.height == h,
                0 <= i < w,
                i == ordered(w as int, ii as int, fwd_i),
                0 <= jj <= h,
                migrated(&g0, g),
                forall|p: int| 0 <= p < MAX_PLAYER ==> flag_grid_wf(#[trigger] &fg[p]),
                rs.len() == jj + 1,
                rs[0] == gc,
                rs[jj as int] == *g,
                forall|n: int|
                    0 <= n < jj ==> #[trigger] cell_migrated(&rs[n], &rs[n + 1], *fg, i as int, ordered(h as int, n, fwd_j)),
            decreases h - jj,
        {
            let j = if fwd_j {
                jj
            } else {
                h - 1 - jj
            };
            let ghost gr = *g;
            let ghost mut ps: Seq<Grid> = seq![*g];
            for p in 0..MAX_PLAYER
                invariant
                    grid_wf(g),
                    grid_wf(&g0),
                    g.width == w,
                    g.height == h,
                    g0.width == w,
                    g0.height == h,
                    0 <= i < w,
                    0 <= j < h,
                    migrated(&g0, g),
                    forall|q: int| 0 <= q < MAX_PLAYER ==> flag_grid_wf(#[trigger] &fg[q]),
                    ps.len() == p + 1,
                    ps[0] == gr,
                    ps[p as int] == *g,
                    forall|q: int|
                        0 <= q < p ==> #[trigger] migrated_from(&ps[q], &ps[q + 1], &fg[q], q, i as int, j as int),
            {
                let ghost gb = *g;
                migrate_from(rng, g, &fg[p], i, j, p);
                proof {
                    lemma_migrated_trans(&g0, &gb, g);
                    let ps1 = ps.push(*g);
                    assert forall|q: int| 0 <= q < p + 1 implies #[trigger] migrated_from(
                        &ps1[q],
                        &ps1[q + 1],
                        &fg[q],
                        q,
                        i as int,
                        j as int,
                    ) by {
                        if q < p {
                            assert(ps1[q] == ps[q] && ps1[q + 1] == ps[q + 1]);
                        } else {
                            assert(ps1[q] == gb && ps1[q + 1] == *g);
                        }
                    }
                    ps = ps1;
                }
            }
            proof {
                assert(cell_trace(*fg, i as int, j as int, ps));
                assert(j == ordered(h as int, jj as int, fwd_j));
                assert(cell_migrated(&gr, g, *fg, i as int, j as int));
                let rs1 = rs.push(*g);
                assert forall|n: int| 0 <= n < jj + 1 implies #[trigger] cell_migrated(
                    &rs1[n],
                    &rs1[n + 1],
                    *fg,
                    i as int,
                    ordered(h as int, n, fwd_j),
                ) by {
                    if n < jj {
                        assert(rs1[n] == rs[n] && rs1[n + 1] == rs[n + 1]);
                    } else {
                        assert(rs1[n] == gr && rs1[n + 1] == *g);
                    }
                }
                rs = rs1;
            }
            jj = jj + 1;
        }
        proof {
            assert(column_trace(*fg, i as int, h as int, fwd_j, rs));
            assert(column_migrated(&gc, g, *fg, i as int, h as int, fwd_j));
            let cs1 = cs.push(*g);
            assert forall|n: int| 0 <= n < ii + 1 implies #[trigger] column_migrated(
                &cs1[n],
                &cs1[n + 1],
                *fg,
                ordered(w as int, n, fwd_i),
                h as int,
                fwd_j,
            ) by {
                if n < ii {
                    assert(cs1[n] == cs[n] && cs1[n + 1] == cs[n + 1]);
                } else {
                    assert(cs1[n] == gc && cs1[n + 1] == *g);
                }
            }
            cs = cs1;
        }
        ii = ii + 1;
    }
    proof {
        assert(map_trace_m(*fg, w as int, h as int, fwd_i, fwd_j, cs));
    }
}

// ---------------------------------------------------------------------------
// Owners, gold and the whole step
// ---------------------------------------------------------------------------

/// What the last pass does: every inhabitable tile in play goes to its
/// strongest player; nothing else changes.
pub open spec fn owners_settled(g2: &Grid, g3: &Grid) -> bool {
    &&& g3.width == g2.width
    &&& g3.height == g2.height
    &&& forall|a: int, b: int|
        in_array(a, b) ==> #[trigger] g3.tiles[a][b].cl == g2.tiles[a][b].cl && g3.tiles[a][b].units
            == g2.tiles[a][b].units
    &&& forall|a: int, b: int|
        in_array(a, b) && !passable(g2, a, b) ==> #[trigger] g3.tiles[a][b].pl == g2.tiles[a][b].pl
    &&& forall|a: int, b: int| #[trigger] passable(g2, a, b) ==> is_owner(g3.tiles[a][b].units, g3.tiles[a][b].pl as int)
}

/// Gives every inhabitable tile in play to its strongest player.
fn settle_owners(g: &mut Grid)
    requires
        grid_wf(old(g)),
    ensures
        grid_wf(final(g)),
        owners_settled(old(g), final(g)),
{
    let ghost g0 = *g;
    let w = g.width;
    let h = g.height;
    for i in 0..w
        invariant
            grid_wf(g),
            g.width == w,
            g.height == h,
            g0.width == w,
            g0.height == h,
            dims_ok(w as int, h as int),
            forall|a: int, b: int|
                in_array(a, b) ==> #[trigger] g.tiles[a][b].cl == g0.tiles[a][b].cl && g.tiles[a][b].units
                    == g0.tiles[a][b].units,
            forall|a: int, b: int|
                in_array(a, b) && !(passable(&g0, a, b) && a < i) ==> #[trigger] g.tiles[a][b].pl == g0.tiles[a][b].pl,
            forall|a: int, b: int|
                #[trigger] passable(&g0, a, b) && a < i ==> is_owner(g.tiles[a][b].units, g.tiles[a][b].pl as int),
    {
        for j in 0..h
            invariant
                grid_wf(g),
                g.width == w,
                g.height == h,
                g0.width == w,
                g0.height == h,
                dims_ok(w as int, h as int),
                0 <= i < w,
                forall|a: int, b: int|
                    in_array(a, b) ==> #[trigger] g.tiles[a][b].cl == g0.tiles[a][b].cl && g.tiles[a][b].units
                        == g0.tiles[a][b].units,
                forall|a: int, b: int|
                    in_array(a, b) && !(passable(&g0, a, b) && visited_before(a, b, i as int, j as int))
                        ==> #[trigger] g.tiles[a][b].pl == g0.tiles[a][b].pl,
                forall|a: int, b: int|
                    #[trigger] passable(&g0, a, b) && visited_before(a, b, i as int, j as int) ==> is_owner(
                        g.tiles[a][b].units,
                        g.tiles[a][b].pl as int,
                    ),
        {
            let iu = i as usize;
            let ju = j as usize;
            proof {
                assert(in_array(i as int, j as int));
            }
            if is_inhabitable(g.tiles[iu][ju].cl) {
                let ghost gb = *g;
                let o = owner_of(&g.tiles[iu][ju].units);
                g.tiles[iu][ju].pl = o;
                proof {
                    assert forall|a: int, b: int| in_array(a, b) implies tile_wf(#[trigger] g.tiles[a][b]) by {
                        assert(tile_wf(gb.tiles[a][b]));
                        if a == i && b == j {
                            assert forall|q: int| 0 <= q < MAX_PLAYER implies 0 <= #[trigger] pop(g.tiles[a][b], q)
                                <= MAX_POP by {
                                assert(0 <= pop(gb.tiles[a][b], q) <= MAX_POP);
                            }
                        }
                    }
                }
            }
        }
        proof {
            assert forall|a: int, b: int|
                in_array(a, b) && !(passable(&g0, a, b) && a < i + 1) implies #[trigger] g.tiles[a][b].pl
                == g0.tiles[a][b].pl by {
                if passable(&g0, a, b) {
                    assert(!visited_before(a, b, i as int, h as int));
                }
            }
        }
    }
}

/// Gold that each computer country with a positive treasury earns per step:
/// 1 on the hard difficulty, 2 on the hardest, none otherwise.
pub open spec fn bonus_gold(dif: ConfigDif) -> int {
    match dif {
        ConfigDif::Hard => 1,
        ConfigDif::Hardest => 2,
        _ => 0,
    }
}

/// Every country other than the neutral one and the controlled one, with a
/// positive treasury, earned `bonus_gold(dif)`; the others are unchanged.
pub open spec fn bonus_paid(c1: [Country; MAX_PLAYER], c2: [Country; MAX_PLAYER], dif: ConfigDif, controlled: int) -> bool {
    forall|p: int|
        0 <= p < MAX_PLAYER ==> #[trigger] c2[p].gold == c1[p].gold + if p != NEUTRAL && p != controlled && c1[p].gold
            > 0 {
            bonus_gold(dif)
        } else {
            0
        }
}

/// Pays the difficulty's bonus to the computer countries (see `bonus_paid`).
fn pay_bonus(country: &mut [Country; MAX_PLAYER], dif: ConfigDif, controlled: i32)
    requires
        forall|p: int| 0 <= p < MAX_PLAYER ==> #[trigger] old(country)[p].gold <= GOLD_CAP + MAX_WIDTH * MAX_HEIGHT,
    ensures
        bonus_paid(*old(country), *final(country), dif, controlled as int),
{
    let ghost c0 = *country;
    let add_gold: i64 = match dif {
        ConfigDif::Hard => 1,
        ConfigDif::Hardest => 2,
        _ => 0,
    };
    for i in 0..MAX_PLAYER
        invariant
            forall|p: int| 0 <= p < MAX_PLAYER ==> #[trigger] c0[p].gold <= GOLD_CAP + MAX_WIDTH * MAX_HEIGHT,
            add_gold == bonus_gold(dif),
            forall|p: int|
                0 <= p < i ==> #[trigger] country[p].gold == c0[p].gold + if p != NEUTRAL && p != controlled
                    && c0[p].gold > 0 {
                    bonus_gold(dif)
                } else {
                    0
                },
            forall|p: int| i <= p < MAX_PLAYER ==> #[trigger] country[p] == c0[p],
    {
        if i != NEUTRAL && i as i32 != controlled && country[i].gold > 0 {
            country[i].gold = country[i].gold + add_gold;
        }
    }
}

/// The kings after a step: when some tile changed class, each of the first
/// `kings_num` kings revalued the new map (see `evaluated`); the other kings,
/// and all kings when no tile changed class, are unchanged.
pub open spec fn kings_after_step(s0: &State, s1: &State) -> bool {
    &&& classes_changed(&s0.grid, &s1.grid) ==> forall|k: int|
        0 <= k < s0.kings_num ==> #[trigger] evaluated(&s0.king[k], &s1.king[k], &s1.grid, s0.dif)
    &&& forall|k: int| s0.kings_num <= k < MAX_PLAYER ==> #[trigger] s1.king[k] == s0.king[k]
    &&& !classes_changed(&s0.grid, &s1.grid) ==> s1.king == s0.king
}

/// `s1` is `s0` after a step that went through the maps `g1` (after the
/// first pass) and `g2` (after migration) and the treasuries `c1` (after the
/// first pass).
pub open spec fn stepped_via(s0: &State, s1: &State, g1: Grid, g2: Grid, c1: [Country; MAX_PLAYER]) -> bool {
    &&& first_pass_done(&s0.grid, &g1, s0.country, c1)
    &&& migrated(&g1, &g2)
    &&& migration_done(&g1, &g2, s0.fg)
    &&& owners_settled(&g2, &s1.grid)
    &&& bonus_paid(c1, s1.country, s0.dif, s0.controlled as int)
}

/// What a simulation step does: time advances by one; every tile keeps its
/// class or, for a city, goes one class down; the first pass,
/// migration and the last pass take the map from `s0` to `s1`; the bonus
/// is paid; the kings revalue the map when a tile changed class; nothing
/// else changes.
pub open spec fn simulated(s0: &State, s1: &State) -> bool {
    &&& s1.time == s0.time + 1
    &&& s1.grid.width == s0.grid.width
    &&& s1.grid.height == s0.grid.height
    &&& forall|a: int, b: int|
        in_array(a, b) ==> class_kept_or_lowered(s0.grid.tiles[a][b].cl, #[trigger] s1.grid.tiles[a][b].cl)
    &&& exists|g1: Grid, g2: Grid, c1: [Country; MAX_PLAYER]| #[trigger] stepped_via(s0, s1, g1, g2, c1)
    &&& kings_after_step(s0, s1)
    &&& s1.fg == s0.fg
    &&& s1.kings_num == s0.kings_num
    &&& s1.timeline == s0.timeline
    &&& s1.show_timeline == s0.show_timeline
    &&& s1.map_seed == s0.map_seed
    &&& s1.controlled == s0.controlled
    &&& s1.conditions == s0.conditions
    &&& s1.inequality == s0.inequality
    &&& s1.speed == s0.speed
    &&& s1.prev_speed == s0.prev_speed
    &&& s1.dif == s0.dif
}

/// The state on which a simulation step can run: a well-formed map and flag
/// layers, kings that are well formed, treasuries below `GOLD_CAP` and a
/// clock that can still advance.
pub open spec fn step_ready(s: &State) -> bool {
    &&& grid_wf(&s.grid)
    &&& forall|p: int| 0 <= p < MAX_PLAYER ==> flag_grid_wf(#[trigger] &s.fg[p])
    &&& forall|p: int| 0 <= p < MAX_PLAYER ==> #[trigger] s.country[p].gold <= GOLD_CAP
    &&& s.time < u64::MAX
    &&& 0 <= s.kings_num <= MAX_PLAYER
    &&& forall|k: int| 0 <= k < s.kings_num ==> king_wf(#[trigger] &s.king[k])
}

/// One step of the game (see `simulated`). After it every inhabitable tile
/// in play belongs to its strongest player.
pub fn simulate(s: &mut State)
    requires
        step_ready(old(s)),
    ensures
        simulated(old(s), final(s)),
        grid_wf(&final(s).grid),
        final(s).grid.width == old(s).grid.width,
        final(s).grid.height == old(s).grid.height,
        forall|a: int, b: int|
            #[trigger] passable(&final(s).grid, a, b) ==> is_owner(
                final(s).grid.tiles[a][b].units,
                final(s).grid.tiles[a][b].pl as int,
            ),
{
    let ghost s0 = *s;
    let mut rng = new_rng();
    s.time = s.time + 1;
    let mut g = s.grid;
    let mut c = s.country;
    let reeval = first_pass(&mut rng, &mut g, &mut c);
    let ghost g1 = g;
    let ghost c1 = c;
    migrate(&mut rng, &mut g, &s.fg);
    let ghost g2 = g;
    settle_owners(&mut g);
    s.grid = g;
    proof {
        assert forall|p: int| 0 <= p < MAX_PLAYER implies #[trigger] c[p].gold <= GOLD_CAP + MAX_WIDTH * MAX_HEIGHT by {
            if p != NEUTRAL {
                lemma_mines_upto_bounds(&g1, p, g1.width as int);
                assert(g1.width * g1.height <= MAX_WIDTH * MAX_HEIGHT) by (nonlinear_arith)
                    requires
                        0 <= g1.width <= MAX_WIDTH,
                        0 <= g1.height <= MAX_HEIGHT,
                ;
            }
        }
        assert(classes_changed(&s0.grid, &g) == reeval) by {
            if classes_changed(&s0.grid, &g1) {
                let (a, b) = choose|a: int, b: int| in_array(a, b) && #[trigger] g1.tiles[a][b].cl != s0.grid.tiles[a][b].cl;
                assert(g2.tiles[a][b].cl == g1.tiles[a][b].cl);
                assert(g.tiles[a][b].cl == g2.tiles[a][b].cl);
                assert(classes_changed(&s0.grid, &g));
            }
            if classes_changed(&s0.grid, &g) {
                let (a, b) = choose|a: int, b: int| in_array(a, b) && #[trigger] g.tiles[a][b].cl != s0.grid.tiles[a][b].cl;
                assert(g2.tiles[a][b].cl == g1.tiles[a][b].cl);
                assert(g.tiles[a][b].cl == g2.tiles[a][b].cl);
                assert(classes_changed(&s0.grid, &g1));
            }
        }
    }
    if reeval {
        let n = s.kings_num as usize;
        for k in 0..n
            invariant
                n == s0.kings_num,
                0 <= s0.kings_num <= MAX_PLAYER,
                dims_ok(s.grid.width as int, s.grid.height as int),
                s.kings_num == s0.kings_num,
                s.dif == s0.dif,
                forall|m: int| 0 <= m < s0.kings_num ==> king_wf(#[trigger] &s0.king[m]),
                forall|m: int| 0 <= m < k ==> #[trigger] evaluated(&s0.king[m], &s.king[m], &g, s0.dif),
                forall|m: int| k <= m < MAX_PLAYER ==> #[trigger] s.king[m] == s0.king[m],
                s.grid == g,
                s.fg == s0.fg,
                s.time == s0.time + 1,
                s.timeline == s0.timeline,
                s.show_timeline == s0.show_timeline,
                s.map_seed == s0.map_seed,
                s.controlled == s0.controlled,
                s.conditions == s0.conditions,
                s.inequality == s0.inequality,
                s.speed == s0.speed,
                s.prev_speed == s0.prev_speed,
                s.country == s0.country,
        {
            let mut kg = s.king[k];
            king_evaluate_map(&mut kg, &s.grid, s.dif);
            s.king[k] = kg;
        }
    }
    pay_bonus(&mut c, s.dif, s.controlled);
    s.country = c;
    proof {
        assert(stepped_via(&s0, s, g1, g2, c1));
        assert forall|a: int, b: int| #[trigger] passable(&s.grid, a, b) implies is_owner(
            s.grid.tiles[a][b].units,
            s.grid.tiles[a][b].pl as int,
        ) by {
            assert(in_array(a, b));
            assert(g.tiles[a][b].cl == g2.tiles[a][b].cl);
            assert(passable(&g2, a, b));
        }
        assert forall|a: int, b: int| in_array(a, b) implies class_kept_or_lowered(
            s0.grid.tiles[a][b].cl,
            #[trigger] s.grid.tiles[a][b].cl,
        ) by {
            assert(class_kept_or_lowered(s0.grid.tiles[a][b].cl, g1.tiles[a][b].cl));
            assert(g2.tiles[a][b].cl == g1.tiles[a][b].cl);
            assert(g.tiles[a][b].cl == g2.tiles[a][b].cl);
        }
    }
}

/// A step never takes gold from a country: mines and the bonus only add to it.
pub proof fn lemma_step_gold_grows(s0: &State, s1: &State)
    requires
        grid_wf(&s0.grid),
        simulated(s0, s1),
    ensures
        forall|p: int| 0 <= p < MAX_PLAYER ==> #[trigger] s1.country[p].gold >= s0.country[p].gold,
{
    let (g1, g2, c1) = choose|g1: Grid, g2: Grid, c1: [Country; MAX_PLAYER]| #[trigger] stepped_via(s0, s1, g1, g2, c1);
    assert forall|p: int| 0 <= p < MAX_PLAYER implies #[trigger] s1.country[p].gold >= s0.country[p].gold by {
        if p != NEUTRAL {
            lemma_mines_upto_bounds(&g1, p, g1.width as int);
        }
        assert(c1[p].gold >= s0.country[p].gold);
        assert(bonus_gold(s0.dif) >= 0);
    }
}

/// A battle only kills: no player's population grows, and none goes below 0.
pub proof fn lemma_battle_only_kills(u0: [[i32; MAX_CLASS]; MAX_PLAYER], u1: [[i32; MAX_CLASS]; MAX_PLAYER], pl: int, dd: int)
    requires
        units_ok(u0),
        battled(u0, u1, pl, dd),
    ensures
        forall|p: int| 0 <= p < MAX_PLAYER ==> 0 <= #[trigger] u1[p][0] <= u0[p][0],
{
    lemma_units_total_bounds(u0, MAX_PLAYER as int);
    assert forall|p: int| 0 <= p < MAX_PLAYER implies 0 <= #[trigger] u1[p][0] <= u0[p][0] by {
        assert(fought(u0, u1, pl, p, dd));
        let d = choose|d: int|
            #[trigger] battle_damage(u0, p, d) && u1[p][0] == (if u0[p][0] - d > 0 { u0[p][0] - d } else { 0 }) && (p == pl
                ==> dd == d);
        let t = units_total(u0, MAX_PLAYER as int);
        let m = u0[p][0] as int;
        assert(0 <= m <= t);
        if t != 0 {
            assert((t - m) * m >= 0) by (nonlinear_arith)
                requires
                    0 <= m <= t,
            ;
            assert((t - m) * m / t >= 0) by (nonlinear_arith)
                requires
                    (t - m) * m >= 0,
                    t > 0,
            ;
        }
    }
}

/// A step keeps the flag layers in agreement with the map: the flags do not
/// move and the passable positions stay.
pub proof fn lemma_step_keeps_flags_agreeing(s0: &State, s1: &State)
    requires
        grid_wf(&s0.grid),
        simulated(s0, s1),
        flags_agree(s0),
    ensures
        flags_agree(s1),
{
    assert forall|a: int, b: int| #[trigger] passable(&s0.grid, a, b) == passable(&s1.grid, a, b) by {
        if in_grid(&s0.grid, a, b) {
            assert(in_array(a, b));
            assert(class_kept_or_lowered(s0.grid.tiles[a][b].cl, s1.grid.tiles[a][b].cl));
        }
    }
    assert forall|p: int| 0 <= p < MAX_PLAYER implies flags_consistent(&s1.grid, #[trigger] &s1.fg[p]) by {
        assert(flags_consistent(&s0.grid, &s0.fg[p]));
        lemma_consistent_same_cells(&s0.grid, &s1.grid, &s1.fg[p]);
    }
}


/// Flags attract citizens: towards a passable neighbour whose call exceeds
/// the tile's by `dcall` (0 if it does not), a tile that still has citizens
/// sends a twentieth of its initial citizens `init` plus a tenth of them per
/// unit of `dcall`, rounded down or up: `r` is within one of
/// `init * (1 + 2 * dcall) / 20`, so the larger the call difference, the more
/// citizens go.
pub proof fn lemma_flags_attract(
    g1: &Grid,
    g2: &Grid,
    fg: &FlagGrid,
    p: int,
    i: int,
    j: int,
    init: int,
    k: int,
    r: int,
)
    requires
        0 <= init,
        dir_move(g1, g2, fg, p, i, j, init, k, r),
        passable(g1, i + dir_di(k), j + dir_dj(k)),
        pop(g1.tiles[i][j], p) > 0,
    ensures
        ({
            let dcall = spec_max(0, fg.call[i + dir_di(k)][j + dir_dj(k)] - fg.call[i][j]);
            &&& 20 * r > init * (1 + 2 * dcall) - 20
            &&& 20 * r < init * (1 + 2 * dcall) + 20
        }),
{
    let dcall = spec_max(0, fg.call[i + dir_di(k)][j + dir_dj(k)] - fg.call[i][j]);
    let s = init * (1 + 2 * dcall);
    assert(s == share20(init, dcall));
    assert(s >= 0) by (nonlinear_arith)
        requires
            init >= 0,
            dcall >= 0,
            s == init * (1 + 2 * dcall),
    ;
    assert(20 * (s / 20) + s % 20 == s);
    assert(0 <= s % 20 < 20);
}

} // verus!
