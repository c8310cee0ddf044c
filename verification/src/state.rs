//! The game state: options, speed, the cursor, the timeline, the kings'
//! turn, and the verdict on the game.
use vstd::prelude::*;
use crate::common::{
    ConfigDif, ConfigSpeed, Loc, MAX_HEIGHT, MAX_PLAYER, MAX_TIMELINE_MARK, MAX_WIDTH, Stencil, in_segment,
    spec_in_segment,
};
use crate::grid::{
    FlagGrid, Grid, dims_ok, grid_wf, in_array, in_grid, is_inhabitable, is_visible, pop,
    spec_is_inhabitable, spec_is_visible,
};
use crate::king::{Country, King};

verus! {

/// The cursor of the player and the horizontal extent of the drawn map.
#[derive(Clone, Copy, Debug)]
pub struct UI {
    pub cursor: Loc,
    pub xskip: i32,
    pub xlength: i32,
}

/// Population of each player sampled over time (`data` holds counts of citizens).
#[derive(Clone, Copy, Debug)]
pub struct Timeline {
    pub data: [[i32; MAX_TIMELINE_MARK]; MAX_PLAYER],
    pub time: [u64; MAX_TIMELINE_MARK],
    pub mark: i32,
}

/// Options of a game.
#[derive(Clone, Copy, Debug)]
pub struct BasicOptions {
    pub keep_random_flag: i32,
    pub dif: ConfigDif,
    pub speed: ConfigSpeed,
    pub w: i32,
    pub h: i32,
    pub loc_num: i32,
    pub map_seed: u32,
    pub conditions: i32,
    pub timeline_flag: i32,
    pub inequality: i32,
    pub shape: Stencil,
}

/// The whole state of a game.
#[derive(Clone, Copy, Debug)]
pub struct State {
    pub grid: Grid,
    pub fg: [FlagGrid; MAX_PLAYER],
    pub king: [King; MAX_PLAYER],
    pub kings_num: i32,
    pub timeline: Timeline,
    pub show_timeline: i32,
    pub country: [Country; MAX_PLAYER],
    pub time: u64,
    pub map_seed: i32,
    pub controlled: i32,
    pub conditions: i32,
    pub inequality: i32,
    pub speed: ConfigSpeed,
    pub prev_speed: ConfigSpeed,
    pub dif: ConfigDif,
}

// ---------------------------------------------------------------------------
// Speed
// ---------------------------------------------------------------------------

/// Rank of a speed, from 0 (pause) to 7 (fastest).
pub open spec fn speed_rank(sp: ConfigSpeed) -> int {
    match sp {
        ConfigSpeed::Pause => 0,
        ConfigSpeed::Slowest => 1,
        ConfigSpeed::Slower => 2,
        ConfigSpeed::Slow => 3,
        ConfigSpeed::Normal => 4,
        ConfigSpeed::Fast => 5,
        ConfigSpeed::Faster => 6,
        ConfigSpeed::Fastest => 7,
    }
}

pub open spec fn spec_faster(sp: ConfigSpeed) -> ConfigSpeed {
    match sp {
        ConfigSpeed::Pause => ConfigSpeed::Slowest,
        ConfigSpeed::Slowest => ConfigSpeed::Slower,
        ConfigSpeed::Slower => ConfigSpeed::Slow,
        ConfigSpeed::Slow => ConfigSpeed::Normal,
        ConfigSpeed::Normal => ConfigSpeed::Fast,
        ConfigSpeed::Fast => ConfigSpeed::Faster,
        _ => ConfigSpeed::Fastest,
    }
}

pub open spec fn spec_slower(sp: ConfigSpeed) -> ConfigSpeed {
    match sp {
        ConfigSpeed::Fastest => ConfigSpeed::Faster,
        ConfigSpeed::Faster => ConfigSpeed::Fast,
        ConfigSpeed::Fast => ConfigSpeed::Normal,
        ConfigSpeed::Normal => ConfigSpeed::Slow,
        ConfigSpeed::Slow => ConfigSpeed::Slower,
        ConfigSpeed::Slower => ConfigSpeed::Slowest,
        _ => ConfigSpeed::Pause,
    }
}

/// The next faster speed; the fastest stays.
pub fn faster(sp: ConfigSpeed) -> (r: ConfigSpeed)
    ensures
        r == spec_faster(sp),
        speed_rank(r) == if speed_rank(sp) < 7 { speed_rank(sp) + 1 } else { 7 },
{
    match sp {
        ConfigSpeed::Pause => ConfigSpeed::Slowest,
        ConfigSpeed::Slowest => ConfigSpeed::Slower,
        ConfigSpeed::Slower => ConfigSpeed::Slow,
        ConfigSpeed::Slow => ConfigSpeed::Normal,
        ConfigSpeed::Normal => ConfigSpeed::Fast,
        ConfigSpeed::Fast => ConfigSpeed::Faster,
        _ => ConfigSpeed::Fastest,
    }
}

/// The next slower speed; pause stays.
pub fn slower(sp: ConfigSpeed) -> (r: ConfigSpeed)
    ensures
        r == spec_slower(sp),
        speed_rank(r) == if speed_rank(sp) > 0 { speed_rank(sp) - 1 } else { 0 },
{
    match sp {
        ConfigSpeed::Fastest => ConfigSpeed::Faster,
        ConfigSpeed::Faster => ConfigSpeed::Fast,
        ConfigSpeed::Fast => ConfigSpeed::Normal,
        ConfigSpeed::Normal => ConfigSpeed::Slow,
        ConfigSpeed::Slow => ConfigSpeed::Slower,
        ConfigSpeed::Slower => ConfigSpeed::Slowest,
        _ => ConfigSpeed::Pause,
    }
}

/// Speeding up and then slowing down gives back the speed, unless it was the
/// fastest; slowing down and then speeding up too, unless it was the pause.
pub proof fn lemma_faster_slower_inverse(sp: ConfigSpeed)
    ensures
        sp != ConfigSpeed::Fastest ==> spec_slower(spec_faster(sp)) == sp,
        sp != ConfigSpeed::Pause ==> spec_faster(spec_slower(sp)) == sp,
{
}

/// The slowdown never grows when the game goes faster (pause aside).
pub proof fn lemma_slowdown_decreasing(sp: ConfigSpeed)
    requires
        sp != ConfigSpeed::Pause,
    ensures
        spec_game_slowdown(spec_faster(sp)) <= spec_game_slowdown(sp),
{
}

pub open spec fn spec_game_slowdown(speed: ConfigSpeed) -> int {
    match speed {
        ConfigSpeed::Pause => 1,
        ConfigSpeed::Slowest => 160,
        ConfigSpeed::Slower => 80,
        ConfigSpeed::Slow => 40,
        ConfigSpeed::Normal => 20,
        ConfigSpeed::Fast => 10,
        ConfigSpeed::Faster => 5,
        ConfigSpeed::Fastest => 2,
    }
}

/// Number of clock ticks between two steps of the game at a speed.
pub fn game_slowdown(speed: ConfigSpeed) -> (r: i32)
    ensures
        r == spec_game_slowdown(speed),
{
    match speed {
        ConfigSpeed::Pause => 1,
        ConfigSpeed::Slowest => 160,
        ConfigSpeed::Slower => 80,
        ConfigSpeed::Slow => 40,
        ConfigSpeed::Normal => 20,
        ConfigSpeed::Fast => 10,
        ConfigSpeed::Faster => 5,
        ConfigSpeed::Fastest => 2,
    }
}

// ---------------------------------------------------------------------------
// Populations
// ---------------------------------------------------------------------------

/// Citizens of player `p` on the inhabitable tiles of column `i`, rows below `n`.
pub open spec fn col_pop(g: &Grid, p: int, i: int, n: int) -> int
    decreases n,
{
    if n <= 0 {
        0
    } else {
        col_pop(g, p, i, n - 1) + if spec_is_inhabitable(g.tiles[i][n - 1].cl) {
            pop(g.tiles[i][n - 1], p)
        } else {
            0
        }
    }
}

/// Citizens of player `p` on the inhabitable tiles in play of the columns below `n`.
pub open spec fn grid_pop_upto(g: &Grid, p: int, n: int) -> int
    decreases n,
{
    if n <= 0 {
        0
    } else {
        grid_pop_upto(g, p, n - 1) + col_pop(g, p, n - 1, g.height as int)
    }
}

/// Citizens of player `p` on the inhabitable tiles in play.
pub open spec fn grid_pop(g: &Grid, p: int) -> int {
    grid_pop_upto(g, p, g.width as int)
}

proof fn lemma_col_pop_bounds(g: &Grid, p: int, i: int, n: int)
    requires
        grid_wf(g),
        0 <= p < MAX_PLAYER,
        0 <= i < MAX_WIDTH,
        0 <= n <= MAX_HEIGHT,
    ensures
        0 <= col_pop(g, p, i, n) <= n * 499,
    decreases n,
{
    if n > 0 {
        lemma_col_pop_bounds(g, p, i, n - 1);
        assert(in_array(i, n - 1));
        assert(crate::grid::tile_wf(g.tiles[i][n - 1]));
        assert(0 <= pop(g.tiles[i][n - 1], p) <= 499);
    }
}

proof fn lemma_grid_pop_bounds(g: &Grid, p: int, n: int)
    requires
        grid_wf(g),
        0 <= p < MAX_PLAYER,
        0 <= n <= MAX_WIDTH,
    ensures
        0 <= grid_pop_upto(g, p, n) <= n * (MAX_HEIGHT * 499),
    decreases n,
{
    if n > 0 {
        lemma_grid_pop_bounds(g, p, n - 1);
        lemma_col_pop_bounds(g, p, n - 1, g.height as int);
        assert(g.height * 499 <= MAX_HEIGHT * 499);
    }
}

/// The outcome of the game for the controlled player: 1 when no other player
/// has citizens left, -1 when the controlled player has none, 0 otherwise.
pub open spec fn spec_win_or_lose(g: &Grid, controlled: int) -> int {
    if forall|p: int| 0 <= p < MAX_PLAYER && p != controlled ==> #[trigger] grid_pop(g, p) == 0 {
        1
    } else if grid_pop(g, controlled) == 0 {
        -1
    } else {
        0
    }
}

fn population(g: &Grid, p: usize) -> (r: i32)
    requires
        grid_wf(g),
        p < MAX_PLAYER,
    ensures
        r == grid_pop(g, p as int),
{
    let mut total: i32 = 0;
    let w = g.width as usize;
    let h = g.height as usize;
    for i in 0..w
        invariant
            grid_wf(g),
            p < MAX_PLAYER,
            w == g.width,
            h == g.height,
            total == grid_pop_upto(g, p as int, i as int),
    {
        proof {
            lemma_grid_pop_bounds(g, p as int, i as int);
        }
        let mut col: i32 = 0;
        for j in 0..h
            invariant
                grid_wf(g),
                p < MAX_PLAYER,
                i < w,
                w == g.width,
                h == g.height,
                col == col_pop(g, p as int, i as int, j as int),
        {
            proof {
                lemma_col_pop_bounds(g, p as int, i as int, j as int);
                assert(in_array(i as int, j as int));
                assert(crate::grid::tile_wf(g.tiles[i as int][j as int]));
                assert(0 <= pop(g.tiles[i as int][j as int], p as int) <= 499);
            }
            if is_inhabitable(g.tiles[i][j].cl) {
                col = col + g.tiles[i][j].units[p][0];
            }
        }
        proof {
            lemma_col_pop_bounds(g, p as int, i as int, h as int);
            assert(i * (MAX_HEIGHT * 499) + h * 499 <= MAX_WIDTH * (MAX_HEIGHT * 499)) by (nonlinear_arith)
                requires
                    i < MAX_WIDTH,
                    h <= MAX_HEIGHT,
            ;
        }
        total = total + col;
    }
    total
}

/// Whether the controlled player has won (1), lost (-1) or neither (0).
pub fn win_or_lose(st: &State) -> (r: i32)
    requires
        grid_wf(&st.grid),
        0 <= st.controlled < MAX_PLAYER,
    ensures
        r == spec_win_or_lose(&st.grid, st.controlled as int),
{
    let mut win = true;
    let mut p: usize = 0;
    while p < MAX_PLAYER
        invariant
            grid_wf(&st.grid),
            0 <= st.controlled < MAX_PLAYER,
            p <= MAX_PLAYER,
            win == forall|q: int| 0 <= q < p && q != st.controlled ==> #[trigger] grid_pop(&st.grid, q) == 0,
        decreases MAX_PLAYER - p,
    {
        let n = population(&st.grid, p);
        proof {
            lemma_grid_pop_bounds(&st.grid, p as int, st.grid.width as int);
        }
        if p as i32 != st.controlled && n > 0 {
            win = false;
        }
        p += 1;
    }
    let own = population(&st.grid, st.controlled as usize);
    if win {
        1
    } else if own == 0 {
        -1
    } else {
        0
    }
}

// ---------------------------------------------------------------------------
// Timeline
// ---------------------------------------------------------------------------

/// Citizens of player `p` on the tiles of column `i`, rows below `n` (in play or not).
pub open spec fn acol_pop(g: &Grid, p: int, i: int, n: int) -> int
    decreases n,
{
    if n <= 0 {
        0
    } else {
        acol_pop(g, p, i, n - 1) + pop(g.tiles[i][n - 1], p)
    }
}

pub open spec fn all_pop_upto(g: &Grid, p: int, n: int) -> int
    decreases n,
{
    if n <= 0 {
        0
    } else {
        all_pop_upto(g, p, n - 1) + acol_pop(g, p, n - 1, MAX_HEIGHT as int)
    }
}

/// Citizens of player `p` on all the tiles of the grid.
pub open spec fn all_pop(g: &Grid, p: int) -> int {
    all_pop_upto(g, p, MAX_WIDTH as int)
}

proof fn lemma_acol_pop_bounds(g: &Grid, p: int, i: int, n: int)
    requires
        grid_wf(g),
        0 <= p < MAX_PLAYER,
        0 <= i < MAX_WIDTH,
        0 <= n <= MAX_HEIGHT,
    ensures
        0 <= acol_pop(g, p, i, n) <= n * 499,
    decreases n,
{
    if n > 0 {
        lemma_acol_pop_bounds(g, p, i, n - 1);
        assert(in_array(i, n - 1));
        assert(crate::grid::tile_wf(g.tiles[i][n - 1]));
        assert(0 <= pop(g.tiles[i][n - 1], p) <= 499);
    }
}

proof fn lemma_all_pop_bounds(g: &Grid, p: int, n: int)
    requires
        grid_wf(g),
        0 <= p < MAX_PLAYER,
        0 <= n <= MAX_WIDTH,
    ensures
        0 <= all_pop_upto(g, p, n) <= n * (MAX_HEIGHT * 499),
    decreases n,
{
    if n > 0 {
        lemma_all_pop_bounds(g, p, n - 1);
        lemma_acol_pop_bounds(g, p, n - 1, MAX_HEIGHT as int);
    }
}

fn count_all(g: &Grid, p: usize) -> (r: i32)
    requires
        grid_wf(g),
        p < MAX_PLAYER,
    ensures
        r == all_pop(g, p as int),
{
    let mut count: i32 = 0;
    for i in 0..MAX_WIDTH
        invariant
            grid_wf(g),
            p < MAX_PLAYER,
            count == all_pop_upto(g, p as int, i as int),
    {
        proof {
            lemma_all_pop_bounds(g, p as int, i as int);
        }
        let mut col: i32 = 0;
        for j in 0..MAX_HEIGHT
            invariant
                grid_wf(g),
                p < MAX_PLAYER,
                i < MAX_WIDTH,
                col == acol_pop(g, p as int, i as int, j as int),
        {
            proof {
                lemma_acol_pop_bounds(g, p as int, i as int, j as int);
                assert(in_array(i as int, j as int));
                assert(crate::grid::tile_wf(g.tiles[i as int][j as int]));
                assert(0 <= pop(g.tiles[i as int][j as int], p as int) <= 499);
            }
            col = col + g.tiles[i][j].units[p][0];
        }
        proof {
            lemma_acol_pop_bounds(g, p as int, i as int, MAX_HEIGHT as int);
        }
        count = count + col;
    }
    count
}

/// The mark of the newest sample after one is recorded on a timeline whose
/// newest mark was `mark`: the next one, or the last when the timeline is full.
pub open spec fn new_mark(mark: i32) -> int {
    if mark + 1 >= MAX_TIMELINE_MARK {
        mark as int
    } else {
        mark + 1
    }
}

/// What `update_timeline` records: the timeline advances by one mark, or,
/// when it is full, drops its oldest sample; the new last sample holds the
/// time and each player's citizens.
pub open spec fn timeline_updated(s0: &State, s1: &State) -> bool {
    let t0 = s0.timeline;
    let t1 = s1.timeline;
    let full = t0.mark + 1 >= MAX_TIMELINE_MARK;
    let m = new_mark(t0.mark);
    &&& t1.mark == m
    &&& t1.time[m] == s0.time
    &&& forall|p: int| 0 <= p < MAX_PLAYER ==> #[trigger] t1.data[p][new_mark(t0.mark)] == all_pop(&s0.grid, p)
    &&& forall|k: int|
        0 <= k < MAX_TIMELINE_MARK && k != m ==> #[trigger] t1.time[k] == if full { t0.time[k + 1] } else {
            t0.time[k]
        }
    &&& forall|p: int, k: int|
        0 <= p < MAX_PLAYER && 0 <= k < MAX_TIMELINE_MARK && k != m ==> #[trigger] t1.data[p][k] == if full {
            t0.data[p][k + 1]
        } else {
            t0.data[p][k]
        }
    &&& s1.grid == s0.grid
    &&& s1.time == s0.time
}

/// All fields but the timeline agree.
pub open spec fn same_but_timeline(s1: &State, s0: &State) -> bool {
    *s1 == (State { timeline: s1.timeline, ..*s0 })
}

/// Records the current time and the citizens of each player as the newest
/// sample of the timeline.
pub fn update_timeline(s: &mut State)
    requires
        grid_wf(&old(s).grid),
        -1 <= old(s).timeline.mark < MAX_TIMELINE_MARK,
    ensures
        timeline_updated(old(s), final(s)),
        same_but_timeline(final(s), old(s)),
        final(s).fg == old(s).fg,
        final(s).king == old(s).king,
        final(s).country == old(s).country,
        final(s).controlled == old(s).controlled,
        final(s).kings_num == old(s).kings_num,
{
    let ghost t0 = s.timeline;
    let ghost s0 = *s;
    if (s.timeline.mark + 1) < MAX_TIMELINE_MARK as i32 {
        s.timeline.mark += 1;
    } else {
        for i in 0..(MAX_TIMELINE_MARK - 1)
            invariant
                s.timeline.mark == t0.mark,
                same_but_timeline(s, old(s)),
                forall|k: int|
                    0 <= k < MAX_TIMELINE_MARK ==> #[trigger] s.timeline.time[k] == if k < i { t0.time[k + 1] } else {
                        t0.time[k]
                    },
                forall|p: int, k: int|
                    0 <= p < MAX_PLAYER && 0 <= k < MAX_TIMELINE_MARK ==> #[trigger] s.timeline.data[p][k] == if k < i {
                        t0.data[p][k + 1]
                    } else {
                        t0.data[p][k]
                    },
        {
            s.timeline.time[i] = s.timeline.time[i + 1];
            for p in 0..MAX_PLAYER
                invariant
                    i < MAX_TIMELINE_MARK - 1,
                    s.timeline.mark == t0.mark,
                    same_but_timeline(s, old(s)),
                    forall|k: int|
                        0 <= k < MAX_TIMELINE_MARK ==> #[trigger] s.timeline.time[k] == if k < i + 1 { t0.time[k + 1] } else {
                            t0.time[k]
                        },
                    forall|q: int, k: int|
                        0 <= q < MAX_PLAYER && 0 <= k < MAX_TIMELINE_MARK ==> #[trigger] s.timeline.data[q][k] == if k < i || (k == i && q < p) {
                            t0.data[q][k + 1]
                        } else {
                            t0.data[q][k]
                        },
            {
                s.timeline.data[p][i] = s.timeline.data[p][i + 1];
            }
        }
    }
    let m = s.timeline.mark as usize;
    let ghost t1 = s.timeline;
    s.timeline.time[m] = s.time;
    for p in 0..MAX_PLAYER
        invariant
            m == s.timeline.mark,
            m < MAX_TIMELINE_MARK,
            grid_wf(&s.grid),
            s.timeline.mark == t1.mark,
            same_but_timeline(s, old(s)),
            forall|k: int| 0 <= k < MAX_TIMELINE_MARK ==> #[trigger] s.timeline.time[k] == if k == m { s.time } else { t1.time[k] },
            forall|q: int, k: int|
                0 <= q < MAX_PLAYER && 0 <= k < MAX_TIMELINE_MARK ==> #[trigger] s.timeline.data[q][k] == if k == m && q < p {
                    all_pop(&s.grid, q)
                } else {
                    t1.data[q][k] as int
                },
    {
        let count = count_all(&s.grid, p);
        s.timeline.data[p][m] = count;
    }
}

// ---------------------------------------------------------------------------
// Cursor
// ---------------------------------------------------------------------------

/// Citizens of the controlled player on tile `(i, j)`.
pub open spec fn own_pop(s: &State, i: int, j: int) -> int {
    pop(s.grid.tiles[i][j], s.controlled as int)
}

/// `(ci, cj)` is where the cursor starts: the centre of the map, unless some
/// tile holds more of the controlled player's citizens than the centre; then
/// the first tile of the scan with the most of them.
pub open spec fn start_cursor(s: &State, ci: int, cj: int) -> bool {
    let c0i = s.grid.width / 2;
    let c0j = s.grid.height / 2;
    let v0 = own_pop(s, c0i as int, c0j as int);
    ||| (ci == c0i && cj == c0j && forall|a: int, b: int| #[trigger] in_grid(&s.grid, a, b) ==> own_pop(s, a, b) <= v0)
    ||| (in_grid(&s.grid, ci, cj) && own_pop(s, ci, cj) > v0 && (forall|a: int, b: int|
        #[trigger] in_grid(&s.grid, a, b) ==> own_pop(s, a, b) <= own_pop(s, ci, cj)) && (forall|a: int, b: int|
        #[trigger] in_grid(&s.grid, a, b) && (a < ci || (a == ci && b < cj)) ==> own_pop(s, a, b) < own_pop(s, ci, cj)))
}

/// Abscissa (doubled) at which tile `(i, j)` is drawn.
pub open spec fn x2_of(i: int, j: int) -> int {
    2 * i + j
}

/// `xs` is the smallest doubled abscissa of a visible tile, capped at `2 * MAX_WIDTH + 1`.
pub open spec fn leftmost(g: &Grid, xs: int) -> bool {
    &&& xs <= 2 * MAX_WIDTH + 1
    &&& forall|a: int, b: int| #[trigger] in_grid(g, a, b) && spec_is_visible(g.tiles[a][b].cl) ==> xs <= x2_of(a, b)
    &&& xs == 2 * MAX_WIDTH + 1 || exists|a: int, b: int|
        #[trigger] in_grid(g, a, b) && spec_is_visible(g.tiles[a][b].cl) && xs == x2_of(a, b)
}

/// `xr` is the largest doubled abscissa of a visible tile, at least 0.
pub open spec fn rightmost(g: &Grid, xr: int) -> bool {
    &&& xr >= 0
    &&& forall|a: int, b: int| #[trigger] in_grid(g, a, b) && spec_is_visible(g.tiles[a][b].cl) ==> x2_of(a, b) <= xr
    &&& xr == 0 || exists|a: int, b: int|
        #[trigger] in_grid(g, a, b) && spec_is_visible(g.tiles[a][b].cl) && xr == x2_of(a, b)
}

/// Puts the cursor on the controlled player's strongest tile (see
/// `start_cursor`) and computes the horizontal extent of the visible map.
pub fn ui_init(s: &State, ui: &mut UI)
    requires
        grid_wf(&s.grid),
        0 <= s.controlled < MAX_PLAYER,
    ensures
        start_cursor(s, final(ui).cursor.i as int, final(ui).cursor.j as int),
        exists|xs: int, xr: int|
            leftmost(&s.grid, xs) && rightmost(&s.grid, xr) && final(ui).xskip == xs / 2
                && final(ui).xlength == (xr + 1) / 2 - xs / 2,
{
    let g = &s.grid;
    let c = s.controlled as usize;
    ui.cursor = Loc { i: g.width / 2, j: g.height / 2 };
    let ghost c0i = g.width / 2;
    let ghost c0j = g.height / 2;
    proof {
        assert(in_array(c0i as int, c0j as int));
    }
    let w = g.width;
    let h = g.height;
    let mut i: i32 = 0;
    while i < w
        invariant
            grid_wf(g),
            g == &s.grid,
            c == s.controlled,
            c < MAX_PLAYER,
            w == g.width,
            h == g.height,
            0 <= i <= w,
            in_array(ui.cursor.i as int, ui.cursor.j as int),
            ({
                let v0 = own_pop(s, c0i as int, c0j as int);
                ||| (ui.cursor.i == c0i && ui.cursor.j == c0j && forall|a: int, b: int|
                    #[trigger] in_grid(g, a, b) && a < i ==> own_pop(s, a, b) <= v0)
                ||| (in_grid(g, ui.cursor.i as int, ui.cursor.j as int) && ui.cursor.i < i && own_pop(s, ui.cursor.i as int, ui.cursor.j as int) > v0
                    && (forall|a: int, b: int| #[trigger] in_grid(g, a, b) && a < i ==> own_pop(s, a, b) <= own_pop(s, ui.cursor.i as int, ui.cursor.j as int))
                    && (forall|a: int, b: int| #[trigger] in_grid(g, a, b) && (a < ui.cursor.i || (a == ui.cursor.i && b < ui.cursor.j)) ==> own_pop(s, a, b) < own_pop(s, ui.cursor.i as int, ui.cursor.j as int)))
            }),
        decreases w - i,
    {
        let mut j: i32 = 0;
        while j < h
            invariant
                grid_wf(g),
                g == &s.grid,
                c == s.controlled,
                c < MAX_PLAYER,
                w == g.width,
                h == g.height,
                0 <= i < w,
                0 <= j <= h,
                in_array(ui.cursor.i as int, ui.cursor.j as int),
                ({
                    let v0 = own_pop(s, c0i as int, c0j as int);
                    ||| (ui.cursor.i == c0i && ui.cursor.j == c0j && forall|a: int, b: int|
                        #[trigger] in_grid(g, a, b) && (a < i || (a == i && b < j)) ==> own_pop(s, a, b) <= v0)
                    ||| (in_grid(g, ui.cursor.i as int, ui.cursor.j as int) && (ui.cursor.i < i || (ui.cursor.i == i && ui.cursor.j < j)) && own_pop(s, ui.cursor.i as int, ui.cursor.j as int) > v0
                        && (forall|a: int, b: int| #[trigger] in_grid(g, a, b) && (a < i || (a == i && b < j)) ==> own_pop(s, a, b) <= own_pop(s, ui.cursor.i as int, ui.cursor.j as int))
                        && (forall|a: int, b: int| #[trigger] in_grid(g, a, b) && (a < ui.cursor.i || (a == ui.cursor.i && b < ui.cursor.j)) ==> own_pop(s, a, b) < own_pop(s, ui.cursor.i as int, ui.cursor.j as int)))
                }),
            decreases h - j,
        {
            if g.tiles[i as usize][j as usize].units[c][0] > g.tiles[ui.cursor.i as usize][ui.cursor.j as usize].units[c][0] {
                ui.cursor.i = i;
                ui.cursor.j = j;
            }
            j += 1;
        }
        i += 1;
    }
    let mut xskip_x2: i32 = (MAX_WIDTH as i32) * 2 + 1;
    let mut xrightmost_x2: i32 = 0;
    let ghost mut wl: (int, int) = (0, 0);
    let ghost mut wr: (int, int) = (0, 0);
    i = 0;
    while i < w
        invariant
            grid_wf(g),
            w == g.width,
            h == g.height,
            0 <= i <= w,
            xskip_x2 <= 2 * MAX_WIDTH + 1,
            xrightmost_x2 >= 0,
            forall|a: int, b: int| #[trigger] in_grid(g, a, b) && a < i && spec_is_visible(g.tiles[a][b].cl) ==> xskip_x2 <= x2_of(a, b) && x2_of(a, b) <= xrightmost_x2,
            xskip_x2 == 2 * MAX_WIDTH + 1 || (in_grid(g, wl.0, wl.1) && spec_is_visible(g.tiles[wl.0][wl.1].cl) && xskip_x2 == x2_of(wl.0, wl.1)),
            xrightmost_x2 == 0 || (in_grid(g, wr.0, wr.1) && spec_is_visible(g.tiles[wr.0][wr.1].cl) && xrightmost_x2 == x2_of(wr.0, wr.1)),
        decreases w - i,
    {
        let mut j: i32 = 0;
        while j < h
            invariant
                grid_wf(g),
                w == g.width,
                h == g.height,
                0 <= i < w,
                0 <= j <= h,
                xskip_x2 <= 2 * MAX_WIDTH + 1,
                xrightmost_x2 >= 0,
                forall|a: int, b: int| #[trigger] in_grid(g, a, b) && (a < i || (a == i && b < j)) && spec_is_visible(g.tiles[a][b].cl) ==> xskip_x2 <= x2_of(a, b) && x2_of(a, b) <= xrightmost_x2,
                xskip_x2 == 2 * MAX_WIDTH + 1 || (in_grid(g, wl.0, wl.1) && spec_is_visible(g.tiles[wl.0][wl.1].cl) && xskip_x2 == x2_of(wl.0, wl.1)),
                xrightmost_x2 == 0 || (in_grid(g, wr.0, wr.1) && spec_is_visible(g.tiles[wr.0][wr.1].cl) && xrightmost_x2 == x2_of(wr.0, wr.1)),
            decreases h - j,
        {
            if is_visible(g.tiles[i as usize][j as usize].cl) {
                let x = i * 2 + j;
                if xskip_x2 > x {
                    xskip_x2 = x;
                    proof {
                        wl = (i as int, j as int);
                    }
                }
                if xrightmost_x2 < x {
                    xrightmost_x2 = x;
                    proof {
                        wr = (i as int, j as int);
                    }
                }
            }
            j += 1;
        }
        i += 1;
    }
    ui.xskip = xskip_x2 / 2;
    ui.xlength = (xrightmost_x2 + 1) / 2 - xskip_x2 / 2;
    proof {
        assert(leftmost(g, xskip_x2 as int));
        assert(rightmost(g, xrightmost_x2 as int));
    }
}

/// Where `adjust_cursor` puts the cursor: the target clamped to the map if
/// visible; else the old column in the target row; else the column left,
/// then right, of the target in the target row; else it stays.
pub open spec fn adjusted(s: &State, ci0: int, cj0: int, ti: int, tj: int, ci: int, cj: int) -> bool {
    let g = &s.grid;
    let i = spec_in_segment(ti, 0, g.width - 1);
    let j = spec_in_segment(tj, 0, g.height - 1);
    let il = spec_in_segment(i - 1, 0, g.width - 1);
    let ir = spec_in_segment(i + 1, 0, g.width - 1);
    if spec_is_visible(g.tiles[i][j].cl) {
        ci == i && cj == j
    } else if spec_is_visible(g.tiles[ci0][j].cl) {
        ci == ci0 && cj == j
    } else if spec_is_visible(g.tiles[il][j].cl) {
        ci == il && cj == j
    } else if spec_is_visible(g.tiles[ir][j].cl) {
        ci == ir && cj == j
    } else {
        ci == ci0 && cj == cj0
    }
}

/// Moves the cursor towards `(cursi, cursj)`, staying on visible tiles (see `adjusted`).
pub fn adjust_cursor(s: &State, ui: &mut UI, cursi: i32, cursj: i32)
    requires
        dims_ok(s.grid.width as int, s.grid.height as int),
        s.grid.width >= 1,
        s.grid.height >= 1,
        0 <= old(ui).cursor.i < MAX_WIDTH,
    ensures
        adjusted(s, old(ui).cursor.i as int, old(ui).cursor.j as int, cursi as int, cursj as int, final(ui).cursor.i as int, final(ui).cursor.j as int),
        final(ui).xskip == old(ui).xskip,
        final(ui).xlength == old(ui).xlength,
{
    let g = &s.grid;
    let ci = in_segment(cursi, 0, g.width - 1);
    let cj = in_segment(cursj, 0, g.height - 1);
    if is_visible(g.tiles[ci as usize][cj as usize].cl) {
        ui.cursor.i = ci;
        ui.cursor.j = cj;
    } else if is_visible(g.tiles[ui.cursor.i as usize][cj as usize].cl) {
        ui.cursor.j = cj;
    } else {
        let mut i = in_segment(ci - 1, 0, g.width - 1);
        if is_visible(g.tiles[i as usize][cj as usize].cl) {
            ui.cursor.i = i;
            ui.cursor.j = cj;
        } else {
            i = in_segment(ci + 1, 0, g.width - 1);
            if is_visible(g.tiles[i as usize][cj as usize].cl) {
                ui.cursor.i = i;
                ui.cursor.j = cj;
            }
        }
    }
}

} // verus!
