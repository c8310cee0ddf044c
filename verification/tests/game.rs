use curseofwar::common::{ConfigDif, ConfigSpeed, Loc, Stencil, TileClass, FLAG_OFF, MAX_HEIGHT, MAX_PLAYER, MAX_WIDTH};
use curseofwar::grid::{FlagGrid, Grid, Tile};
use curseofwar::king::{Country, King, Strategy};
use curseofwar::ready::{can_step, can_take_turns, grid_ok};
use curseofwar::setup::{state_init_begin, state_init_end};
use curseofwar::sim::{round_by_draw, simulate, GOLD_CAP};
use curseofwar::state::{adjust_cursor, ui_init, update_timeline, win_or_lose, BasicOptions, State, Timeline, UI};

fn grass(w: i32, h: i32) -> Grid {
    Grid {
        width: w,
        height: h,
        tiles: [[Tile { cl: TileClass::Grassland, pl: 0, units: [[0; 1]; MAX_PLAYER] }; MAX_HEIGHT]; MAX_WIDTH],
    }
}

fn blank_flags(w: i32, h: i32) -> FlagGrid {
    FlagGrid { width: w, height: h, flag: [[FLAG_OFF; MAX_HEIGHT]; MAX_WIDTH], call: [[0; MAX_HEIGHT]; MAX_WIDTH] }
}

fn new_state(g: Grid) -> Box<State> {
    Box::new(State {
        grid: g,
        fg: [blank_flags(g.width, g.height); MAX_PLAYER],
        king: [King { value: [[0; MAX_HEIGHT]; MAX_WIDTH], pl: 0, strategy: Strategy::Idle }; MAX_PLAYER],
        kings_num: 0,
        timeline: Timeline { data: [[0; 72]; MAX_PLAYER], time: [0; 72], mark: -1 },
        show_timeline: 0,
        country: [Country { gold: 0 }; MAX_PLAYER],
        time: 100,
        map_seed: 0,
        controlled: 1,
        conditions: 0,
        inequality: 0,
        speed: ConfigSpeed::Normal,
        prev_speed: ConfigSpeed::Normal,
        dif: ConfigDif::Normal,
    })
}

fn total_of(g: &Grid, p: usize) -> i32 {
    let mut n = 0;
    for i in 0..MAX_WIDTH {
        for j in 0..MAX_HEIGHT {
            n += g.tiles[i][j].units[p][0];
        }
    }
    n
}

#[test]
fn a_village_grows() {
    let mut g = grass(1, 1);
    g.tiles[0][0].cl = TileClass::Village;
    g.tiles[0][0].pl = 1;
    g.tiles[0][0].units[1][0] = 10;
    let mut s = new_state(g);
    assert!(can_step(&s));
    simulate(&mut s);
    assert_eq!(s.time, 101);
    assert_eq!(s.grid.tiles[0][0].units[1][0], 11);
    assert_eq!(s.grid.tiles[0][0].pl, 1);
}

#[test]
fn a_hard_battle_degrades_a_castle() {
    let mut g = grass(1, 1);
    g.tiles[0][0].cl = TileClass::Castle;
    g.tiles[0][0].pl = 1;
    g.tiles[0][0].units[1][0] = 200;
    g.tiles[0][0].units[2][0] = 300;
    let mut s = new_state(g);
    simulate(&mut s);
    let t = s.grid.tiles[0][0];
    // each side loses the other's share: 300 * 200 / 500 = 120
    assert_eq!(t.cl, TileClass::Town);
    assert_eq!(t.units[1][0], 80);
    assert_eq!(t.pl, 2);
    // the town grows its owner's 180 by a fifth
    assert_eq!(t.units[2][0], 216);
}

#[test]
fn migration_keeps_every_citizen() {
    let mut g = grass(6, 5);
    g.tiles[2][2].pl = 1;
    g.tiles[2][2].units[1][0] = 200;
    g.tiles[4][1].pl = 3;
    g.tiles[4][1].units[3][0] = 77;
    let mut s = new_state(g);
    for _ in 0..5 {
        let before1 = total_of(&s.grid, 1);
        let before3 = total_of(&s.grid, 3);
        simulate(&mut s);
        let shared = (0..6).any(|i| (0..5).any(|j| {
            let u = s.grid.tiles[i][j].units;
            u[1][0] > 0 && u[3][0] > 0
        }));
        if shared {
            break;
        }
        assert_eq!(total_of(&s.grid, 1), before1);
        assert_eq!(total_of(&s.grid, 3), before3);
    }
}

#[test]
fn tiles_go_to_the_strongest() {
    let mut g = grass(4, 4);
    for i in 0..4 {
        for j in 0..4 {
            g.tiles[i][j].units[(i + j) % 8][0] = 30 + (i * 4 + j) as i32;
        }
    }
    g.tiles[0][0].cl = TileClass::Mountain;
    g.tiles[0][0].units = [[0; 1]; MAX_PLAYER];
    let mut s = new_state(g);
    simulate(&mut s);
    for i in 0..4 {
        for j in 0..4 {
            let t = s.grid.tiles[i][j];
            if t.cl == TileClass::Mountain {
                continue;
            }
            let best = (0..8).map(|p| t.units[p][0]).max().unwrap();
            let first = (0..8).find(|&p| t.units[p][0] == best).unwrap();
            assert_eq!(t.pl, first as i32);
        }
    }
}

#[test]
fn mines_pay_their_owner() {
    let mut g = grass(2, 1);
    g.tiles[0][0].pl = 1;
    g.tiles[0][0].units[1][0] = 5;
    g.tiles[1][0].cl = TileClass::Mine;
    let mut s = new_state(g);
    simulate(&mut s);
    assert_eq!(s.grid.tiles[1][0].pl, 1);
    assert_eq!(s.country[1].gold, 1);
    assert_eq!(s.grid.tiles[0][0].units[1][0], 5);
    // the bonus of the hardest difficulty goes to the computer players only
    let mut g2 = grass(2, 1);
    g2.tiles[0][0].pl = 4;
    g2.tiles[0][0].units[4][0] = 5;
    g2.tiles[1][0].cl = TileClass::Mine;
    let mut s2 = new_state(g2);
    s2.dif = ConfigDif::Hardest;
    simulate(&mut s2);
    assert_eq!(s2.country[4].gold, 3);
    assert_eq!(s2.country[1].gold, 0);
}

#[test]
fn a_step_never_takes_gold() {
    let mut g = grass(5, 5);
    g.tiles[2][2].cl = TileClass::Mine;
    g.tiles[1][2].pl = 2;
    g.tiles[1][2].units[2][0] = 40;
    g.tiles[3][2].pl = 3;
    g.tiles[3][2].units[3][0] = 40;
    let mut s = new_state(g);
    s.country[2].gold = 50;
    s.dif = ConfigDif::Hard;
    for _ in 0..4 {
        let before: Vec<i64> = s.country.iter().map(|c| c.gold).collect();
        simulate(&mut s);
        for p in 0..MAX_PLAYER {
            assert!(s.country[p].gold >= before[p]);
        }
    }
}

#[test]
fn outcome_of_the_game() {
    let mut g = grass(3, 3);
    g.tiles[0][0].units[1][0] = 10;
    let mut s = new_state(g);
    assert_eq!(win_or_lose(&s), 1);
    s.grid.tiles[2][2].units[2][0] = 5;
    assert_eq!(win_or_lose(&s), 0);
    s.grid.tiles[0][0].units[1][0] = 0;
    assert_eq!(win_or_lose(&s), -1);
    // citizens on a mountain do not count
    s.grid.tiles[2][2].cl = TileClass::Mountain;
    assert_eq!(win_or_lose(&s), 1);
}

#[test]
fn cursor_starts_on_the_largest_army() {
    let mut g = grass(6, 4);
    g.tiles[4][1].units[1][0] = 30;
    g.tiles[1][3].units[1][0] = 20;
    g.tiles[0][0].cl = TileClass::Abyss;
    let s = new_state(g);
    let mut ui = UI { cursor: Loc { i: 0, j: 0 }, xskip: 0, xlength: 0 };
    ui_init(&s, &mut ui);
    assert_eq!((ui.cursor.i, ui.cursor.j), (4, 1));
    // visible tiles have doubled abscissas 2i + j from 1 to 13
    assert_eq!(ui.xskip, 0);
    assert_eq!(ui.xlength, 7);
}

#[test]
fn cursor_moves_on_visible_tiles() {
    let mut g = grass(4, 4);
    g.tiles[2][1].cl = TileClass::Abyss;
    let s = new_state(g);
    let mut ui = UI { cursor: Loc { i: 1, j: 1 }, xskip: 0, xlength: 0 };
    adjust_cursor(&s, &mut ui, 9, 9);
    assert_eq!((ui.cursor.i, ui.cursor.j), (3, 3));
    ui.cursor = Loc { i: 1, j: 1 };
    adjust_cursor(&s, &mut ui, 2, 1);
    assert_eq!((ui.cursor.i, ui.cursor.j), (1, 1));
}

#[test]
fn timeline_records_populations() {
    let mut g = grass(3, 3);
    g.tiles[1][1].units[2][0] = 12;
    g.tiles[0][1].units[2][0] = 3;
    let mut s = new_state(g);
    update_timeline(&mut s);
    assert_eq!(s.timeline.mark, 0);
    assert_eq!(s.timeline.time[0], 100);
    assert_eq!(s.timeline.data[2][0], 15);
    for _ in 0..80 {
        update_timeline(&mut s);
    }
    assert_eq!(s.timeline.mark, 71);
    assert_eq!(s.timeline.data[2][71], 15);
    let (speed, shown, seed) = (s.speed, s.show_timeline, s.map_seed);
    update_timeline(&mut s);
    assert!(s.speed == speed);
    assert_eq!(s.show_timeline, shown);
    assert_eq!(s.map_seed, seed);
}

#[test]
fn game_setup() {
    let op = BasicOptions {
        keep_random_flag: 0,
        dif: ConfigDif::Hard,
        speed: ConfigSpeed::Fast,
        w: 10,
        h: 10,
        loc_num: 4,
        map_seed: 7,
        conditions: 0,
        timeline_flag: 1,
        inequality: -1,
        shape: Stencil::Rect,
    };
    let mut s = new_state(grass(10, 10));
    state_init_begin(&mut s, &op, 1);
    assert_eq!(s.kings_num, 6);
    for k in 0..6 {
        assert_eq!(s.king[k].pl, k as i32 + 2);
        assert_eq!(s.king[k].strategy, Strategy::Opportunist);
    }
    assert!(1850 * 360 <= s.time && s.time < 1950 * 360);
    assert_eq!(s.controlled, 1);
    assert_eq!(s.speed, ConfigSpeed::Fast);
    assert_eq!(s.map_seed, 7);
    s.grid.tiles[3][3].cl = TileClass::Castle;
    s.fg[2].flag[1][1] = 1;
    s.country[3].gold = 99;
    state_init_end(&mut s, &op);
    assert_eq!(s.fg[2].flag[1][1], FLAG_OFF);
    assert_eq!(s.fg[5].width, 10);
    assert_eq!(s.country[3].gold, 0);
    assert_eq!(s.timeline.mark, -1);
    assert_eq!(s.show_timeline, 1);
    assert_eq!(s.timeline.time[71], s.time);
    assert!(can_step(&s));
    assert!(can_take_turns(&s));
}

#[test]
fn readiness_checks() {
    let mut s = new_state(grass(3, 3));
    assert!(grid_ok(&s.grid));
    assert!(can_step(&s));
    s.country[2].gold = GOLD_CAP + 1;
    assert!(!can_step(&s));
    s.country[2].gold = 0;
    s.grid.tiles[1][1].units[0][0] = 500;
    assert!(!grid_ok(&s.grid));
    s.grid.tiles[1][1].units[0][0] = 0;
    s.kings_num = 2;
    s.king[0].pl = 3;
    s.king[1].pl = 3;
    assert!(!can_take_turns(&s));
    s.king[1].pl = 4;
    assert!(can_take_turns(&s));
}

#[test]
fn rounding_follows_the_draw() {
    // 17 / 5: 3 with remainder 2, so the draws 0 and 1 round up
    assert_eq!(round_by_draw(17, 5, 0), 4);
    assert_eq!(round_by_draw(17, 5, 1), 4);
    assert_eq!(round_by_draw(17, 5, 2), 3);
    assert_eq!(round_by_draw(17, 5, 4), 3);
    // an exact quotient never rounds up
    assert_eq!(round_by_draw(20, 5, 0), 4);
    assert_eq!(round_by_draw(0, 7, 0), 0);
}
