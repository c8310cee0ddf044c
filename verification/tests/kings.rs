use curseofwar::common::{ConfigDif, ConfigSpeed, Loc, TileClass, FLAG_OFF, FLAG_ON, MAX_HEIGHT, MAX_PLAYER, MAX_WIDTH};
use curseofwar::grid::{FlagGrid, Grid, Tile};
use curseofwar::king::{
    build, builder_default, degrade, king_evaluate_map, king_init, place_flags, Country, FlagPlan, King, Strategy,
};
use curseofwar::state::{State, Timeline};
use curseofwar::turns::kings_move;

fn owned_grass(w: i32, h: i32, pl: i32) -> Grid {
    Grid {
        width: w,
        height: h,
        tiles: [[Tile { cl: TileClass::Grassland, pl, units: [[0; 1]; MAX_PLAYER] }; MAX_HEIGHT]; MAX_WIDTH],
    }
}

fn no_flags(w: i32, h: i32) -> FlagGrid {
    FlagGrid { width: w, height: h, flag: [[FLAG_OFF; MAX_HEIGHT]; MAX_WIDTH], call: [[0; MAX_HEIGHT]; MAX_WIDTH] }
}

fn king_of(pl: i32, strategy: Strategy) -> King {
    King { value: [[0; MAX_HEIGHT]; MAX_WIDTH], pl, strategy }
}

fn plan_adding(spots: &[(usize, usize)]) -> FlagPlan {
    let mut add = [[false; MAX_HEIGHT]; MAX_WIDTH];
    for &(i, j) in spots {
        add[i][j] = true;
    }
    FlagPlan { add, low: [[false; MAX_HEIGHT]; MAX_WIDTH], score: [[0; MAX_HEIGHT]; MAX_WIDTH], best: None }
}

fn state_with(g: Grid) -> State {
    State {
        grid: g,
        fg: [no_flags(g.width, g.height); MAX_PLAYER],
        king: [king_of(0, Strategy::Idle); MAX_PLAYER],
        kings_num: 0,
        timeline: Timeline { data: [[0; 72]; MAX_PLAYER], time: [0; 72], mark: -1 },
        show_timeline: 0,
        country: [Country { gold: 0 }; MAX_PLAYER],
        time: 0,
        map_seed: 0,
        controlled: 1,
        conditions: 0,
        inequality: 0,
        speed: ConfigSpeed::Normal,
        prev_speed: ConfigSpeed::Normal,
        dif: ConfigDif::Normal,
    }
}

#[test]
fn building_costs_and_upgrades() {
    let mut g = owned_grass(3, 3, 1);
    let mut c = Country { gold: 500 };
    assert_eq!(build(&mut g, &mut c, 1, 1, 1), 0);
    assert_eq!(g.tiles[1][1].cl, TileClass::Village);
    assert_eq!(c.gold, 340);
    assert_eq!(build(&mut g, &mut c, 1, 1, 1), 0);
    assert_eq!(g.tiles[1][1].cl, TileClass::Town);
    assert_eq!(c.gold, 100);
    // not enough gold for a castle
    assert_eq!(build(&mut g, &mut c, 1, 1, 1), -1);
    assert_eq!(g.tiles[1][1].cl, TileClass::Town);
    assert_eq!(c.gold, 100);
    // not the owner, out of the map
    assert_eq!(build(&mut g, &mut c, 2, 0, 0), -1);
    assert_eq!(build(&mut g, &mut c, 1, 5, 0), -1);
    assert_eq!(g.tiles[0][0].cl, TileClass::Grassland);
}

#[test]
fn degrading_cities() {
    let mut g = owned_grass(3, 3, 1);
    g.tiles[0][0].cl = TileClass::Castle;
    assert_eq!(degrade(&mut g, 0, 0), 0);
    assert_eq!(g.tiles[0][0].cl, TileClass::Town);
    assert_eq!(degrade(&mut g, 0, 0), 0);
    assert_eq!(degrade(&mut g, 0, 0), 0);
    assert_eq!(g.tiles[0][0].cl, TileClass::Grassland);
    assert_eq!(degrade(&mut g, 0, 0), -1);
    assert_eq!(degrade(&mut g, -1, 0), -1);
}

#[test]
fn build_then_degrade_restores_the_map() {
    let mut g = owned_grass(4, 4, 2);
    let before = g;
    let mut c = Country { gold: 160 };
    assert_eq!(build(&mut g, &mut c, 2, 3, 1), 0);
    assert_eq!(degrade(&mut g, 3, 1), 0);
    for i in 0..MAX_WIDTH {
        for j in 0..MAX_HEIGHT {
            assert_eq!(g.tiles[i][j].cl, before.tiles[i][j].cl);
            assert_eq!(g.tiles[i][j].pl, before.tiles[i][j].pl);
        }
    }
    assert_eq!(c.gold, 0);
}

#[test]
fn king_setup() {
    let g = owned_grass(3, 3, 0);
    let mut k = king_of(0, Strategy::Idle);
    king_init(&mut k, 4, Strategy::Noble, &g, ConfigDif::Normal);
    assert_eq!(k.pl, 4);
    assert_eq!(k.strategy, Strategy::Noble);
}

#[test]
fn builder_picks_the_interior_army() {
    let mut g = owned_grass(3, 3, 1);
    g.tiles[1][1].units[1][0] = 100;
    g.tiles[0][0].units[1][0] = 10;
    let k = king_of(1, Strategy::Opportunist);
    let mut c = Country { gold: 200 };
    let mut fg = no_flags(3, 3);
    assert_eq!(builder_default(&k, &mut c, &mut g, &mut fg), 0);
    assert_eq!(g.tiles[1][1].cl, TileClass::Village);
    assert_eq!(c.gold, 40);
    // nothing else scores: no army of a tenth of the maximum elsewhere
    let mut poor = Country { gold: 1000 };
    let mut g2 = owned_grass(3, 3, 1);
    g2.tiles[2][2].units[1][0] = 48;
    assert_eq!(builder_default(&k, &mut poor, &mut g2, &mut fg), -1);
    assert_eq!(poor.gold, 1000);
}

#[test]
fn valuation_around_a_castle() {
    let mut g = owned_grass(5, 5, 0);
    g.tiles[2][2].cl = TileClass::Castle;
    let mut k = king_of(3, Strategy::Opportunist);
    k.value[30][20] = 17;
    king_evaluate_map(&mut k, &g, ConfigDif::Normal);
    // the castle's spread reaches the whole map, which is then flattened to
    // 0; the tiles valued after the castle get their bonus of 1 again
    for i in 0..5usize {
        for j in 0..5usize {
            let after = i > 2 || (i == 2 && j > 2);
            assert_eq!(k.value[i][j], if after { 1 } else { 0 }, "value at {} {}", i, j);
        }
    }
    assert_eq!(k.value[30][20], 17);
    assert_eq!(k.pl, 3);
}

#[test]
fn valuation_bonus_and_easier_difficulties() {
    let mut g = owned_grass(4, 4, 0);
    g.tiles[0][0].cl = TileClass::Mountain;
    let mut k = king_of(1, Strategy::PersistentGreedy);
    king_evaluate_map(&mut k, &g, ConfigDif::Normal);
    assert_eq!(k.value[0][0], 0);
    assert_eq!(k.value[1][1], 2);
    let mut easy = king_of(1, Strategy::PersistentGreedy);
    king_evaluate_map(&mut easy, &g, ConfigDif::Easiest);
    for i in 0..4 {
        for j in 0..4 {
            assert!(0 <= easy.value[i][j] && easy.value[i][j] <= 3);
        }
    }
}

#[test]
fn opportunist_moves_its_flags() {
    let g = owned_grass(5, 5, 0);
    let mut fg = no_flags(5, 5);
    fg.flag[0][0] = FLAG_ON;
    let k = king_of(2, Strategy::Opportunist);
    place_flags(&k, &g, &mut fg, &plan_adding(&[(2, 2)]));
    assert_eq!(fg.flag[0][0], FLAG_OFF);
    assert_eq!(fg.flag[2][2], FLAG_ON);
    assert_eq!(fg.call[2][2], 8);
}

#[test]
fn one_greedy_keeps_a_single_flag() {
    let g = owned_grass(5, 5, 0);
    let mut fg = no_flags(5, 5);
    let k = king_of(2, Strategy::OneGreedy);
    let mut plan = plan_adding(&[(2, 2), (3, 3)]);
    plan.best = Some(Loc { i: 1, j: 1 });
    place_flags(&k, &g, &mut fg, &plan);
    for i in 0..5 {
        for j in 0..5 {
            assert_eq!(fg.flag[i][j], if (i, j) == (1, 1) { FLAG_ON } else { FLAG_OFF });
        }
    }
}

#[test]
fn noble_flags_its_best_candidates() {
    let g = owned_grass(5, 5, 0);
    let mut fg = no_flags(5, 5);
    let k = king_of(2, Strategy::Noble);
    let spots = [(0, 0), (0, 1), (1, 0), (1, 1), (2, 2), (3, 3), (4, 4)];
    let mut plan = plan_adding(&spots);
    let scores = [100, 200, 300, 400, 500, 600, 0];
    for (n, &(i, j)) in spots.iter().enumerate() {
        plan.score[i][j] = scores[n];
    }
    place_flags(&k, &g, &mut fg, &plan);
    let on: Vec<(usize, usize)> =
        spots.iter().cloned().filter(|&(i, j)| fg.flag[i][j] == FLAG_ON).collect();
    assert_eq!(on, vec![(0, 1), (1, 0), (1, 1), (2, 2), (3, 3)]);
}

#[test]
fn idle_and_midas_kings_leave_flags() {
    let g = owned_grass(5, 5, 0);
    let mut fg = no_flags(5, 5);
    fg.flag[1][1] = FLAG_ON;
    place_flags(&king_of(2, Strategy::Midas), &g, &mut fg, &plan_adding(&[(2, 2)]));
    place_flags(&king_of(2, Strategy::Idle), &g, &mut fg, &plan_adding(&[(2, 2)]));
    assert_eq!(fg.flag[1][1], FLAG_ON);
    assert_eq!(fg.flag[2][2], FLAG_OFF);
}

#[test]
fn kings_take_turns() {
    let mut s = state_with(owned_grass(6, 6, 0));
    s.kings_num = 2;
    s.king[0] = king_of(2, Strategy::Opportunist);
    s.king[1] = king_of(3, Strategy::Opportunist);
    let mut plans = [plan_adding(&[]); MAX_PLAYER];
    plans[0] = plan_adding(&[(3, 3)]);
    plans[1] = plan_adding(&[(1, 4)]);
    kings_move(&mut s, &plans);
    assert_eq!(s.fg[2].flag[3][3], FLAG_ON);
    assert_eq!(s.fg[3].flag[1][4], FLAG_ON);
    assert_eq!(s.fg[1].flag[3][3], FLAG_OFF);
    // nobody built, so the kings did not revalue the map
    assert_eq!(s.king[0].value[3][3], 0);
}

#[test]
fn difficulty_only_cuts_the_values() {
    let mut g = owned_grass(8, 7, 0);
    g.tiles[2][3].cl = TileClass::Castle;
    g.tiles[5][1].cl = TileClass::Town;
    g.tiles[6][5].cl = TileClass::Mine;
    g.tiles[4][4].cl = TileClass::Mountain;
    let mut start = king_of(2, Strategy::Opportunist);
    start.value[20][20] = 7;
    let mut normal = start;
    king_evaluate_map(&mut normal, &g, ConfigDif::Normal);
    for dif in [ConfigDif::Hard, ConfigDif::Hardest] {
        let mut k = start;
        king_evaluate_map(&mut k, &g, dif);
        assert_eq!(k.value, normal.value);
    }
    for _ in 0..20 {
        let mut easy = start;
        king_evaluate_map(&mut easy, &g, ConfigDif::Easy);
        let mut easiest = start;
        king_evaluate_map(&mut easiest, &g, ConfigDif::Easiest);
        for i in 0..8 {
            for j in 0..7 {
                let v = normal.value[i][j];
                assert!((v / 2 - 1).max(0) <= easy.value[i][j] && easy.value[i][j] <= v / 2 + 1);
                assert!((v / 4 - 3).max(0) <= easiest.value[i][j] && easiest.value[i][j] <= v / 4 + 3);
            }
        }
        assert_eq!(easy.value[20][20], 7);
        assert_eq!(easiest.value[20][20], 7);
    }
}

#[test]
fn flags_keep_the_layer_size() {
    let g = owned_grass(5, 5, 0);
    for strategy in [Strategy::AggrGreedy, Strategy::Noble, Strategy::PersistentGreedy, Strategy::Midas] {
        let mut fg = no_flags(5, 5);
        let k = king_of(2, strategy);
        let mut plan = plan_adding(&[(2, 2), (1, 3)]);
        plan.score[2][2] = 9000;
        place_flags(&k, &g, &mut fg, &plan);
        assert_eq!((fg.width, fg.height), (5, 5));
    }
}
