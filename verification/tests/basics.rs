use curseofwar::common::{dir, in_segment, max_i32, min_i32, ConfigSpeed, Loc, MAX_PLAYER};
use curseofwar::output::{
    player_color, pop_to_symbol, posx, posy, symbol_text, tile_population, time_to_ymd,
};
use curseofwar::state::{faster, game_slowdown, slower, UI};

#[test]
fn min_max_and_segment() {
    assert_eq!(min_i32(3, -2), -2);
    assert_eq!(max_i32(3, -2), 3);
    assert_eq!(in_segment(5, 0, 3), 3);
    assert_eq!(in_segment(-1, 0, 3), 0);
    assert_eq!(in_segment(2, 0, 3), 2);
}

#[test]
fn six_directions() {
    let expected = [(-1, 0), (1, 0), (0, -1), (0, 1), (1, -1), (-1, 1)];
    for k in 0..6 {
        let l: Loc = dir(k);
        assert_eq!((l.i, l.j), expected[k]);
    }
}

#[test]
fn speeds_step_up_and_down() {
    assert_eq!(faster(ConfigSpeed::Pause), ConfigSpeed::Slowest);
    assert_eq!(faster(ConfigSpeed::Fastest), ConfigSpeed::Fastest);
    assert_eq!(slower(ConfigSpeed::Fastest), ConfigSpeed::Faster);
    assert_eq!(slower(ConfigSpeed::Pause), ConfigSpeed::Pause);
    assert_eq!(game_slowdown(ConfigSpeed::Normal), 20);
    assert_eq!(game_slowdown(ConfigSpeed::Pause), 1);
    assert_eq!(game_slowdown(ConfigSpeed::Fastest), 2);
}

#[test]
fn faster_then_slower_is_identity() {
    let all = [
        ConfigSpeed::Pause,
        ConfigSpeed::Slowest,
        ConfigSpeed::Slower,
        ConfigSpeed::Slow,
        ConfigSpeed::Normal,
        ConfigSpeed::Fast,
        ConfigSpeed::Faster,
    ];
    for sp in all {
        assert_eq!(slower(faster(sp)), sp);
        assert!(game_slowdown(faster(sp)) <= game_slowdown(sp) || sp == ConfigSpeed::Pause);
    }
}

#[test]
fn colours_of_players() {
    let expected = [6, 4, 5, 3, 6, 7, 8, 2];
    for p in 0..8 {
        assert_eq!(player_color(p), expected[p as usize]);
    }
    assert_eq!(player_color(8), -1);
    assert_eq!(player_color(-1), -1);
}

#[test]
fn population_symbols() {
    assert_eq!(pop_to_symbol(0), -1);
    assert_eq!(pop_to_symbol(1), 0);
    assert_eq!(pop_to_symbol(3), 0);
    assert_eq!(pop_to_symbol(4), 1);
    assert_eq!(pop_to_symbol(7), 2);
    assert_eq!(pop_to_symbol(13), 3);
    assert_eq!(pop_to_symbol(26), 4);
    assert_eq!(pop_to_symbol(51), 5);
    assert_eq!(pop_to_symbol(101), 6);
    assert_eq!(pop_to_symbol(201), 7);
    assert_eq!(pop_to_symbol(400), 7);
    assert_eq!(pop_to_symbol(401), 8);
    assert_eq!(symbol_text(8), ":::");
    assert_eq!(symbol_text(0), " . ");
    assert_eq!(symbol_text(-1), "");
}

#[test]
fn population_of_a_tile() {
    let mut units = [[0i32; 1]; MAX_PLAYER];
    units[1][0] = 10;
    units[3][0] = 499;
    assert_eq!(tile_population(&units), 509);
}

#[test]
fn dates() {
    assert_eq!(time_to_ymd(1850 * 360 + 45), (1850, 2, 16));
    assert_eq!(time_to_ymd(0), (0, 1, 1));
    assert_eq!(time_to_ymd(359), (0, 12, 30));
}

#[test]
fn screen_positions() {
    let ui = UI { cursor: Loc { i: 0, j: 0 }, xskip: 2, xlength: 10 };
    assert_eq!(posy(&ui, 3, 4), 5);
    assert_eq!(posx(&ui, 3, 4), 3 * 4 + 4 * 2 + 1 - 2 * 4);
}
