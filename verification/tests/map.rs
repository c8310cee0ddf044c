use curseofwar::common::{Loc, Stencil, TileClass, FLAG_OFF, FLAG_ON, FLAG_POWER, MAX_AVLBL_LOC, MAX_HEIGHT, MAX_PLAYER, MAX_WIDTH};
use curseofwar::flags::{add_flag, remove_flag, remove_picked_flags};
use curseofwar::flood::{even, is_connected, spread};
use curseofwar::grid::{
    apply_stencil, flag_grid_init, is_a_city, is_inhabitable, is_visible, stencil_avlbl_loc_num, FlagGrid, Grid, Tile,
};
use curseofwar::mapgen::{
    conflict_assign, conflict_reset, conflict_settle, eval_locations, grid_init, inequality_ok, place_castles, shuffle,
    sort_increasing, tile_of_draws, START_CITIZENS,
};

fn grass_grid(w: i32, h: i32) -> Grid {
    Grid {
        width: w,
        height: h,
        tiles: [[Tile { cl: TileClass::Grassland, pl: 0, units: [[0; 1]; MAX_PLAYER] }; MAX_HEIGHT]; MAX_WIDTH],
    }
}

fn empty_flags(w: i32, h: i32) -> FlagGrid {
    FlagGrid { width: w, height: h, flag: [[FLAG_OFF; MAX_HEIGHT]; MAX_WIDTH], call: [[0; MAX_HEIGHT]; MAX_WIDTH] }
}

fn hex_dist(a: (i32, i32), b: (i32, i32)) -> i32 {
    let di = b.0 - a.0;
    let dj = b.1 - a.1;
    if (di >= 0) == (dj >= 0) {
        di.abs() + dj.abs()
    } else {
        di.abs().max(dj.abs())
    }
}

#[test]
fn tile_kinds() {
    assert!(is_a_city(TileClass::Village) && is_a_city(TileClass::Town) && is_a_city(TileClass::Castle));
    assert!(!is_a_city(TileClass::Grassland) && !is_a_city(TileClass::Mine));
    assert!(is_inhabitable(TileClass::Grassland) && is_inhabitable(TileClass::Castle));
    assert!(!is_inhabitable(TileClass::Mountain) && !is_inhabitable(TileClass::Mine) && !is_inhabitable(TileClass::Abyss));
    assert!(is_visible(TileClass::Mine) && !is_visible(TileClass::Abyss));
}

#[test]
fn stencil_location_counts() {
    assert_eq!(stencil_avlbl_loc_num(Stencil::Rhombus), 4);
    assert_eq!(stencil_avlbl_loc_num(Stencil::Rect), 4);
    assert_eq!(stencil_avlbl_loc_num(Stencil::Hex), 6);
}

#[test]
fn rhombus_stencil_keeps_the_map() {
    let mut g = grass_grid(10, 8);
    let mut loc = [Loc { i: 0, j: 0 }; MAX_AVLBL_LOC];
    let mut n = 0;
    apply_stencil(Stencil::Rhombus, &mut g, 2, &mut loc, &mut n);
    assert_eq!(n, 4);
    for i in 0..10 {
        for j in 0..8 {
            assert_eq!(g.tiles[i][j].cl, TileClass::Grassland);
        }
    }
    assert_eq!((loc[0].i, loc[0].j), (2, 2));
    assert_eq!((loc[1].i, loc[1].j), (7, 5));
    assert_eq!((loc[2].i, loc[2].j), (2, 5));
    assert_eq!((loc[3].i, loc[3].j), (7, 2));
}

#[test]
fn hex_stencil_cuts_corners_and_empties_them() {
    let mut g = grass_grid(10, 8);
    g.tiles[0][0].pl = 3;
    g.tiles[0][0].units[3][0] = 20;
    let mut loc = [Loc { i: 0, j: 0 }; MAX_AVLBL_LOC];
    let mut n = 0;
    apply_stencil(Stencil::Hex, &mut g, 2, &mut loc, &mut n);
    assert_eq!(n, 6);
    // dx = 4: i + j < 4 or i + j > 9 + 7 - 4 is cut away
    assert_eq!(g.tiles[0][0].cl, TileClass::Abyss);
    assert_eq!(g.tiles[0][0].pl, 0);
    assert_eq!(g.tiles[0][0].units[3][0], 0);
    assert_eq!(g.tiles[9][7].cl, TileClass::Abyss);
    assert_eq!(g.tiles[2][2].cl, TileClass::Grassland);
    assert_eq!(g.tiles[5][7].cl, TileClass::Grassland);
    assert_eq!(g.tiles[6][7].cl, TileClass::Abyss);
}

#[test]
fn rect_stencil_shape() {
    let mut g = grass_grid(10, 8);
    let mut loc = [Loc { i: 0, j: 0 }; MAX_AVLBL_LOC];
    let mut n = 0;
    apply_stencil(Stencil::Rect, &mut g, 2, &mut loc, &mut n);
    assert_eq!(n, 4);
    // a tile is cut where 2i + j < h - 1 or 2i + j > 2w - 2
    for i in 0..10i32 {
        for j in 0..8i32 {
            let out = 2 * i + j < 7 || 2 * i + j > 18;
            let cl = g.tiles[i as usize][j as usize].cl;
            assert_eq!(cl == TileClass::Abyss, out, "tile {} {}", i, j);
        }
    }
}

#[test]
fn flag_layer_init() {
    let mut fg = empty_flags(0, 0);
    fg.flag[3][3] = FLAG_ON;
    fg.call[3][3] = 7;
    fg.flag[39][28] = FLAG_ON;
    flag_grid_init(&mut fg, 50, 10);
    assert_eq!(fg.width, 40);
    assert_eq!(fg.height, 10);
    assert_eq!(fg.flag[3][3], FLAG_OFF);
    assert_eq!(fg.call[3][3], 0);
    assert_eq!(fg.flag[39][28], FLAG_ON);
}

#[test]
fn spread_halves_with_distance() {
    let g = grass_grid(5, 5);
    let mut u = [[0i32; MAX_HEIGHT]; MAX_WIDTH];
    let mut v = [[0i32; MAX_HEIGHT]; MAX_WIDTH];
    spread(&g, &mut u, &mut v, 2, 2, 8, 1);
    for i in 0..5 {
        for j in 0..5 {
            let d = hex_dist((2, 2), (i, j));
            let expected = if d >= 4 { 0 } else { 8 >> d };
            assert_eq!(u[i as usize][j as usize], expected, "u at {} {}", i, j);
            assert_eq!(v[i as usize][j as usize], expected, "v at {} {}", i, j);
        }
    }
    assert_eq!(u[5][5], 0);
}

#[test]
fn spread_stops_at_mountains() {
    let mut g = grass_grid(5, 1);
    g.tiles[2][0].cl = TileClass::Mountain;
    let mut u = [[0i32; MAX_HEIGHT]; MAX_WIDTH];
    let mut v = [[0i32; MAX_HEIGHT]; MAX_WIDTH];
    spread(&g, &mut u, &mut v, 0, 0, 8, 1);
    assert_eq!(u[0][0], 8);
    assert_eq!(u[1][0], 4);
    assert_eq!(u[2][0], 0);
    assert_eq!(u[3][0], 0);
}

#[test]
fn even_fills_a_region() {
    let g = grass_grid(4, 1);
    let mut v = [[0i32; MAX_HEIGHT]; MAX_WIDTH];
    v[0][0] = 5;
    v[1][0] = 6;
    v[2][0] = 0;
    v[3][0] = 7;
    even(&g, &mut v, 0, 0, 0);
    // the fill stops at positions that already hold the value
    assert_eq!((v[0][0], v[1][0], v[2][0], v[3][0]), (0, 0, 0, 7));
    let mut w = [[0i32; MAX_HEIGHT]; MAX_WIDTH];
    w[0][0] = 1;
    w[1][0] = 1;
    w[2][0] = 2;
    even(&g, &mut w, 0, 0, 2);
    assert_eq!((w[0][0], w[1][0], w[2][0], w[3][0]), (2, 2, 2, 0));
}

#[test]
fn connectedness_of_owned_tiles() {
    let mut g = grass_grid(5, 1);
    g.tiles[0][0].pl = 1;
    g.tiles[4][0].pl = 2;
    assert!(is_connected(&g));
    g.tiles[2][0].cl = TileClass::Mountain;
    assert!(!is_connected(&g));
    let empty = grass_grid(3, 3);
    assert!(is_connected(&empty));
}

#[test]
fn add_then_remove_flag_restores_the_layer() {
    let g = grass_grid(6, 6);
    let mut fg = empty_flags(6, 6);
    let before = fg;
    add_flag(&g, &mut fg, 2, 3, FLAG_POWER);
    assert_eq!(fg.flag[2][3], FLAG_ON);
    assert_eq!(fg.call[2][3], 8);
    assert_eq!(fg.call[3][3], 4);
    assert_eq!(fg.call[4][3], 2);
    remove_flag(&g, &mut fg, 2, 3, FLAG_POWER);
    assert_eq!(fg.flag, before.flag);
    assert_eq!(fg.call, before.call);
}

#[test]
fn flags_stay_off_mountains_and_do_not_double() {
    let mut g = grass_grid(4, 4);
    g.tiles[1][1].cl = TileClass::Mountain;
    let mut fg = empty_flags(4, 4);
    add_flag(&g, &mut fg, 1, 1, FLAG_POWER);
    assert_eq!(fg.flag[1][1], FLAG_OFF);
    assert_eq!(fg.call[1][1], 0);
    add_flag(&g, &mut fg, 2, 2, FLAG_POWER);
    let once = fg;
    add_flag(&g, &mut fg, 2, 2, FLAG_POWER);
    assert_eq!(fg.call, once.call);
    add_flag(&g, &mut fg, 9, 9, FLAG_POWER);
    assert_eq!(fg.call, once.call);
}

#[test]
fn picked_flags_are_removed() {
    let g = grass_grid(6, 6);
    let mut fg = empty_flags(6, 6);
    add_flag(&g, &mut fg, 1, 1, FLAG_POWER);
    add_flag(&g, &mut fg, 4, 4, FLAG_POWER);
    let mut picks = [[false; MAX_HEIGHT]; MAX_WIDTH];
    picks[1][1] = true;
    picks[3][3] = true;
    remove_picked_flags(&g, &mut fg, &picks);
    assert_eq!(fg.flag[1][1], FLAG_OFF);
    assert_eq!(fg.flag[4][4], FLAG_ON);
    assert_eq!(fg.call[4][4], 8);
    assert_eq!(fg.call[1][1], 0);
}

#[test]
fn tiles_from_draws() {
    let castle = tile_of_draws(0, 0, 0, 3);
    assert_eq!(castle.cl, TileClass::Castle);
    assert_eq!(castle.pl, 3);
    assert_eq!(castle.units[3][0], START_CITIZENS);
    assert_eq!(castle.units[2][0], 0);
    assert_eq!(tile_of_draws(0, 2, 0, 1).cl, TileClass::Town);
    assert_eq!(tile_of_draws(0, 5, 0, 1).cl, TileClass::Village);
    let mine = tile_of_draws(3, 0, 0, 5);
    assert_eq!(mine.cl, TileClass::Mine);
    assert_eq!(mine.pl, 0);
    assert_eq!(tile_of_draws(4, 0, 7, 5).cl, TileClass::Mountain);
    let grass = tile_of_draws(5, 0, 0, 6);
    assert_eq!(grass.cl, TileClass::Grassland);
    assert_eq!(grass.pl, 6);
    assert_eq!(grass.units[6][0], 0);
}

#[test]
fn random_map_is_well_formed_and_varied() {
    let mut g = grass_grid(0, 0);
    g.tiles[39][28].pl = 5;
    grid_init(&mut g, 45, 20);
    assert_eq!(g.width, 40);
    assert_eq!(g.height, 20);
    let mut grass = 0;
    let mut owners = std::collections::HashSet::new();
    for i in 0..40 {
        for j in 0..20 {
            let t = g.tiles[i][j];
            if t.cl == TileClass::Mountain || t.cl == TileClass::Mine {
                assert_eq!(t.pl, 0);
            } else {
                assert!(1 <= t.pl && t.pl < 8);
                owners.insert(t.pl);
            }
            if t.cl == TileClass::Grassland {
                grass += 1;
            }
            let total: i32 = t.units.iter().map(|u| u[0]).sum();
            assert_eq!(total, if is_a_city(t.cl) { 10 } else { 0 });
        }
    }
    assert!(grass > 0);
    assert!(owners.len() > 1);
    assert_eq!(g.tiles[39][28].pl, 5);
}

#[test]
fn conflict_reset_clears_cities() {
    let mut g = grass_grid(4, 4);
    g.tiles[1][1] = tile_of_draws(0, 0, 0, 2);
    g.tiles[2][2].cl = TileClass::Mine;
    g.tiles[2][2].pl = 3;
    conflict_reset(&mut g);
    assert_eq!(g.tiles[1][1].cl, TileClass::Grassland);
    assert_eq!(g.tiles[1][1].pl, 0);
    assert_eq!(g.tiles[1][1].units[2][0], 0);
    assert_eq!(g.tiles[2][2].cl, TileClass::Mine);
    assert_eq!(g.tiles[2][2].pl, 0);
}

#[test]
fn castles_are_placed_with_two_mines() {
    let mut g = grass_grid(12, 12);
    let mut loc = [Loc { i: 0, j: 0 }; MAX_AVLBL_LOC];
    loc[0] = Loc { i: 3, j: 3 };
    loc[1] = Loc { i: 8, j: 8 };
    let (chosen, num) = place_castles(&mut g, &loc, 2, 7, 5);
    assert_eq!(num, 2);
    let mut castles = 0;
    let mut mines = 0;
    for i in 0..12 {
        for j in 0..12 {
            match g.tiles[i][j].cl {
                TileClass::Castle => castles += 1,
                TileClass::Mine => mines += 1,
                _ => {}
            }
        }
    }
    assert_eq!(castles, 2);
    assert_eq!(mines, 4);
    let mut spots = vec![(chosen[0].i, chosen[0].j), (chosen[1].i, chosen[1].j)];
    spots.sort();
    assert_eq!(spots, vec![(3, 3), (8, 8)]);
}

#[test]
fn mines_are_claimed_by_the_nearest_location() {
    let mut g = grass_grid(9, 1);
    g.tiles[1][0].cl = TileClass::Mine;
    g.tiles[7][0].cl = TileClass::Mine;
    g.tiles[4][0].cl = TileClass::Mine;
    let mut loc = [Loc { i: 0, j: 0 }; MAX_AVLBL_LOC];
    loc[0] = Loc { i: 0, j: 0 };
    loc[1] = Loc { i: 8, j: 0 };
    // mines block the searches: the middle mine has no reached neighbour
    let claims = eval_locations(&g, &loc, 2);
    assert_eq!(claims.len(), 2);
    assert_eq!((claims[0].loc, claims[0].max_dist, claims[0].min_dist), (0, 0, 0));
    assert_eq!((claims[1].loc, claims[1].max_dist, claims[1].min_dist), (1, 0, 0));
}

#[test]
fn mine_claims_record_distances() {
    let mut g = grass_grid(4, 2);
    g.tiles[2][0].cl = TileClass::Mine;
    let mut loc = [Loc { i: 0, j: 0 }; MAX_AVLBL_LOC];
    loc[0] = Loc { i: 0, j: 0 };
    // neighbours of (2, 0) in play: (1, 0) at 1, (1, 1) at 2, (2, 1) at 3, (3, 0) at 4
    let claims = eval_locations(&g, &loc, 1);
    assert_eq!(claims.len(), 1);
    assert_eq!((claims[0].loc, claims[0].max_dist, claims[0].min_dist), (0, 4, 1));
    let none = eval_locations(&g, &loc, 0);
    assert!(none.is_empty());
}

#[test]
fn sorting_moves_items_along() {
    let mut val = [5, 3, 9, 1, 0, 0, 0];
    let mut item = [0, 1, 2, 3, 4, 5, 6];
    sort_increasing(&mut val, &mut item, 4);
    assert_eq!(val, [1, 3, 5, 9, 0, 0, 0]);
    assert_eq!(item, [3, 1, 0, 2, 4, 5, 6]);
}

#[test]
fn inequality_bands() {
    let equal = [100, 100];
    assert!(inequality_ok(&equal, 2, 0));
    assert!(!inequality_ok(&equal, 2, 1));
    assert!(inequality_ok(&equal, 2, -1));
    let zeros = [0, 0];
    assert!(!inequality_ok(&zeros, 2, 0));
    assert!(inequality_ok(&zeros, 2, 7));
    let spread_out = [100, 300];
    // mean 200, standard deviation 100: 500 thousandths
    assert!(inequality_ok(&spread_out, 2, 3));
    assert!(!inequality_ok(&spread_out, 2, 4));
    assert!(!inequality_ok(&spread_out, 2, 2));
}

#[test]
fn shuffle_keeps_the_entries() {
    let mut v = vec![4, 8, 15, 16, 23, 42];
    shuffle(&mut v);
    let mut s = v.clone();
    s.sort();
    assert_eq!(s, vec![4, 8, 15, 16, 23, 42]);
    let mut empty: Vec<i32> = Vec::new();
    shuffle(&mut empty);
    assert!(empty.is_empty());
}

#[test]
fn castles_go_to_players() {
    let mut g = grass_grid(12, 12);
    let mut chosen = [Loc { i: 0, j: 0 }; MAX_AVLBL_LOC];
    chosen[0] = Loc { i: 3, j: 3 };
    chosen[1] = Loc { i: 8, j: 8 };
    chosen[2] = Loc { i: 3, j: 8 };
    let loc_index = [2, 0, 1, 3, 4, 5, 6];
    let players = [2, 3, 4, 5, 6, 7];
    let ui = [1];
    // conditions 1: the controlled player takes the location ranked last
    conflict_assign(&mut g, &chosen, &loc_index, 3, &players, 6, &ui, 1, 1);
    assert_eq!(g.tiles[8][8].pl, 1);
    assert_eq!(g.tiles[8][8].units[1][0], START_CITIZENS);
    for (x, y) in [(3usize, 3usize), (3, 8)] {
        let o = g.tiles[x][y].pl;
        assert!(players.contains(&o));
        assert_eq!(g.tiles[x][y].units[o as usize][0], START_CITIZENS);
    }
    assert_ne!(g.tiles[3][3].pl, g.tiles[3][8].pl);
}

#[test]
fn calls_add_up_the_flags_attraction() {
    let mut g = grass_grid(7, 6);
    g.tiles[3][2].cl = TileClass::Mountain;
    let spots = [(1, 1), (4, 3), (2, 4)];
    let mut alone = Vec::new();
    for &(x, y) in spots.iter() {
        let mut f = empty_flags(7, 6);
        add_flag(&g, &mut f, x, y, FLAG_POWER);
        alone.push(f.call);
    }
    let mut fg = empty_flags(7, 6);
    for &(x, y) in spots.iter() {
        add_flag(&g, &mut fg, x, y, FLAG_POWER);
    }
    remove_flag(&g, &mut fg, 4, 3, FLAG_POWER);
    add_flag(&g, &mut fg, 4, 3, FLAG_POWER);
    remove_flag(&g, &mut fg, 1, 1, FLAG_POWER);
    for i in 0..7 {
        for j in 0..6 {
            assert_eq!(fg.call[i][j], alone[1][i][j] + alone[2][i][j], "call at {} {}", i, j);
        }
    }
}

#[test]
fn settling_a_conflict_ranks_by_worth() {
    let mut chosen = [Loc { i: 0, j: 0 }; MAX_AVLBL_LOC];
    chosen[0] = Loc { i: 3, j: 3 };
    chosen[1] = Loc { i: 8, j: 8 };
    chosen[2] = Loc { i: 3, j: 8 };
    let players = [2, 3, 4, 5, 6, 7];
    let ui = [1];
    // too unequal for the most equal band: nothing changes
    let mut g = grass_grid(12, 12);
    let before = g;
    let worth = [100, 0, 0, 0, 0, 0, 0];
    assert_eq!(conflict_settle(&mut g, &chosen, &worth, 3, &players, 6, &ui, 1, 1, 0), -1);
    for i in 0..12 {
        for j in 0..12 {
            assert!(g.tiles[i][j].cl == before.tiles[i][j].cl);
            assert_eq!(g.tiles[i][j].pl, before.tiles[i][j].pl);
            assert_eq!(g.tiles[i][j].units, before.tiles[i][j].units);
        }
    }
    // any inequality: the controlled player takes the worthiest location
    let worth = [30, 10, 20, 0, 0, 0, 0];
    assert_eq!(conflict_settle(&mut g, &chosen, &worth, 3, &players, 6, &ui, 1, 1, -1), 0);
    assert_eq!(g.tiles[3][3].pl, 1);
    assert_eq!(g.tiles[3][3].units[1][0], START_CITIZENS);
    for (x, y) in [(8usize, 8usize), (3, 8)] {
        let o = g.tiles[x][y].pl;
        assert!(players.contains(&o));
        assert_eq!(g.tiles[x][y].units[o as usize][0], START_CITIZENS);
    }
    // equal worths fall in the most equal band
    let mut g = grass_grid(12, 12);
    let worth = [50, 50, 50, 0, 0, 0, 0];
    assert_eq!(conflict_settle(&mut g, &chosen, &worth, 3, &players, 6, &ui, 1, 0, 0), 0);
}

#[test]
fn removing_a_flag_only_lowers_the_calls() {
    let g = grass_grid(5, 5);
    let mut fg = empty_flags(5, 5);
    fg.flag[2][2] = FLAG_ON;
    for i in 0..5 {
        for j in 0..5 {
            fg.call[i][j] = i32::MAX;
        }
    }
    remove_flag(&g, &mut fg, 2, 2, FLAG_POWER);
    assert_eq!(fg.flag[2][2], FLAG_OFF);
    assert_eq!(fg.call[2][2], i32::MAX - FLAG_POWER);
    assert_eq!(fg.call[2][3], i32::MAX - FLAG_POWER / 2);
    assert_eq!(fg.call[1][3], i32::MAX - FLAG_POWER / 2);
    assert_eq!(fg.call[0][0], i32::MAX);
}

#[test]
fn spread_leaves_positions_out_of_play() {
    let g = grass_grid(5, 5);
    let mut u = [[-3i32; MAX_HEIGHT]; MAX_WIDTH];
    let mut v = [[-5i32; MAX_HEIGHT]; MAX_WIDTH];
    for i in 0..5 {
        for j in 0..5 {
            u[i][j] = 0;
            v[i][j] = 1;
        }
    }
    spread(&g, &mut u, &mut v, 2, 2, 8, -1);
    assert_eq!(v[2][2], 0);
    assert_eq!(v[4][4], 1);
    assert_eq!(u[5][5], -3);
    assert_eq!(v[5][5], -5);
    assert_eq!(v[9][0], -5);
    let mut fg = empty_flags(5, 5);
    fg.call[7][7] = -2;
    add_flag(&g, &mut fg, 2, 2, FLAG_POWER);
    assert_eq!(fg.call[2][2], FLAG_POWER);
    assert_eq!(fg.call[7][7], -2);
    remove_flag(&g, &mut fg, 2, 2, FLAG_POWER);
    assert_eq!(fg.call[2][2], 0);
    assert_eq!(fg.call[7][7], -2);
}
