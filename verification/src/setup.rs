//! Setting up a game: the options, the date, the kings, the flag layers, the
//! treasuries and the timeline around the making of the map.
use vstd::prelude::*;
use crate::common::{FLAG_OFF, MAX_HEIGHT, MAX_PLAYER, MAX_TIMELINE_MARK, MAX_WIDTH};
use crate::grid::{FlagGrid, dims_ok, in_array};
use crate::king::{Country, King, Strategy, evaluated, king_evaluate_map, king_wf};
use crate::rng::{gen_range, new_rng};
use crate::state::{BasicOptions, State, Timeline};
use crate::flags::{flags_consistent, lemma_no_flags_consistent};
use crate::turns::flags_agree;

verus! {

/// Number of players other than the neutral one.
pub const PLAYERS: i32 = 7;

/// `k` is the fresh king of player `pl`: an opportunist that values nothing yet.
pub open spec fn fresh_king(k: King, pl: int) -> bool {
    &&& k.pl == pl
    &&& k.strategy == Strategy::Opportunist
    &&& forall|a: int, b: int| in_array(a, b) ==> #[trigger] k.value[a][b] == 0
}

/// A date between the years 1850 and 1949, counted in days of 360-day years.
pub open spec fn start_date(t: int) -> bool {
    1850 * 360 <= t < 1950 * 360
}

/// First part of setting up a game for `clients_num` controlled players:
/// the options are copied, the date is drawn (see `start_date`), player 1 is
/// the one controlled here, and each of the other players after the first
/// `clients_num` gets a fresh king (see `fresh_king`); the map, flags,
/// treasuries and timeline are left for later.
pub fn state_init_begin(s: &mut State, op: &BasicOptions, clients_num: i32)
    requires
        0 <= clients_num <= PLAYERS,
    ensures
        final(s).speed == op.speed,
        final(s).prev_speed == op.speed,
        final(s).dif == op.dif,
        final(s).map_seed == op.map_seed as i32,
        final(s).conditions == op.conditions,
        final(s).inequality == op.inequality,
        start_date(final(s).time as int),
        final(s).controlled == 1,
        final(s).kings_num == PLAYERS - clients_num,
        forall|k: int| 0 <= k < PLAYERS - clients_num ==> fresh_king(#[trigger] final(s).king[k], clients_num + 1 + k),
        forall|k: int| PLAYERS - clients_num <= k < MAX_PLAYER ==> #[trigger] final(s).king[k] == old(s).king[k],
        final(s).grid == old(s).grid,
        final(s).fg == old(s).fg,
        final(s).country == old(s).country,
        final(s).timeline == old(s).timeline,
        final(s).show_timeline == old(s).show_timeline,
{
    s.speed = op.speed;
    s.prev_speed = s.speed;
    s.dif = op.dif;
    s.map_seed = op.map_seed as i32;
    s.conditions = op.conditions;
    s.inequality = op.inequality;
    let mut rng = new_rng();
    let year = 1850 + gen_range(&mut rng, 0, 100);
    let day = gen_range(&mut rng, 0, 360);
    s.time = (year * 360 + day) as u64;
    s.controlled = 1;
    s.kings_num = PLAYERS - clients_num;
    let ghost s0 = *s;
    let mut comp_idx: usize = 0;
    for i in 0..PLAYERS as usize
        invariant
            0 <= clients_num <= PLAYERS,
            comp_idx == if i < clients_num { 0 } else { i - clients_num },
            forall|k: int| 0 <= k < comp_idx ==> fresh_king(#[trigger] s.king[k], clients_num + 1 + k),
            forall|k: int| comp_idx <= k < MAX_PLAYER ==> #[trigger] s.king[k] == s0.king[k],
            *s == (State { king: s.king, ..s0 }),
    {
        if (i as i32) >= clients_num {
            s.king[comp_idx] = King { value: [[0; MAX_HEIGHT]; MAX_WIDTH], pl: i as i32 + 1, strategy: Strategy::Opportunist };
            comp_idx = comp_idx + 1;
        }
    }
}

/// `fg` is an empty flag layer of width `w` and height `h`.
pub open spec fn empty_flags(fg: FlagGrid, w: int, h: int) -> bool {
    &&& fg.width == w
    &&& fg.height == h
    &&& forall|a: int, b: int| in_array(a, b) ==> #[trigger] fg.flag[a][b] == FLAG_OFF && fg.call[a][b] == 0
}

/// Last part of setting up a game, once the map is made: every player gets
/// an empty flag layer of the map's size and an empty treasury, every king
/// values the map (see `evaluated`), and the timeline starts empty at the
/// current date.
pub fn state_init_end(s: &mut State, op: &BasicOptions)
    requires
        dims_ok(old(s).grid.width as int, old(s).grid.height as int),
        0 <= old(s).kings_num <= MAX_PLAYER,
        forall|k: int| 0 <= k < old(s).kings_num ==> king_wf(#[trigger] &old(s).king[k]),
    ensures
        forall|p: int|
            0 <= p < MAX_PLAYER ==> empty_flags(#[trigger] final(s).fg[p], old(s).grid.width as int, old(s).grid.height as int),
        forall|p: int| 0 <= p < MAX_PLAYER ==> #[trigger] final(s).country[p].gold == 0,
        forall|k: int| 0 <= k < old(s).kings_num ==> #[trigger] evaluated(&old(s).king[k], &final(s).king[k], &old(s).grid, old(s).dif),
        forall|k: int| old(s).kings_num <= k < MAX_PLAYER ==> #[trigger] final(s).king[k] == old(s).king[k],
        final(s).show_timeline == op.timeline_flag,
        final(s).timeline.mark == -1,
        forall|m: int| 0 <= m < MAX_TIMELINE_MARK ==> #[trigger] final(s).timeline.time[m] == old(s).time,
        forall|p: int, m: int| 0 <= p < MAX_PLAYER && 0 <= m < MAX_TIMELINE_MARK ==> #[trigger] final(s).timeline.data[p][m] == 0,
        final(s).grid == old(s).grid,
        final(s).time == old(s).time,
        final(s).kings_num == old(s).kings_num,
        final(s).controlled == old(s).controlled,
        final(s).dif == old(s).dif,
        final(s).speed == old(s).speed,
        final(s).prev_speed == old(s).prev_speed,
        final(s).map_seed == old(s).map_seed,
        final(s).conditions == old(s).conditions,
        final(s).inequality == old(s).inequality,
        flags_agree(final(s)),
{
    let ghost s0 = *s;
    for p in 0..MAX_PLAYER
        invariant
            forall|q: int| 0 <= q < p ==> empty_flags(#[trigger] s.fg[q], s0.grid.width as int, s0.grid.height as int),
            forall|q: int| 0 <= q < p ==> #[trigger] s.country[q].gold == 0,
            *s == (State { fg: s.fg, country: s.country, ..s0 }),
    {
        s.fg[p] = FlagGrid {
            width: s.grid.width,
            height: s.grid.height,
            flag: [[FLAG_OFF; MAX_HEIGHT]; MAX_WIDTH],
            call: [[0; MAX_HEIGHT]; MAX_WIDTH],
        };
        s.country[p] = Country { gold: 0 };
    }
    let ghost s1 = *s;
    let n = s.kings_num as usize;
    for k in 0..n
        invariant
            n == s0.kings_num,
            0 <= s0.kings_num <= MAX_PLAYER,
            dims_ok(s0.grid.width as int, s0.grid.height as int),
            forall|m: int| 0 <= m < s0.kings_num ==> king_wf(#[trigger] &s0.king[m]),
            forall|m: int| 0 <= m < k ==> #[trigger] evaluated(&s0.king[m], &s.king[m], &s0.grid, s0.dif),
            forall|m: int| k <= m < MAX_PLAYER ==> #[trigger] s.king[m] == s0.king[m],
            *s == (State { king: s.king, ..s1 }),
            s1.grid == s0.grid,
            s1.dif == s0.dif,
    {
        let mut kg = s.king[k];
        king_evaluate_map(&mut kg, &s.grid, s.dif);
        s.king[k] = kg;
    }
    s.show_timeline = op.timeline_flag;
    s.timeline = Timeline { data: [[0; MAX_TIMELINE_MARK]; MAX_PLAYER], time: [s.time; MAX_TIMELINE_MARK], mark: -1 };
    proof {
        assert forall|p: int| 0 <= p < MAX_PLAYER implies flags_consistent(&s.grid, #[trigger] &s.fg[p]) by {
            assert(empty_flags(s.fg[p], s0.grid.width as int, s0.grid.height as int));
            lemma_no_flags_consistent(&s.grid, &s.fg[p]);
        }
    }
}

} // verus!
