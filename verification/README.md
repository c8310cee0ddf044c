# curseofwar

A real-time strategy game on a hexagonal map, played in a terminal: players
grow armies in their cities, send them around with flags that attract them,
fight over tiles, take mines for gold and build villages, towns and castles.

The library (`src/`) holds the game's logic, verified with Verus:

- `common`, `grid`: constants, tiles, maps, flag layers, map shapes.
- `flood`: spreads of attraction, region fills, searches for the nearest
  starting location, connectedness of the players.
- `flags`: placing and removing flags; the calls of a flag layer stay the
  total attraction of its flags.
- `king`: building, degrading, the computer players' valuation of the map
  and their flag strategies.
- `sim`: one simulation step (mines, battles, growth, migration, owners).
- `turns`: the computer players' turns.
- `mapgen`, `setup`: random maps, starting positions, setting up a game.
- `state`, `output`, `ready`: speed, cursor, timeline, outcome, what the
  screen shows, and checks of the conditions of the main calls.
- `rng`: the random numbers, from the `rand` crate.

`app/main.rs` is the terminal program around it: options, the ncurses screen,
the keyboard and the clock, and the floating-point scores (the kings' scores
and the worth of mines for starting locations).
