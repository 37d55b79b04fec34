# cbonsai

Grows ASCII bonsai trees in the terminal: a pot (classic, rectangular, round
or decorated) with a pine, willow, oak, cherry or bamboo standing in it,
drawn from a seeded ChaCha8 random stream, optionally animated character by
character and, where the terminal takes colour, coloured.

The library in `src/` is written in Verus and proved against its contracts:

- `canvas`: the character canvas, its mathematical model (`Picture`), writes
  that never overwrite, and the record of fills that replays to the canvas.
- `dice`: the random source and the names of its draws.
- `styles`, `pot`, `pine`, `willow`, `broadleaf` (oak and cherry), `bamboo`,
  `grow`: the drawing, each part specified as a function of the canvas and the
  random state.
- `color`: colour names and painting text with terminal colours, given
  the colouring switch that `colored` reads from the environment.
- `show`: replaying the growth frame by frame, and the printed picture.
- `cli`: the settings and the decisions of the screensaver and endless modes.

`app/main.rs` is the command: argument parsing, terminal output, timing, and
the sine waves along which a willow leans.
