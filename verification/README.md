# tetris

A falling-blocks game for the terminal. The rules of the game are a library
verified with Verus; `app/` is the terminal front end (keyboard, clock,
screen) built on crossterm.

Library modules (`src/`):

- `mino` – the seven pieces and their 4x4 pictures; a random piece.
- `block` – a piece's picture with the cell it turns about; cells,
  clockwise and anticlockwise turns, and the laws of turning.
- `now` – the piece in play and where it stands.
- `board` – the 20x10 well: drawing and fixing a piece, whether a piece may
  stand somewhere, hard drop, clearing full rows.
- `moves` – moving, turning with wall kicks.
- `bag` – the queue of next pieces, filled from shuffled sets of seven.
- `hold` – holding a piece, once per piece.
- `score` – score, level and fall interval.
- `render` – the text screen.
- `game` – one round of the game loop, from a key and the time to the next
  state and what the front end is to do.

Keys: `a`/`d` move, `s` soft drop, `j` hard drop, `k`/`l` turn, `w` hold,
`e` pause, `q` quit.
