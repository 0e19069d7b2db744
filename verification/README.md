# tetris

A terminal Tetris game whose rules are a Verus-verified library.

- `src/piece.rs`: squares and pieces, their shapes, moves and quarter turns,
  each with a contract over a mathematical model (`Cell`, `PieceModel`).
  Positions are whole pixels of the drawing canvas; the centres that a
  piece turns about are kept in quarter pixels.
- `src/game.rs`: the game state (`App`, modelled by `AppModel`): moving the
  falling piece, landing, clearing rows, scoring, new pieces, keys, and one
  tick of the game. What chance decides is passed in as a `PieceChoice`;
  the functions that draw it state what holds for every draw.
- `src/laws.rs`: properties proved across the operations.
- `src/debug.rs`: a debug log.
- `src/convert.rs`, `src/chance.rs`: the calls into `num` and `rand`.
- `app/`: the terminal program (ratatui, crossterm, color-eyre): drawing,
  the event loop, and the high-score file.
