# tetris

A falling-block puzzle game whose rules are a Verus-verified library.

- `src/` — the library, verified by Verus:
  - `block_kind.rs`, `block.rs`: cell colours, the seven pieces, and the random
    seven-piece bag;
  - `random.rs`: the two calls into `rand` (a number below a bound, a shuffle);
  - `game.rs`: the field, collisions, moves, turns with wall kicks, drops, line
    clearing, dealing, holding, landing and the drawn field;
  - `ai.rs`: line counting, stack height and the placement search;
  - `ga.rs`: genomes for tuning the search;
  - `control.rs`: what a key, the passing of time, a sequence of commands, an automatic
    move or a step of the tuning game does.
- `tests/` — tests of the library.
- `app/` — the terminal program: key input, timing, threads and drawing.
