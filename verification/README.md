# Rat Racer

A racing game for the terminal, with its rules proved by Verus.

- `src/` is the game itself: the road, the traffic, the race, the scores and what stands on
  the screen. Every function states what it does, and the laws of the game stand beside the
  functions they speak of as public proof functions.
- `tests/` runs the library on concrete values. Numbers are held against `f64` bit for bit,
  frames against the same frames set with the widgets of ratatui.
- `app/` opens the terminal, reads keys, keeps the file of best scores and runs the loop.

Doubles are kept as integer keys in the order of their values (`src/num.rs`), and sums,
products and quotients are rounded as IEEE 754 asks (`src/arith.rs`).

What is believed without proof are the calls of ratatui in `src/paint.rs` and
`src/geometry.rs`, those of rand in `src/chance.rs`, and `String::push` in `src/text.rs`.
