# solitaire_core

The rules engine of four solitaire variants (Klondike, FreeCell with
Microsoft deal numbers, Spider in one, two or four suits, and Mom's
Solitaire), verified with Verus.

- `src/` is the verified library: cards and decks, piles, moves with their
  exact inverse, the undo history, each variant's legality, deals, click
  handling and automatic follow-ups, the Klondike hint, both solvers, the
  reverse-walk Spider deal generator, the Microsoft FreeCell shuffle, the
  winnable-seed lists and pickers, the seed sweep's decisions, the
  application icon and the card-sprite post-processing.
- `app/` is the ordinary Rust around it: floating-point screen layout and
  hit testing, painting through agg-gui, settings persisted as JSON, host
  hooks, and the sweep's worker threads and seed files.
- `tests/` runs the library on concrete boards.

Randomness (`rand`), the clock (`web-time`) and hashing reach the library
through small trusted wrappers whose contracts say only what holds of every
outcome.
