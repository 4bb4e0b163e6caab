# chess_engine

A small chess bot: an opening book built from past games, personality
heuristics, a shallow tree search, a PGN converter and a minimal UCI engine.
The library under `src/` is written in Verus; every function in it carries a
contract that Verus checks.

## Layout

| Path | Purpose |
|------|---------|
| `src/uci.rs` | UCI move notation: parsing, text, and a numeric key per move |
| `src/text.rs` | Splitting and trimming of comma- and newline-separated text |
| `src/position.rs` | Chess positions and moves, backed by `shakmaty` |
| `src/engine.rs` | History parsing, replay, and the bot's memory (book and seen positions) |
| `src/engine/opening.rs` | Opening book keyed by UCI moves, with its counting laws |
| `src/engine/search.rs` | The decisions of the tree search that need no scores |
| `src/engine/pgn.rs` | What is kept of a PGN game, and its output line |
| `src/opening.rs`, `src/bot.rs` | The same book keyed by move texts, and the bot around it |
| `src/heuristics.rs` | Board features the personality rewards, as exact counts |
| `src/server.rs` | The UCI engine's answers to each GUI message |
| `app/` | Floating-point scoring and sampling, the PGN reader callbacks, the command-line converter, the UCI server loop and the WebAssembly bindings |
| `tests/` | Tests of the library |
