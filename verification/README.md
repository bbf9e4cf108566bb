# shogi_wasm

A shogi engine — rules, move generation, SFEN/USI text, hashing, evaluation (a
hand-crafted evaluator and an integer NNUE), transposition table, alpha-beta search,
self-play and training-record encoding — written in Verus, with its behaviour stated as
contracts and proved.

- `src/` is the verified library. Each public function states what it returns or
  changes; the laws that span several functions (do/undo restores the position, the
  incrementally kept hash keys equal keys computed from scratch, a stored table entry
  is found again, records and net files read back what was written, …) are public
  proof functions next to the code they speak of.
- `tests/` runs the library on concrete positions.
- `app/` holds what is not verified: the wasm-bindgen boundary for the web page, the
  command-line tools (data generation, engine matches, benchmark, perft) and the
  float trainer.
