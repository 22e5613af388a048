# icfpc2020

A library for the ICFP Contest 2020 galaxy pad and game, with its
behaviour stated in `requires`/`ensures` contracts and proved with Verus.

`src/` is the verified library:

- `parser`, `eval`, `text` — the term language: the galaxy's token form and
  the bracketed form, display, simplification, and an evaluator whose result
  is exactly the big-step meaning of the term.
- `modulation`, `modulate` — the modulated bit strings of values, with the
  law that demodulation undoes modulation.
- `client`, `room`, `galaxy` — the game protocol (messages, responses),
  room keys, and one step of the interaction with the galaxy.
- `routing`, `wata`, `chokudai`, `orbiter`, `defender`, `totsugeki`, `tos` —
  the ships' strategies: a breadth-first router proved to pick the first move
  of a shortest path to the best reachable state, the survival table of free
  fall, and each strategy's turn.
- `visualize`, `draw`, `recognize` — pictures as text and RGBA canvases, and
  glyph recognition.

`app/` holds the command-line tools: network I/O, file I/O, the turn loops of
the strategies, and PNG output. `tests/` exercises the library.
