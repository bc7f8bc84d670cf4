# ruffle

Ruffle is a weighted, adaptive, and calibration-free reciprocal rank fusion engine. It fuses
the output of several retrieval channels into one ranking, weighting each channel per query
by how well it discriminates and by how redundant it is with the others.

The library under `src/` is written in Verus: what each function does is stated in its
contract and proved.

- `double`, `rounding`, `exact`: double-precision numbers computed on their encodings, each
  operation proved to round to nearest, ties to even.
- `precision`, `closeness`, `reals`, `halves`: the real numbers that these stand for, and how
  far a rounded result lies from the exact one.
- `ordered`, `pooling`, `sorting`, `numeric`, `text`: the data structures and helpers that the
  engine is built from.
- `score`, `keys`, `config`, `error`, `ingest`: registration, configuration, and input.
- `summary`, `state`: the persistent, mergeable state.
- `weighting`: discrimination, coupling, and rank fusion; `components` gathers the per-stage
  functions.
- `fuser`: the entry point. The exponential and the sine are handed in by the caller.
- `numbering`: fusing inputs whose ids are texts.
- `reconcile`, `boundary`: what the command line tool and the language bindings decide.
- `laws`: what holds of the library as a whole.

`app/` holds the `ruffle` command line tool, which reconciles and renames state files, and the
Python and WebAssembly bindings. `tests/` runs the library on concrete values.
