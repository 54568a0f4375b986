# alpha-lines

A verified engine for the alpha-lines game, and a batched tree search over it.

Two players place marks on a checkerboard of 80 playable squares, at the same time. A diagonal
run of two or more marks that is connected to the border scores its length. Where both players
choose the same square, that square and its four diagonal neighbours are cleared.

`src/` is a Verus library. Every function in it carries a contract that Verus proves; nothing is
trusted beyond Verus and its standard library.

| module | what it holds |
| --- | --- |
| `board`, `levels`, `score`, `sums` | the board, distance to the border, the scoring rule |
| `repair`, `walk`, `scratch`, `moves` | keeping levels and scores current move by move |
| `tally` | what a move counts, by the path it takes |
| `legal`, `balance`, `reach` | legality masks, counting arguments, which positions can follow |
| `game`, `incremental`, `window`, `order` | one game; a batch of games, in any order |
| `rng`, `sampling`, `score_batch` | random numbers, weighted moves, random batches |
| `zobrist` | position keys |
| `klent` | collecting games for policy training |
| `exchange`, `art`, `text`, `profile`, `stub` | move and state files, drawings, profiling |
| `mcts` | the search: nodes, descents, cycles, steps, sweeps, training targets |

The numbers of a search rule or a model are floating point and stay with the caller, behind the
traits `mcts::Variant`, `klent::Rule` and `sampling::Weights`: the library decides which squares
are asked about and what the answers come to.

`app/` is ordinary Rust: the rules' numbers, stand-in models, the compiled model, the C
interfaces for training scripts, and the tools. `tests/` runs the library.
