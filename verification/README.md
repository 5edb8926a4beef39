# audio_graph_engine

A node graph for audio, parameters and notes. The graph is compiled to a flat
program, and the program is run block by block beside the plugins it calls.
The library in `src/` is verified with Verus; every function states what it
returns or changes, and the laws that hold across functions are the public
`law_*` proofs.

## Layout

- `graph`, `nodes`, `port`: the edit graph, its node kinds and their sockets.
- `order`, `stages`, `declare`: which nodes run, in which order, and in which
  stage.
- `note_kinds`, `note_half`, `param_cx`, `emit_params`, `pool`, `audio_cx`,
  `emit_audio`, `compile`, `error`: the three halves of a program and how they
  are put together.
- `ir`, `program`: what a graph compiles to.
- `note_state`, `ledger`, `params`, `lines`, `sound`, `engine`: the state of a
  running program, and how it is carried from one program to the next.
- `schedule`, `run`, `block`: running a block.
- `idle`, `block_size`, `frames`, `answering`, `feedback`, `written`: laws of whole
  programs. Nodes that feed nothing cost nothing, nothing is read before it is
  written, and a feedback loop sounds the same at any block size.
- `number`, `event`, `tables`: numbers as bit patterns, events, small tables.

## Numbers

A number is held as the bit pattern of a float (`Real`, `Sample`). The library
moves, compares and clamps them. Where something has to be computed, a step
returns what it needs (`Work`) and goes on with the answer (`settle`,
`settle_audio`). A plugin is called the same way.

`app/` holds what answers: the arithmetic, the calls of plugins, the hand-over of
programs between threads, and the patch file.
