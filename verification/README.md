# Pure ECS Data

A small Pure Data engine on top of Bevy's ECS. The decisions it makes are a
Verus-verified library; the Bevy plugins, systems and audio processors that
act on them are ordinary Rust.

- `src/` — the verified library (`pure_ecs_data`):
  - `data` — the values carried between nodes, assignment into inlets and addition;
  - `patch` — building a patch: nodes, their inlet values, connections and key bindings;
  - `activation` — hot and cold inlets, and how a node's outputs reach the next nodes;
  - `nodes` — the control nodes whose processing needs no floating point;
  - `loading` — the plan that brings the running nodes in line with a changed patch, and carrying it out on the map of running entities;
  - `mapping` — the running entities of each loaded node;
  - `signal` — the configurations of the audio nodes.
- `tests/` — tests of the library.
- `app/` — the Bevy side: plugins, ECS components and systems, the float and
  audio nodes, and the `patch!` macro.
