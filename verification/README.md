# euca

A modular framework for wasm apps in the structure of The Elm Architecture: a model, an update
function that handles messages, and a render function that turns the model into a virtual dom.
After each update the new virtual dom is compared with the old one, and only the difference is
applied to the browser's dom.

The logic of the framework is written in Verus and verified:

- `src/vdom.rs` — the virtual dom as a depth first walk of items, and what makes a walk well
  formed.
- `src/dom.rs` — a tree builder for virtual doms and its walk.
- `src/diff_model.rs`, `src/diff.rs` — the diff of two walks, as a specification and as code
  proved to compute it; keyed sub trees are set aside and matched by key.
- `src/patch.rs` — patches and patch sets.
- `src/apply.rs` — the plan that applies a patch set: every decision about which node is
  created, kept, moved or attached where, as a list of steps.
- `src/diff_laws.rs`, `src/key_laws.rs`, `src/store_laws.rs`, `src/handle_laws.rs`,
  `src/apply_laws.rs`, `src/render_laws.rs` — what the diff and the plan promise as a whole:
  the first render builds the tree the virtual dom describes, re-rendering an unchanged dom
  keeps every node where it is, re-rendering a dom whose nodes stay the same only updates them
  in place, removing a tree removes each component nested in it, diffing a dom against itself
  carries each storage entry over, a re-render plans, uses every keyed patch list and stores
  exactly what the next diff takes (with or without keyed sub trees), every step works on nodes that are there, the old storage entries are taken over at
  most once (and in order, without keys), and every keyed patch list a patch refers to is there
  and is used once.
- `src/app/` — models, commands and the bookkeeping of dispatching messages.

`app/` holds the part that talks to the browser through `web_sys`: it carries out the planned
steps, keeps the created nodes and listeners, and runs apps and components. Callback functions
(event handlers and component constructors) are referred to by integer identifiers in the
virtual dom, and registered with the app under those identifiers.
