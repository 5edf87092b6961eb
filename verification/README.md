# phosphor_ui

The core of two retained-mode UI frameworks, Halogen and Phosphor, as a
Verus-verified library, with the runtime around it in `app/`.

`src/` (verified):

- `ids` — widget handles (slot-map key encodings).
- `matching` — matching rebuilt children against existing ones by key and
  position, with its laws.
- `subscribers` — pruning subscriber lists by liveness flags.
- `theme` — type-keyed design tokens with shared (identity-compared) values.
- `halogen` — geometry containers, style and event enums, blend modes and
  layered paint state, signal state, and child reconciliation by key and
  widget type.
- `phosphor` — style containers and enums, hex colour parsing, signal
  state, window configuration, the widget-node store, and the widget tree
  (mounting, removal, reconciliation, dirty tracking, rebuild and dispatch
  walks).

`app/` (ordinary Rust): floating-point units, colours and styles with their
conversion to taffy layout styles, widget traits and contexts, shared
signal handles and themes, the tree runtimes that drive builds, layout,
painting and dispatch, the tiny-skia and Skia renderers, and the winit
event loop.

`tests/` exercise the library on concrete values.
