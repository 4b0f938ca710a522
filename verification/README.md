# wasm-runtime-composer

Runtime composition of WebAssembly components, verified with Verus.

Given a set of independently compiled components, this project matches their imports to
exports at runtime and wires them into a single composition. Each component runs in its own
wasmtime `Store` with an inbox loop of its own; calls between components go through channels,
and resources that cross a boundary are proxied, so that each store sees its own handle while
the resource lives in the producer's store.

- `src/` is the library: everything that is decided, with contracts and proofs.
  - resolving: `hints`, `descriptor`, `resolve`, `composer`; what holds of every resolution is
    in `resolution`; `assembly` carries out what is planned
  - components: `describe` reads their types, `instance` their exports; `composable`, `filtered`
    and `composition` are what can be composed
  - linking: `link` plans the definitions for an export, `linker` tracks what is registered for
    them, `linking` states what holds of every linker; `table_link` plans with one proxy per
    instance
  - values: `vals` reads and writes component-model values, `compile` and `navigator` find the
    resource handles in them, `mapper` does so for whole functions, `proxy` and `proxy_table`
    replace them; `fitting` and `typing` say which values can be handled
  - calls: `inbox`
  - `wasm` holds everything that is taken from wasmtime, with what is relied on
- `tests/` runs the library on real components.
- `app/` runs compositions: it makes the planned definitions in wasmtime linkers and drives the
  inbox loops on tokio.
