# loam

The discrete core of the loam physics and render engine, written in Verus
and proved against its contracts.

## Layout

- `src/` — the verified library.
  - `body.rs` — generational body handles and the dense body arena.
  - `dirty.rs` — the record of bodies to publish after a change.
  - `world.rs` — contact keys, islands (union–find with path halving), the
    solve order of contacts, field anchors and bindings, the checks a
    snapshot must pass before it is restored, and body removal.
  - `solve.rs` — gathering the contacts of each island into a solve, and
    writing the solved bodies back.
  - `geometry.rs` — shared collider geometry by handle, with release.
  - `narrowphase.rs` — contact handlers by kind pair, and the registration
    check of a snapshot.
  - `collider.rs`, `edit.rs`, `epa.rs` — collider kinds, edit refusals, the
    horizon bookkeeping of polytope expansion.
  - `persist.rs` — the header of a saved world.
  - `pass.rs`, `depth.rs` — the frame's pass schedule and how a run of passes
    ends.
  - `shader.rs`, `shader_db.rs` — WGSL assembly and validation through naga,
    and the table of loaded shader modules.
  - `device.rs`, `gpu_timer.rs` — the feature request a device is made with,
    and the bookkeeping of GPU section timestamps.
  - `gizmo.rs`, `raymarch.rs`, `triangle_raster.rs` — small tables of the
    renderer.
- `tests/` — tests of the library on concrete values.
- `app/` — ordinary Rust around the library: printable errors, saved worlds
  through `ron`, shader files, timers and passes on a `wgpu` device, and the
  convex contact geometry (GJK, EPA), which computes in `f32`.

The floating-point rigid-body dynamics and the GPU render nodes of the engine
are not part of this crate.
