# bevy_trail

Ring-buffer trails for Bevy, with a verified data-structure core in `src/`.

- `src/ring.rs` — `TrailRing<T>`, the fixed-capacity ring that stores a
  trail's points (`capacity`, `head`, `length`): emitting, pinning the head,
  and clipping the tail to the length and time budgets, with the laws that
  the ring keeps the most recent points and that clipping only shortens it
  from the oldest end, never dropping the newest point.
- `src/components.rs` — `Trail<T>`, a standalone per-entity trail history
  whose head is the next insertion slot: pushing, logical indexing (0 is the
  oldest point), and pruning expired points from the oldest end. The plugin
  in `app/` does not use it; it draws from `TrailRing`.
- `src/emitter.rs` — when an emitter adds a new point.
- `src/render.rs` — the packing of all trails into per-blend-mode batches
  (where each trail's ring lands in the shared point buffer, the
  concatenated slots, per-trail data in order, instance and vertex counts),
  the bind-group decision, and the growth policy of the shared GPU buffers.
- `src/types.rs` — the cross-section profiles and blend modes, with their
  shader codes and batch indices.
- `app/` — the Bevy plugin: components, systems, the floating-point sampling
  and clipping tests, and the GPU pipeline, built on the library.
- `tests/` — executable tests of the library.
