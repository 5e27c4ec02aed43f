//! Verified core of a GPU trail renderer.
//!
//! A trail stores its control points in fixed-capacity ring storage
//! (`capacity`, `head`, `length`): emitting a point advances the head and
//! overwrites the oldest slot once the ring is full, and clipping shortens the
//! live segment from its oldest end; `emitter` decides when a point is
//! emitted. Every frame the renderer packs all trails
//! into one shared buffer per blend mode; the layout of that packing (where
//! each trail's ring starts, how many instances and vertices each batch draws)
//! and the growth policy of the shared GPU buffers are computed here too.
//!
//! `components` holds a second ring layout, a per-entity trail history whose
//! head is the next insertion slot, with logical indexing and pruning.

pub mod components;
pub mod emitter;
pub mod ring;
pub mod render;
pub mod types;
