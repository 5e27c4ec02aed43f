//! When an emitter adds a new point to its trail.

use vstd::prelude::*;

verus! {

/// Whether the emitter adds a new point this frame. `has_last` says whether
/// it has emitted before; `spacing_reached` is `None` when there is no
/// distance budget to derive a spacing from, and otherwise whether the entity
/// has travelled at least that spacing since the last point; `moved` says
/// whether the entity left the last point's position at all.
///
/// The first point always emits; with a spacing the emitter waits until it
/// has travelled that far, and without one it emits whenever it moved.
pub fn should_emit(has_last: bool, spacing_reached: Option<bool>, moved: bool) -> (r: bool)
    ensures
        r == (!has_last || match spacing_reached {
            Some(reached) => reached,
            None => moved,
        }),
{
    if !has_last {
        return true;
    }
    match spacing_reached {
        Some(reached) => reached,
        None => moved,
    }
}

} // verus!
