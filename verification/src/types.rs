//! Plain enumerations shared by the emitter and the renderer.

use vstd::prelude::*;

verus! {

/// Cross-section shape of the trail ribbon, sent to the shader as a `u32`.
#[derive(Clone, Copy, Debug, PartialEq, Eq, Hash, Structural)]
pub enum TrailProfile {
    /// A constant, hard-edged ribbon.
    Flat,
    /// Edges fade with a rounded falloff.
    Smooth,
    /// Alpha fades linearly to the edges, peaking in the middle.
    Triangle,
}

/// The shader code of a profile.
pub open spec fn profile_code(profile: TrailProfile) -> u32 {
    match profile {
        TrailProfile::Flat => 0,
        TrailProfile::Smooth => 1,
        TrailProfile::Triangle => 2,
    }
}

impl TrailProfile {
    /// The `u32` that the shader uniform carries for this profile.
    pub fn code(self) -> (r: u32)
        ensures
            r == profile_code(self),
    {
        match self {
            TrailProfile::Flat => 0,
            TrailProfile::Smooth => 1,
            TrailProfile::Triangle => 2,
        }
    }
}

impl Default for TrailProfile {
    fn default() -> (r: Self)
        ensures
            r == TrailProfile::Flat,
    {
        TrailProfile::Flat
    }
}

/// How a trail's pixels are blended into the frame.
#[derive(Clone, Copy, Debug, PartialEq, Eq, Hash, Structural)]
pub enum TrailRenderMode {
    /// Alpha is ignored and the trail overwrites whatever is behind it.
    Opaque,
    /// The trail's color is added to the frame, scaled by its alpha.
    Additive,
    /// Straight alpha blending.
    Transparent,
}

/// Number of blend modes, and so of render batches.
pub const MODE_COUNT: usize = 3;

/// Position of a mode in the renderer's per-mode arrays.
pub open spec fn mode_index(mode: TrailRenderMode) -> nat {
    match mode {
        TrailRenderMode::Opaque => 0,
        TrailRenderMode::Additive => 1,
        TrailRenderMode::Transparent => 2,
    }
}

/// The mode stored at a position of the renderer's per-mode arrays.
pub open spec fn mode_at(index: nat) -> TrailRenderMode {
    if index == 0 {
        TrailRenderMode::Opaque
    } else if index == 1 {
        TrailRenderMode::Additive
    } else {
        TrailRenderMode::Transparent
    }
}

impl TrailRenderMode {
    /// The index of this mode's batch.
    pub fn index(self) -> (r: usize)
        ensures
            r == mode_index(self),
            r < MODE_COUNT,
    {
        match self {
            TrailRenderMode::Opaque => 0,
            TrailRenderMode::Additive => 1,
            TrailRenderMode::Transparent => 2,
        }
    }

    /// The mode whose batch sits at `index`.
    pub fn from_index(index: usize) -> (r: TrailRenderMode)
        requires
            index < MODE_COUNT,
        ensures
            r == mode_at(index as nat),
    {
        if index == 0 {
            TrailRenderMode::Opaque
        } else if index == 1 {
            TrailRenderMode::Additive
        } else {
            TrailRenderMode::Transparent
        }
    }
}

impl Default for TrailRenderMode {
    fn default() -> (r: Self)
        ensures
            r == TrailRenderMode::Opaque,
    {
        TrailRenderMode::Opaque
    }
}

/// A mode round-trips through its batch index and back, every batch index
/// below [`MODE_COUNT`] names exactly one mode, and the batches follow the
/// modes' declaration order.
pub proof fn lemma_mode_index_round_trip(mode: TrailRenderMode, index: nat)
    ensures
        mode_at(mode_index(mode)) == mode,
        mode_index(mode) < MODE_COUNT,
        index < MODE_COUNT ==> mode_index(mode_at(index)) == index,
        mode_index(TrailRenderMode::Opaque) == 0,
        mode_index(TrailRenderMode::Additive) == 1,
        mode_index(TrailRenderMode::Transparent) == 2,
{
}

/// Distinct profiles are sent to the shader as distinct codes, in declaration
/// order from 0: the default profile is code 0.
pub proof fn lemma_profile_codes_distinct(a: TrailProfile, b: TrailProfile)
    ensures
        profile_code(a) == profile_code(b) <==> a == b,
        profile_code(TrailProfile::Flat) == 0,
        profile_code(TrailProfile::Smooth) == 1,
        profile_code(TrailProfile::Triangle) == 2,
        profile_code(a) < 3,
{
}

} // verus!
