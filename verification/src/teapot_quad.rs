//! Draw-mode selection for the tessellation exercise.
//!
//! One key cycles the tessellated quad through its ways of being
//! drawn; the order of the cycle lives here, the drawing does not.

use vstd::prelude::*;

verus! {

/// One way of drawing the tessellated quad.
#[derive(Clone, Copy, Debug, PartialEq, Eq, Structural)]
pub enum DrawMode {
    Normal,
    WireframeOnly,
    NormalWithWireframe,
    Parallax,
}

/// The mode after one step of the cycle.
pub open spec fn spec_next_draw_mode(m: DrawMode) -> DrawMode {
    match m {
        DrawMode::Normal => DrawMode::WireframeOnly,
        DrawMode::WireframeOnly => DrawMode::NormalWithWireframe,
        DrawMode::NormalWithWireframe => DrawMode::Parallax,
        DrawMode::Parallax => DrawMode::Normal,
    }
}

impl DrawMode {
    /// The mode a key press moves to: the four modes cycle in a
    /// fixed order.
    pub fn cycled(self) -> (r: DrawMode)
        ensures
            r == spec_next_draw_mode(self),
    {
        match self {
            DrawMode::Normal => DrawMode::WireframeOnly,
            DrawMode::WireframeOnly => DrawMode::NormalWithWireframe,
            DrawMode::NormalWithWireframe => DrawMode::Parallax,
            DrawMode::Parallax => DrawMode::Normal,
        }
    }
}

/// Four steps return every mode to itself: the cycle walks all
/// modes.
pub proof fn lemma_draw_mode_cycle_closes(m: DrawMode)
    ensures
        spec_next_draw_mode(
            spec_next_draw_mode(spec_next_draw_mode(spec_next_draw_mode(m))),
        ) == m,
{
}

} // verus!
