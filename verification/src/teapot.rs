//! Render-mode selection for the shading exercise.
//!
//! The demo binds each digit key to one way of colouring the teapot;
//! the chosen mode is handed to the fragment shader as an integer.

use vstd::prelude::*;

verus! {

use crate::obj_loader::str_eq;

/// One way of colouring the model, from plain shading to full
/// Blinn-Phong lighting.
#[derive(Clone, Copy, Debug, PartialEq, Eq, Structural)]
pub enum RenderMode {
    Default,
    SurfaceNormal,
    Depth,
    ViewPosition,
    Diffuse,
    SpecularBlinn,
    FullBlinn,
    SpecularPhong,
    FullPhong,
    Plain,
}

/// The mode behind each digit key, if any.
pub open spec fn spec_render_mode_of_key(key: Seq<char>) -> Option<RenderMode> {
    if key == "0"@ {
        Some(RenderMode::Default)
    } else if key == "1"@ {
        Some(RenderMode::SurfaceNormal)
    } else if key == "2"@ {
        Some(RenderMode::Depth)
    } else if key == "3"@ {
        Some(RenderMode::ViewPosition)
    } else if key == "4"@ {
        Some(RenderMode::Diffuse)
    } else if key == "5"@ {
        Some(RenderMode::SpecularBlinn)
    } else if key == "6"@ {
        Some(RenderMode::FullBlinn)
    } else if key == "7"@ {
        Some(RenderMode::SpecularPhong)
    } else if key == "8"@ {
        Some(RenderMode::FullPhong)
    } else if key == "9"@ {
        Some(RenderMode::Plain)
    } else {
        None
    }
}

/// The number each mode goes to the shader as: its position in the
/// key order, so the digit of the key that picks it.
pub open spec fn spec_render_mode_code(m: RenderMode) -> u32 {
    match m {
        RenderMode::Default => 0,
        RenderMode::SurfaceNormal => 1,
        RenderMode::Depth => 2,
        RenderMode::ViewPosition => 3,
        RenderMode::Diffuse => 4,
        RenderMode::SpecularBlinn => 5,
        RenderMode::FullBlinn => 6,
        RenderMode::SpecularPhong => 7,
        RenderMode::FullPhong => 8,
        RenderMode::Plain => 9,
    }
}

impl RenderMode {
    /// The number the mode goes to the shader as.
    pub fn code(&self) -> (r: u32)
        ensures
            r == spec_render_mode_code(*self),
    {
        match self {
            RenderMode::Default => 0,
            RenderMode::SurfaceNormal => 1,
            RenderMode::Depth => 2,
            RenderMode::ViewPosition => 3,
            RenderMode::Diffuse => 4,
            RenderMode::SpecularBlinn => 5,
            RenderMode::FullBlinn => 6,
            RenderMode::SpecularPhong => 7,
            RenderMode::FullPhong => 8,
            RenderMode::Plain => 9,
        }
    }

    /// The mode behind a pressed key: the digits zero to nine each
    /// pick one, any other key none.
    pub fn from_key(key: &str) -> (r: Option<RenderMode>)
        ensures
            r == spec_render_mode_of_key(key@),
    {
        if str_eq(key, "0") {
            Some(RenderMode::Default)
        } else if str_eq(key, "1") {
            Some(RenderMode::SurfaceNormal)
        } else if str_eq(key, "2") {
            Some(RenderMode::Depth)
        } else if str_eq(key, "3") {
            Some(RenderMode::ViewPosition)
        } else if str_eq(key, "4") {
            Some(RenderMode::Diffuse)
        } else if str_eq(key, "5") {
            Some(RenderMode::SpecularBlinn)
        } else if str_eq(key, "6") {
            Some(RenderMode::FullBlinn)
        } else if str_eq(key, "7") {
            Some(RenderMode::SpecularPhong)
        } else if str_eq(key, "8") {
            Some(RenderMode::FullPhong)
        } else if str_eq(key, "9") {
            Some(RenderMode::Plain)
        } else {
            None
        }
    }
}

} // verus!
