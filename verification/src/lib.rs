//! Mesh and model utilities for the teapot rendering exercises.
//!
//! The crate covers the parts of the exercises that are plain data
//! work: tearing an indexed triangle mesh into triangle strips,
//! stitching strips back into one index buffer, and parsing the
//! line-oriented OBJ and MTL model formats.  Window handling and the
//! actual drawing live outside this crate; they exchange plain values
//! (index buffers, parsed models, path candidates) with it.

pub mod glium_helper;
pub mod mesh;
pub mod obj_loader;
pub mod teapot;
pub mod teapot_quad;

pub use glium_helper::MergedUniform;
pub use glium_helper::OwnedMergedUniform;
pub use obj_loader::Group;
pub use obj_loader::Mtl;
pub use obj_loader::MtlLib;
pub use obj_loader::Obj;
pub use obj_loader::SimpleObj;
pub use obj_loader::VAIdx;

use vstd::prelude::*;

verus! {

/// Relative locations that are probed, in order, when an asset file is
/// looked up from a project directory or from the workspace root.
pub open spec fn spec_asset_candidates(name: Seq<char>) -> Seq<Seq<char>> {
    seq![
        "assets/"@ + name,
        "../assets/"@ + name,
        "../../assets/"@ + name,
    ]
}

/// The three places an asset may live, relative to the working
/// directory.  The caller probes them in order and uses the first one
/// that exists on disk.
pub fn asset_candidates(name: &str) -> (v: Vec<String>)
    ensures
        v.deep_view() == spec_asset_candidates(name@),
{
    let mut v: Vec<String> = Vec::new();
    let mut p0 = String::from_str("assets/");
    p0.append(name);
    v.push(p0);
    let mut p1 = String::from_str("../assets/");
    p1.append(name);
    v.push(p1);
    let mut p2 = String::from_str("../../assets/");
    p2.append(name);
    v.push(p2);
    proof {
        assert(v.deep_view() =~= spec_asset_candidates(name@));
    }
    v
}

/// Candidate paths for the teapot model.
pub fn teapot_path() -> (v: Vec<String>)
    ensures
        v.deep_view() == spec_asset_candidates("teapot.obj"@),
{
    asset_candidates("teapot.obj")
}

/// Candidate paths for the sphere model.
pub fn sphere_path() -> (v: Vec<String>)
    ensures
        v.deep_view() == spec_asset_candidates("sphere.obj"@),
{
    asset_candidates("sphere.obj")
}

} // verus!
