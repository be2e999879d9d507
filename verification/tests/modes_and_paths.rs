use common::MergedUniform;
use common::OwnedMergedUniform;
use common::asset_candidates;
use common::sphere_path;
use common::teapot_path;
use common::teapot::RenderMode;
use common::teapot_quad::DrawMode;

#[test]
fn teapot_path_names_the_asset_everywhere() {
    assert_eq!(
        teapot_path(),
        vec![
            "assets/teapot.obj".to_string(),
            "../assets/teapot.obj".to_string(),
            "../../assets/teapot.obj".to_string(),
        ]
    );
}

#[test]
fn sphere_path_names_the_asset_everywhere() {
    assert_eq!(
        sphere_path(),
        vec![
            "assets/sphere.obj".to_string(),
            "../assets/sphere.obj".to_string(),
            "../../assets/sphere.obj".to_string(),
        ]
    );
}

#[test]
fn candidates_prefix_the_name() {
    assert_eq!(
        asset_candidates("wood.png"),
        vec![
            "assets/wood.png".to_string(),
            "../assets/wood.png".to_string(),
            "../../assets/wood.png".to_string(),
        ]
    );
}

#[test]
fn digit_keys_pick_render_modes() {
    assert_eq!(RenderMode::from_key("0"), Some(RenderMode::Default));
    assert_eq!(RenderMode::from_key("1"), Some(RenderMode::SurfaceNormal));
    assert_eq!(RenderMode::from_key("2"), Some(RenderMode::Depth));
    assert_eq!(RenderMode::from_key("3"), Some(RenderMode::ViewPosition));
    assert_eq!(RenderMode::from_key("4"), Some(RenderMode::Diffuse));
    assert_eq!(RenderMode::from_key("5"), Some(RenderMode::SpecularBlinn));
    assert_eq!(RenderMode::from_key("6"), Some(RenderMode::FullBlinn));
    assert_eq!(RenderMode::from_key("7"), Some(RenderMode::SpecularPhong));
    assert_eq!(RenderMode::from_key("8"), Some(RenderMode::FullPhong));
    assert_eq!(RenderMode::from_key("9"), Some(RenderMode::Plain));
    assert_eq!(RenderMode::from_key("a"), None);
    assert_eq!(RenderMode::from_key("10"), None);
    assert_eq!(RenderMode::from_key(""), None);
}

#[test]
fn mode_codes_follow_the_keys() {
    for d in 0..10u32 {
        let key = d.to_string();
        let mode = RenderMode::from_key(&key).unwrap();
        assert_eq!(mode.code(), d);
    }
}

#[test]
fn draw_modes_cycle_in_order() {
    assert_eq!(DrawMode::Normal.cycled(), DrawMode::WireframeOnly);
    assert_eq!(DrawMode::WireframeOnly.cycled(), DrawMode::NormalWithWireframe);
    assert_eq!(DrawMode::NormalWithWireframe.cycled(), DrawMode::Parallax);
    assert_eq!(DrawMode::Parallax.cycled(), DrawMode::Normal);
    assert_eq!(DrawMode::Normal.cycled().cycled().cycled().cycled(), DrawMode::Normal);
}

#[test]
fn owned_merged_uniform_keeps_both_halves() {
    let m = OwnedMergedUniform::new(7u32, "shine".to_string());
    assert_eq!(m.u1, 7);
    assert_eq!(m.u2, "shine");
}

#[test]
fn merged_uniform_keeps_both_borrows() {
    let a = 7u32;
    let b = "shine".to_string();
    let m = MergedUniform::new(&a, &b);
    assert_eq!(*m.u1, 7);
    assert_eq!(*m.u2, "shine");
}
