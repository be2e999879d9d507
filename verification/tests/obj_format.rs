use common::obj_loader::Group;
use common::obj_loader::Mtl;
use common::obj_loader::ObjLoader;
use common::obj_loader::ParseError;
use common::obj_loader::check_float;
use common::obj_loader::parse_u32;
use common::obj_loader::parse_usize;
use common::obj_loader::path_join;

fn loader(base: &str) -> ObjLoader {
    ObjLoader { base: base.to_string() }
}

fn lines(text: &[&str]) -> Vec<String> {
    text.iter().map(|l| l.to_string()).collect()
}

fn triple(x: &str, y: &str, z: &str) -> (String, String, String) {
    (x.to_string(), y.to_string(), z.to_string())
}

#[test]
fn loader_base_is_directory_of_path() {
    assert_eq!(ObjLoader::new("models/teapot.obj").base, "models");
    assert_eq!(ObjLoader::new("teapot.obj").base, "");
    assert_eq!(ObjLoader::new("/a/b.obj").base, "/a");
    assert_eq!(ObjLoader::new("/b.obj").base, "/");
}

#[test]
fn join_paths() {
    assert_eq!(path_join("a", "b.png"), "a/b.png");
    assert_eq!(path_join("a/", "b.png"), "a/b.png");
    assert_eq!(path_join("", "b.png"), "b.png");
    assert_eq!(path_join("a", "/abs.png"), "/abs.png");
}

#[test]
fn face_vertex_reads_three_indices() {
    let l = loader("");
    assert_eq!(l.parse_f_vertex("1/2/3"), Ok((1, 2, 3)));
    assert_eq!(l.parse_f_vertex("10/20/30/40"), Ok((10, 20, 30)));
    assert_eq!(l.parse_f_vertex("+7/8/9"), Ok((7, 8, 9)));
}

#[test]
fn face_vertex_errors() {
    let l = loader("");
    assert_eq!(l.parse_f_vertex("1"), Err(ParseError::MissingVt));
    assert_eq!(l.parse_f_vertex("1/2"), Err(ParseError::MissingVn));
    assert_eq!(l.parse_f_vertex("1//3"), Err(ParseError::InvalidNumber));
    assert_eq!(l.parse_f_vertex("x/2/3"), Err(ParseError::InvalidNumber));
    assert_eq!(l.parse_f_vertex(""), Err(ParseError::InvalidNumber));
}

#[test]
fn face_line_reads_every_corner() {
    let l = loader("");
    let f = l.parse_f("1/1/1 2/2/2 3/3/3 4/4/4").unwrap();
    assert_eq!(f, vec![(1, 1, 1), (2, 2, 2), (3, 3, 3), (4, 4, 4)]);
    assert_eq!(l.parse_f(""), Ok(Vec::new()));
    assert_eq!(l.parse_f("1/1/1 2/2"), Err(ParseError::MissingVn));
}

#[test]
fn vec3_reads_three_tokens() {
    let l = loader("");
    assert_eq!(l.parse_vec3f("1.0 2 3.5e2"), Ok(triple("1.0", "2", "3.5e2")));
    assert_eq!(l.parse_vec3f("1 2"), Err(ParseError::MissingZ));
    assert_eq!(l.parse_vec3f(""), Err(ParseError::MissingX));
    assert_eq!(l.parse_vec3f("1 x 3"), Err(ParseError::InvalidNumber));
}

#[test]
fn vec2_or_3_defaults_the_third() {
    let l = loader("");
    assert_eq!(l.parse_vec2f_or_vec3f("0.5 0.25"), Ok(triple("0.5", "0.25", "0.0")));
    assert_eq!(l.parse_vec2f_or_vec3f("0.5 0.25 1"), Ok(triple("0.5", "0.25", "1")));
    assert_eq!(l.parse_vec2f_or_vec3f("0.5"), Err(ParseError::MissingY));
}

#[test]
fn float_grammar() {
    for ok in ["1", "-1.5", ".5", "5.", "1e9", "2.5E-3", "inf", "-Infinity", "nan", "+0"] {
        assert!(check_float(ok), "{}", ok);
    }
    for bad in ["", ".", "1e", "1.2.3", "abc", "+-1", "1 ", "e5", "--1"] {
        assert!(!check_float(bad), "{}", bad);
    }
}

#[test]
fn unsigned_decimals() {
    assert_eq!(parse_usize("42"), Some(42));
    assert_eq!(parse_usize("+0042"), Some(42));
    assert_eq!(parse_usize(""), None);
    assert_eq!(parse_usize("4x"), None);
    assert_eq!(parse_usize("99999999999999999999999999"), None);
    assert_eq!(parse_u32("4294967295"), Some(u32::MAX));
    assert_eq!(parse_u32("4294967296"), None);
}

#[test]
fn simple_obj_collects_tables() {
    let l = loader("");
    let obj = l
        .parse_simple(&lines(&[
            "# a comment",
            "",
            "v 0 0 0",
            "v 1 0 0",
            "v 0 1 0",
            "vn 0 0 1",
            "vt 0 0",
            "g tri",
            "f 1/1/1 2/1/1 3/1/1",
            "s off",
        ]))
        .unwrap();
    assert_eq!(obj.v.len(), 3);
    assert_eq!(obj.v[1], triple("1", "0", "0"));
    assert_eq!(obj.vn, vec![triple("0", "0", "1")]);
    assert_eq!(obj.vt, vec![triple("0", "0", "0.0")]);
    assert_eq!(obj.g, "tri");
    assert_eq!(obj.f, vec![vec![(1, 1, 1), (2, 1, 1), (3, 1, 1)]]);
}

#[test]
fn simple_obj_errors() {
    let l = loader("");
    assert!(matches!(l.parse_simple(&lines(&["v"])), Err(ParseError::MissingType)));
    assert!(matches!(l.parse_simple(&lines(&["v 1 2"])), Err(ParseError::MissingZ)));
    assert!(matches!(l.parse_simple(&lines(&["f 1/2"])), Err(ParseError::MissingVn)));
}

#[test]
fn full_obj_groups_and_libraries() {
    let l = loader("models");
    let (obj, mtl_paths) = l
        .parse(&lines(&[
            "mtllib teapot.mtl",
            "v 0 0 0",
            "g a",
            "usemtl red",
            "f 1/1/1 1/1/1 1/1/1",
            "g b",
            "f 1/1/1 1/1/1 1/1/1",
        ]))
        .unwrap();
    assert_eq!(mtl_paths, vec!["models/teapot.mtl".to_string()]);
    assert_eq!(obj.v, vec![triple("0", "0", "0")]);
    assert_eq!(obj.groups.len(), 2);
    assert_eq!(obj.groups[0].name, "a");
    assert_eq!(obj.groups[0].usemtl, Some("red".to_string()));
    assert_eq!(obj.groups[0].f.len(), 1);
    assert_eq!(obj.groups[1].name, "b");
    assert_eq!(obj.groups[1].usemtl, None);
    assert!(obj.mtl_lib.mtls.is_empty());
}

#[test]
fn full_obj_keeps_touched_default_group() {
    let l = loader("");
    let (obj, _) = l.parse(&lines(&["v 0 0 0", "f 1/1/1 1/1/1 1/1/1"])).unwrap();
    assert_eq!(obj.groups.len(), 1);
    assert_eq!(obj.groups[0].name, "Default");
    assert_eq!(obj.groups[0].f.len(), 1);
}

#[test]
fn full_obj_drops_untouched_default_group() {
    let l = loader("");
    let (obj, _) = l.parse(&lines(&["v 0 0 0"])).unwrap();
    assert!(obj.groups.is_empty());
}

#[test]
fn mtl_library_materials_and_images() {
    let l = loader("assets");
    let (lib, imgs) = l
        .parse_mtl_lib(&lines(&[
            "newmtl red",
            "Ns 96.0",
            "Ka 1 0 0",
            "map_Kd tex.png",
            "newmtl blue",
            "illum 2",
        ]))
        .unwrap();
    assert_eq!(imgs, vec!["assets/tex.png".to_string()]);
    assert_eq!(lib.mtls.len(), 2);
    assert_eq!(lib.mtls[0].name, "red");
    assert_eq!(lib.mtls[0].ns, "96.0");
    assert_eq!(lib.mtls[0].ka, triple("1", "0", "0"));
    assert_eq!(lib.mtls[0].map_kd, Some("assets/tex.png".to_string()));
    assert_eq!(lib.mtls[1].name, "blue");
    assert_eq!(lib.mtls[1].illum, 2);
    assert_eq!(lib.mtls[1].ns, "0");
}

#[test]
fn mtl_errors() {
    let l = loader("");
    assert!(matches!(l.parse_mtl_lib(&lines(&["Ns abc"])), Err(ParseError::InvalidNumber)));
    assert!(matches!(l.parse_mtl_lib(&lines(&["illum x"])), Err(ParseError::InvalidNumber)));
    assert!(matches!(l.parse_mtl_lib(&lines(&["Ka 1 2"])), Err(ParseError::MissingZ)));
}

#[test]
fn mtl_empty_input_gives_empty_library() {
    let l = loader("");
    let (lib, imgs) = l.parse_mtl_lib(&lines(&[])).unwrap();
    assert!(lib.mtls.is_empty());
    assert!(imgs.is_empty());
}

#[test]
fn group_fans_faces_into_triangles() {
    let g = Group {
        name: "q".to_string(),
        f: vec![vec![(1, 1, 1), (2, 2, 2), (3, 3, 3), (4, 4, 4)], vec![(5, 5, 5), (6, 6, 6), (
            7,
            7,
            7,
        )]],
        usemtl: None,
    };
    let trigs = g.trigs();
    assert_eq!(
        trigs,
        vec![
            ((1, 1, 1), (2, 2, 2), (3, 3, 3)),
            ((1, 1, 1), (3, 3, 3), (4, 4, 4)),
            ((5, 5, 5), (6, 6, 6), (7, 7, 7)),
        ]
    );
}

#[test]
fn simple_obj_fans_faces_into_triangles() {
    let l = loader("");
    let obj = l
        .parse_simple(&lines(&["f 1/1/1 2/2/2 3/3/3 4/4/4"]))
        .unwrap();
    assert_eq!(
        obj.trigs(),
        vec![((1, 1, 1), (2, 2, 2), (3, 3, 3)), ((1, 1, 1), (3, 3, 3), (4, 4, 4))]
    );
}

#[test]
fn group_with_short_faces_has_no_triangles() {
    let g = Group {
        name: "short".to_string(),
        f: vec![vec![(1, 1, 1)], vec![(1, 1, 1), (2, 2, 2)]],
        usemtl: None,
    };
    assert!(g.trigs().is_empty());
}

#[test]
fn default_markers() {
    assert!(Group::new_default().is_default());
    assert!(Mtl::new_default().is_default());
    let mut g = Group::new_default();
    g.usemtl = Some("x".to_string());
    assert!(!g.is_default());
    let mut m = Mtl::new_default();
    m.ns = "1".to_string();
    assert!(!m.is_default());
}
