use steamws::mdl::binary::{MDLSkin, PartialMDL};
use steamws::mdl::{MDLDependency, MDLFile};

fn partial(
    name: &str,
    texture_names: Vec<&str>,
    texture_dirs: Vec<&str>,
    skins: Vec<Vec<u16>>,
    slot_count: u32,
) -> PartialMDL {
    PartialMDL {
        name: name.to_string(),
        texture_names: texture_names.iter().map(|s| s.to_string()).collect(),
        texture_dirs: texture_dirs.iter().map(|s| s.to_string()).collect(),
        skin_count: skins.len() as u32,
        texture_slot_count: slot_count,
        skins: skins.into_iter().map(MDLSkin).collect(),
    }
}

fn strings(v: Vec<&str>) -> Vec<String> {
    v.iter().map(|s| s.to_string()).collect()
}

#[test]
fn new_rejects_out_of_range_skin_indices() {
    let p = partial("m.mdl", vec!["brick"], vec!["models/"], vec![vec![3]], 1);
    assert!(MDLFile::new("assets/models/m.mdl".to_string(), p).is_none());
    let p = partial("m.mdl", vec!["brick"], vec!["models/"], vec![vec![0]], 1);
    assert!(MDLFile::new("assets/models/m.mdl".to_string(), p).is_some());
}

#[test]
fn assets_path_walks_name_depth() {
    let p = partial("models/props/m.mdl", vec![], vec![], vec![], 0);
    let m = MDLFile::new("game/assets/models/props/m.mdl".to_string(), p).unwrap();
    // two separators in the name: three steps upward
    assert_eq!(m.assets_path(), "game/assets");
}

#[test]
fn assets_path_normalizes_backslashes() {
    let p = partial("models\\m.mdl", vec![], vec![], vec![], 0);
    let m = MDLFile::new("assets/models/m.mdl".to_string(), p).unwrap();
    assert_eq!(m.assets_path(), "assets");
}

#[test]
fn first_directory_wins_on_ambiguity() {
    let p = partial("m.mdl", vec!["tex"], vec!["a/", "b/"], vec![], 0);
    let m = MDLFile::new("assets/m.mdl".to_string(), p).unwrap();
    let existing = strings(vec!["base/a/tex.vmt", "base/b/tex.vmt"]);
    let found = m.discover_texture_path(&"base".to_string(), &"tex".to_string(), &existing);
    assert_eq!(found, Some("base/a/tex.vmt".to_string()));
}

#[test]
fn later_directory_used_when_earlier_missing() {
    let p = partial("m.mdl", vec!["tex"], vec!["a/", "b/"], vec![], 0);
    let m = MDLFile::new("assets/m.mdl".to_string(), p).unwrap();
    let existing = strings(vec!["base/b/tex.vmt"]);
    let found = m.discover_texture_path(&"base".to_string(), &"tex".to_string(), &existing);
    assert_eq!(found, Some("base/b/tex.vmt".to_string()));
}

#[test]
fn discovery_lower_cases_and_normalizes() {
    let p = partial("m.mdl", vec!["TEX"], vec!["Dir\\Sub/"], vec![], 0);
    let m = MDLFile::new("assets/m.mdl".to_string(), p).unwrap();
    let existing = strings(vec!["base/dir/sub/tex.vmt"]);
    let found = m.discover_texture_path(&"base".to_string(), &"TEX".to_string(), &existing);
    assert_eq!(found, Some("base/dir/sub/tex.vmt".to_string()));
}

#[test]
fn missing_material_is_no_error() {
    let p = partial("m.mdl", vec!["tex"], vec!["a/"], vec![], 0);
    let m = MDLFile::new("assets/m.mdl".to_string(), p).unwrap();
    let found = m.discover_texture_path(&"base".to_string(), &"tex".to_string(), &Vec::new());
    assert_eq!(found, None);
}

#[test]
fn skins_map_slots_to_texture_names() {
    let p = partial(
        "m.mdl",
        vec!["red", "blue"],
        vec!["models/"],
        vec![vec![0, 1], vec![1, 1]],
        2,
    );
    let m = MDLFile::new("assets/m.mdl".to_string(), p).unwrap();
    let names = m.skins_with_material_names();
    assert_eq!(names, vec![strings(vec!["red", "blue"]), strings(vec!["blue", "blue"])]);
}

#[test]
fn skins_resolve_to_material_paths() {
    let p = partial(
        "m.mdl",
        vec!["red", "blue"],
        vec!["models/"],
        vec![vec![0, 1]],
        2,
    );
    let m = MDLFile::new("assets/m.mdl".to_string(), p).unwrap();
    let existing = strings(vec!["assets/materials/models/red.vmt"]);
    let paths = m.skins_with_material_paths(&existing);
    assert_eq!(
        paths,
        vec![vec![Some("assets/materials/models/red.vmt".to_string()), None]]
    );
}

fn paths_of(deps: Vec<MDLDependency>) -> Vec<String> {
    deps.iter().map(|d| d.path().clone()).collect()
}

#[test]
fn resolves_full_dependency_graph() {
    let p = partial("models/m.mdl", vec!["brick"], vec!["models/"], vec![], 0);
    let m = MDLFile::new("assets/models/m.mdl".to_string(), p).unwrap();
    let dir_files = strings(vec![
        "assets/models/m.mdl",
        "assets/models/m.phy",
        "assets/models/other.mdl",
    ]);
    let existing = strings(vec![
        "assets/materials/models/brick.vmt",
        "assets/materials/tile/brick2.vtf",
    ]);
    let contents = vec![Some("$basetexture \"tile/brick2\"\n".to_string())];
    let g = m.dependencies(&dir_files, &existing, &contents);
    let dot = g.dot();
    let expected = "digraph {\n\
        \x20   0 [ label = \"Model(assets/models/m.mdl)\" ]\n\
        \x20   1 [ label = \"Model(assets/models/m.phy)\" ]\n\
        \x20   2 [ label = \"Material(assets/materials/models/brick.vmt)\" ]\n\
        \x20   3 [ label = \"Texture(assets/materials/tile/brick2.vtf)\" ]\n\
        \x20   0 -> 1\n\
        \x20   0 -> 2\n\
        \x20   2 -> 3\n\
        }\n";
    assert_eq!(dot, expected);
    let flat = paths_of(g.flatten());
    assert_eq!(
        flat,
        strings(vec![
            "assets/models/m.mdl",
            "assets/models/m.phy",
            "assets/materials/models/brick.vmt",
            "assets/materials/tile/brick2.vtf",
        ])
    );
}

#[test]
fn missing_texture_is_silently_absent() {
    let p = partial("models/m.mdl", vec!["brick"], vec!["models/"], vec![], 0);
    let m = MDLFile::new("assets/models/m.mdl".to_string(), p).unwrap();
    let dir_files = strings(vec!["assets/models/m.mdl"]);
    let existing = strings(vec!["assets/materials/models/brick.vmt"]);
    let contents = vec![Some("$basetexture \"tile/brick2\"\n".to_string())];
    let g = m.dependencies(&dir_files, &existing, &contents);
    let flat = paths_of(g.flatten());
    assert_eq!(
        flat,
        strings(vec!["assets/models/m.mdl", "assets/materials/models/brick.vmt"])
    );
}

#[test]
fn shared_textures_are_inserted_once() {
    let p = partial("models/m.mdl", vec!["one", "two"], vec![""], vec![], 0);
    let m = MDLFile::new("assets/models/m.mdl".to_string(), p).unwrap();
    let dir_files = strings(vec!["assets/models/m.mdl"]);
    let existing = strings(vec![
        "assets/materials/one.vmt",
        "assets/materials/two.vmt",
        "assets/materials/shared.vtf",
    ]);
    let contents = vec![
        Some("$basetexture shared\n".to_string()),
        Some("$basetexture shared\n".to_string()),
    ];
    let g = m.dependencies(&dir_files, &existing, &contents);
    let flat = paths_of(g.flatten());
    assert_eq!(
        flat,
        strings(vec![
            "assets/models/m.mdl",
            "assets/materials/one.vmt",
            "assets/materials/shared.vtf",
            "assets/materials/two.vmt",
        ])
    );
}

#[test]
fn dependency_path_returns_inner_path() {
    let d = MDLDependency::Material("x/y.vmt".to_string());
    assert_eq!(d.path().as_str(), "x/y.vmt");
}
