use steamws::dependency::DependencyGraph;
use steamws::mdl::{MDLDependency, MDLDependencyType};

#[test]
fn it_works() {
    let mut g: DependencyGraph<&str, ()> = DependencyGraph::new("Foo");
    g.insert("Bar", ());

    assert_eq!(2 + 2, 4);
}

#[test]
fn flatten_contains_inserted_node() {
    let mut g: DependencyGraph<&str, u32> = DependencyGraph::new("root");
    g.insert("child", 7);
    let nodes = g.flatten();
    assert!(nodes.contains(&"child"));
    assert!(nodes.contains(&"root"));
    assert_eq!(nodes.len(), 2);
}

#[test]
fn insert_sub_builds_chains() {
    let mut g: DependencyGraph<&str, ()> = DependencyGraph::new("root");
    let a = g.insert("a", ());
    g.insert_sub(a, "b", ());
    let nodes = g.flatten();
    assert_eq!(nodes, vec!["root", "a", "b"]);
}

#[test]
fn filter_root_dependencies_prunes_unreachable() {
    let mut g: DependencyGraph<&str, ()> = DependencyGraph::new("root");
    let a = g.insert("keep", ());
    let b = g.insert("drop", ());
    g.insert_sub(a, "under_keep", ());
    g.insert_sub(b, "under_drop", ());
    g.filter_root_dependencies(|n: &&str| !n.starts_with("drop"));
    let nodes = g.flatten();
    assert!(nodes.contains(&"root"));
    assert!(nodes.contains(&"keep"));
    assert!(nodes.contains(&"under_keep"));
    assert!(!nodes.contains(&"drop"));
    assert!(!nodes.contains(&"under_drop"));
    assert_eq!(nodes.len(), 3);
}

#[test]
fn filter_root_dependencies_keeps_everything_on_true() {
    let mut g: DependencyGraph<&str, ()> = DependencyGraph::new("root");
    let a = g.insert("a", ());
    g.insert_sub(a, "b", ());
    g.insert("c", ());
    g.filter_root_dependencies(|_n: &&str| true);
    assert_eq!(g.flatten().len(), 4);
}

#[test]
fn filter_root_edges_prunes_by_label() {
    let mut g: DependencyGraph<&str, u32> = DependencyGraph::new("root");
    let a = g.insert("a", 1);
    g.insert("b", 2);
    g.insert_sub(a, "a_child", 9);
    g.filter_root_edges(|e: &u32| *e == 1);
    let nodes = g.flatten();
    assert!(nodes.contains(&"root"));
    assert!(nodes.contains(&"a"));
    assert!(nodes.contains(&"a_child"));
    assert!(!nodes.contains(&"b"));
    assert_eq!(nodes.len(), 3);
}

#[test]
fn dot_lists_nodes_and_edges() {
    let mut g: DependencyGraph<MDLDependency, MDLDependencyType> =
        DependencyGraph::new(MDLDependency::Model(String::from("m.mdl")));
    let a = g.insert(
        MDLDependency::Material(String::from("mat.vmt")),
        MDLDependencyType::Indirect,
    );
    g.insert_sub(
        a,
        MDLDependency::Texture(String::from("tex.vtf")),
        MDLDependencyType::Indirect,
    );
    let dot = g.dot();
    let expected = "digraph {\n    0 [ label = \"Model(m.mdl)\" ]\n    1 [ label = \"Material(mat.vmt)\" ]\n    2 [ label = \"Texture(tex.vtf)\" ]\n    0 -> 1\n    1 -> 2\n}\n";
    assert_eq!(dot, expected);
}

#[test]
fn dot_skips_filtered_nodes() {
    let mut g: DependencyGraph<MDLDependency, MDLDependencyType> =
        DependencyGraph::new(MDLDependency::Model(String::from("m.mdl")));
    g.insert(
        MDLDependency::Material(String::from("gone.vmt")),
        MDLDependencyType::Indirect,
    );
    g.filter_root_dependencies(|_n: &MDLDependency| false);
    let dot = g.dot();
    assert_eq!(dot, "digraph {\n    0 [ label = \"Model(m.mdl)\" ]\n}\n");
}
