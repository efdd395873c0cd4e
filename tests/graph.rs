use deps_builder::graph::{build_dependency, DependencyGraph};
use deps_builder::symbol::DependencySymbol;
use deps_builder::unit::DependencyInfo;

fn sym(name: &str, path: &str) -> DependencySymbol {
    DependencySymbol { name: name.to_string(), path: path.to_string() }
}

fn unit(name: &str, undefined: Vec<DependencySymbol>, defined: Vec<DependencySymbol>) -> DependencyInfo {
    DependencyInfo {
        input_path: format!("/p/{}.c", name),
        output_path: format!("/out/{}.rs", name),
        object_path: None,
        undefined,
        defined,
    }
}

fn three_units(lib2_defines_bar: bool) -> Vec<DependencyInfo> {
    let lib1 = unit("lib1", vec![sym("bar", "/p/lib.h")], vec![sym("foo", "/p/lib.h")]);
    let lib2 = unit(
        "lib2",
        vec![],
        if lib2_defines_bar { vec![sym("bar", "/p/lib.h")] } else { vec![] },
    );
    let bin = unit("bin", vec![sym("foo", "/p/lib.h")], vec![sym("main", "/p/bin.c")]);
    vec![lib1, lib2, bin]
}

fn sorted_outputs(g: &DependencyGraph) -> Vec<String> {
    let mut v: Vec<String> = g.nodes.iter().map(|n| n.output_path.clone()).collect();
    v.sort();
    v
}

#[test]
fn new_graph_is_empty() {
    let g = DependencyGraph::new();
    assert_eq!(g.nodes.len(), 0);
    assert_eq!(g.edges.len(), 0);
}

#[test]
fn add_node_keeps_one_edge_list_per_node() {
    let mut g = DependencyGraph::new();
    g.add_node(unit("a", vec![], vec![]));
    g.add_node(unit("b", vec![], vec![]));
    assert_eq!(g.nodes.len(), 2);
    assert_eq!(g.edges.len(), g.nodes.len());
    assert!(g.edges.iter().all(|e| e.is_empty()));
    g.add_edge(0, 1);
    g.add_edge(0, 1);
    assert_eq!(g.edges[0], vec![1, 1]);
    assert_eq!(g.edges.len(), g.nodes.len());
}

#[test]
fn direct_and_transitive_dependencies() {
    let mut g = DependencyGraph::new();
    for name in ["a", "b", "c", "d"] {
        g.add_node(unit(name, vec![], vec![]));
    }
    g.add_edge(0, 1);
    g.add_edge(1, 2);
    g.add_edge(2, 0);
    assert!(g.direct_depends_on(0, 1));
    assert!(!g.direct_depends_on(0, 2));
    assert!(g.depends_on(0, 2));
    assert!(g.depends_on(2, 1));
    assert!(!g.depends_on(0, 3));
    assert!(!g.depends_on(3, 0));
    assert!(!g.depends_on(0, 17));
}

#[test]
fn depends_on_is_reflexive() {
    let mut g = DependencyGraph::new();
    g.add_node(unit("a", vec![], vec![]));
    g.add_node(unit("b", vec![], vec![]));
    g.add_edge(0, 1);
    for a in 0..g.nodes.len() {
        assert!(g.depends_on(a, a));
    }
}

#[test]
fn lookups_by_input_and_output() {
    let mut g = DependencyGraph::new();
    let mut a = unit("a", vec![], vec![]);
    a.object_path = Some("/obj/a.o".to_string());
    g.add_node(a);
    g.add_node(unit("b", vec![], vec![]));
    assert_eq!(g.get_node_index_with_input(&"/p/a.c".to_string(), &Some("/obj/a.o".to_string())), Some(0));
    assert_eq!(g.get_node_index_with_input(&"/p/a.c".to_string(), &None), None);
    assert_eq!(g.get_node_index_with_input(&"/p/b.c".to_string(), &None), Some(1));
    assert_eq!(g.get_node_index_with_output(&"/out/b.rs".to_string()), Some(1));
    assert_eq!(g.get_node_index_with_output(&"/out/c.rs".to_string()), None);
}

#[test]
fn sub_graph_renumbers_and_keeps_inner_edges() {
    let mut g = DependencyGraph::new();
    for name in ["a", "b", "c"] {
        g.add_node(unit(name, vec![], vec![]));
    }
    g.add_edge(0, 1);
    g.add_edge(1, 2);
    g.add_edge(2, 0);
    let sub = g.build_sub_graph(&vec![2, 0]);
    assert_eq!(sub.nodes.len(), 2);
    assert_eq!(sub.nodes[0].output_path, "/out/c.rs");
    assert_eq!(sub.nodes[1].output_path, "/out/a.rs");
    assert_eq!(sub.edges, vec![vec![1], vec![]]);
}

#[test]
fn scenario_three_units() {
    let g = build_dependency(three_units(true), 0);
    assert_eq!(g.edges.len(), g.nodes.len());
    assert_eq!(g.edges[0], vec![1]);
    assert!(g.edges[1].is_empty());
    assert_eq!(g.edges[2], vec![0]);
    let sub = g.extract_sub_dependency(vec![2]);
    assert_eq!(sub.nodes.len(), 3);
    assert_eq!(sorted_outputs(&sub), vec!["/out/bin.rs", "/out/lib1.rs", "/out/lib2.rs"]);
    let order: Vec<&str> = sub.nodes.iter().map(|n| n.output_path.as_str()).collect();
    assert_eq!(order, vec!["/out/bin.rs", "/out/lib1.rs", "/out/lib2.rs"]);
    assert_eq!(sub.edges, vec![vec![1], vec![2], vec![]]);
}

#[test]
fn scenario_three_units_without_bar() {
    let g = build_dependency(three_units(false), 0);
    assert!(g.edges[0].is_empty());
    assert_eq!(g.edges[2], vec![0]);
    let sub = g.extract_sub_dependency(vec![2]);
    assert_eq!(sorted_outputs(&sub), vec!["/out/bin.rs", "/out/lib1.rs"]);
    assert_eq!(sub.nodes[0].output_path, "/out/bin.rs");
    assert_eq!(sub.edges, vec![vec![1], vec![]]);
    assert_eq!(sub.edges.iter().map(|e| e.len()).sum::<usize>(), 1);
}

#[test]
fn no_edge_ends_at_a_binary() {
    let units = vec![
        unit("a", vec![sym("main", "/p/b.c"), sym("x", "/p/b.c")], vec![]),
        unit("b", vec![], vec![sym("main", "/p/b.c"), sym("x", "/p/b.c")]),
        unit("c", vec![], vec![sym("x", "/p/b.c")]),
    ];
    let g = build_dependency(units, 3);
    assert_eq!(g.edges[0], vec![2]);
    for list in &g.edges {
        for &t in list {
            assert!(!g.nodes[t].is_main());
        }
    }
}

#[test]
fn wildcard_level_connects_every_pair_of_non_binaries() {
    let units = vec![
        unit("a", vec![sym("q", "/x.h")], vec![sym("z", "/y.h")]),
        unit("b", vec![], vec![sym("w", "/v.h")]),
        unit("m", vec![], vec![sym("main", "/m.c")]),
    ];
    let g = build_dependency(units, 4);
    assert_eq!(g.edges[0], vec![0, 1]);
}

#[test]
fn building_twice_gives_the_same_edges() {
    let g1 = build_dependency(three_units(true), 2);
    let g2 = build_dependency(three_units(true), 2);
    assert_eq!(g1.edges, g2.edges);
}

#[test]
fn empty_seed_gives_empty_graph() {
    let g = build_dependency(three_units(true), 0);
    let sub = g.extract_sub_dependency(vec![]);
    assert_eq!(sub.nodes.len(), 0);
    assert_eq!(sub.edges.len(), 0);
}

#[test]
fn extraction_from_every_node_keeps_the_graph() {
    let mut g = DependencyGraph::new();
    for name in ["a", "b", "c", "d"] {
        g.add_node(unit(name, vec![], vec![]));
    }
    g.add_edge(0, 1);
    g.add_edge(0, 1);
    g.add_edge(3, 3);
    g.add_edge(2, 0);
    let sub = g.extract_sub_dependency(vec![0, 1, 2, 3]);
    assert_eq!(sub.nodes.len(), g.nodes.len());
    let count = |x: &DependencyGraph| x.edges.iter().map(|e| e.len()).sum::<usize>();
    assert_eq!(count(&sub), count(&g));
}

#[test]
fn two_binaries_do_not_include_each_other() {
    let units = vec![
        unit("one", vec![sym("shared", "/p/s.h")], vec![sym("main", "/p/one.c")]),
        unit("two", vec![sym("shared", "/p/s.h"), sym("main", "/p/one.c")], vec![sym("main", "/p/two.c")]),
        unit("lib", vec![], vec![sym("shared", "/p/s.h")]),
    ];
    let g = build_dependency(units, 0);
    let first = g.extract_sub_dependency(vec![0]);
    let second = g.extract_sub_dependency(vec![1]);
    assert_eq!(sorted_outputs(&first), vec!["/out/lib.rs", "/out/one.rs"]);
    assert_eq!(sorted_outputs(&second), vec!["/out/lib.rs", "/out/two.rs"]);
    assert_eq!(first.nodes[0].output_path, "/out/one.rs");
    assert_eq!(second.nodes[0].output_path, "/out/two.rs");
    assert!(!g.depends_on(1, 0));
    assert!(!g.depends_on(0, 1));
}
