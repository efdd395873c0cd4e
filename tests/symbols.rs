use deps_builder::symbol::DependencySymbol;
use deps_builder::unit::DependencyInfo;

fn sym(name: &str, path: &str) -> DependencySymbol {
    DependencySymbol { name: name.to_string(), path: path.to_string() }
}

#[test]
fn exact_level_needs_equal_name_and_path() {
    assert!(sym("f", "/a/x.c").depends_on(&sym("f", "/a/x.c"), 0));
    assert!(!sym("f", "/a/x.c").depends_on(&sym("f", "/a/x.h"), 0));
    assert!(!sym("f", "/a/x.c").depends_on(&sym("g", "/a/x.c"), 0));
}

#[test]
fn level_one_ignores_the_extension() {
    assert!(sym("f", "/a/x.c").depends_on(&sym("f", "/a/x.h"), 1));
    assert!(!sym("f", "/a/x.c").depends_on(&sym("f", "/a/y.c"), 1));
    assert!(!sym("f", "/a/x.c").depends_on(&sym("f", "/b/x.c"), 1));
}

#[test]
fn level_two_needs_the_same_directory() {
    assert!(sym("f", "/a/x.c").depends_on(&sym("f", "/a/y.h"), 2));
    assert!(!sym("f", "/a/x.c").depends_on(&sym("f", "/b/x.c"), 2));
    assert!(!sym("f", "/a/x.c").depends_on(&sym("g", "/a/x.c"), 2));
}

#[test]
fn level_three_compares_names_only() {
    assert!(sym("f", "/a/x.c").depends_on(&sym("f", "/b/y.h"), 3));
    assert!(!sym("f", "/a/x.c").depends_on(&sym("g", "/a/x.c"), 3));
}

#[test]
fn higher_levels_accept_everything() {
    assert!(sym("f", "/a/x.c").depends_on(&sym("g", "/b/y.h"), 4));
    assert!(sym("f", "/a/x.c").depends_on(&sym("g", "/b/y.h"), 1000));
}

#[test]
fn matching_is_monotone_in_the_level() {
    let pairs = vec![
        (sym("f", "/a/x.c"), sym("f", "/a/x.c")),
        (sym("f", "/a/x.c"), sym("f", "/a/x.h")),
        (sym("f", "/a/x.c"), sym("f", "/a/y.c")),
        (sym("f", "/a/x.c"), sym("f", "/b/y.c")),
        (sym("f", "/a/x.c"), sym("g", "/a/x.c")),
    ];
    for (a, b) in &pairs {
        for level in 0..5usize {
            if a.depends_on(b, level) {
                for looser in level..6usize {
                    assert!(a.depends_on(b, looser));
                }
            }
        }
    }
}

#[test]
fn is_main_needs_the_exact_name() {
    let info = |names: &[&str]| DependencyInfo {
        input_path: "/p/a.c".to_string(),
        output_path: "/o/a.rs".to_string(),
        object_path: None,
        undefined: vec![],
        defined: names.iter().map(|n| sym(n, "/p/a.c")).collect(),
    };
    assert!(info(&["helper", "main"]).is_main());
    assert!(!info(&["main_loop", "domain"]).is_main());
    assert!(!info(&[]).is_main());
}

#[test]
fn unit_equality_compares_paths_only() {
    let a = DependencyInfo {
        input_path: "/p/a.c".to_string(),
        output_path: "/o/a.rs".to_string(),
        object_path: None,
        undefined: vec![],
        defined: vec![sym("main", "/p/a.c")],
    };
    let mut b = a.clone();
    b.defined.clear();
    b.object_path = Some("/obj/a.o".to_string());
    assert!(a == b);
    b.output_path = "/o/b.rs".to_string();
    assert!(a != b);
}

#[test]
fn symbol_equality_compares_name_and_path() {
    assert!(sym("f", "/a.c") == sym("f", "/a.c"));
    assert!(sym("f", "/a.c") != sym("f", "/b.c"));
    assert!(sym("f", "/a.c") != sym("g", "/a.c"));
}

#[test]
fn matching_is_symmetric() {
    let syms = vec![sym("f", "/a/x.c"), sym("f", "/a/x.h"), sym("f", "/b/x.c"), sym("g", "/a/x.c"), sym("f", "a//x.c")];
    for a in &syms {
        for b in &syms {
            for level in 0..6usize {
                assert_eq!(a.depends_on(b, level), b.depends_on(a, level));
            }
        }
    }
}
