use deps_builder::assembly::{
    binary_modules, binary_seeds, candidate_module_names, link_outcome, prepends_preamble, BinarySelection,
    TranslatedUnit,
};
use deps_builder::graph::build_dependency;
use deps_builder::naming::{binary_name_from_path, char_to_ident, get_module_name, str_to_ident, str_to_ident_checked};
use deps_builder::requirements::{ExternCrate, ExternCrateDetails, Requirements};
use deps_builder::symbol::DependencySymbol;
use deps_builder::unit::{Declaration, DeclarationKind, DependencyInfo};

fn sym(name: &str, path: &str) -> DependencySymbol {
    DependencySymbol { name: name.to_string(), path: path.to_string() }
}

fn unit(name: &str, undefined: Vec<DependencySymbol>, defined: Vec<DependencySymbol>) -> DependencyInfo {
    DependencyInfo {
        input_path: format!("/p/{}.c", name),
        output_path: format!("/out/{}.rs", name),
        object_path: None,
        undefined,
        defined,
    }
}

fn translated(name: &str, pragmas: Vec<(&'static str, Vec<&'static str>)>, crates: Vec<ExternCrate>) -> TranslatedUnit {
    TranslatedUnit { output_path: format!("/out/{}.rs", name), pragmas, crates }
}

#[test]
fn identifiers_replace_other_characters() {
    assert_eq!(char_to_ident('a'), 'a');
    assert_eq!(char_to_ident('7'), '7');
    assert_eq!(char_to_ident('-'), '_');
    assert_eq!(char_to_ident('.'), '_');
    assert_eq!(str_to_ident("foo-bar.c"), "foo_bar_c");
    assert_eq!(str_to_ident_checked(&Some("a b".to_string()), &vec![]), Some("a_b".to_string()));
    assert_eq!(str_to_ident_checked(&None, &vec![]), None);
}

#[test]
fn module_names_of_paths() {
    let none: Vec<String> = vec![];
    assert_eq!(get_module_name("dir/foo-bar.rs", &none, false, false), Some("foo_bar".to_string()));
    assert_eq!(get_module_name("dir/foo-bar.rs", &none, true, false), Some("foo_bar.rs".to_string()));
    assert_eq!(get_module_name("dir/foo-bar.rs", &none, true, true), Some("dir/foo_bar.rs".to_string()));
    assert_eq!(get_module_name("dir/x.c", &none, true, false), Some("x_c".to_string()));
    assert_eq!(get_module_name("/", &none, false, false), None);
    assert_eq!(binary_name_from_path("/src/main-prog.c"), Some("main_prog".to_string()));
}

#[test]
fn named_and_detected_binaries() {
    let prog = unit("prog-one", vec![], vec![sym("helper", "/p/prog-one.c")]);
    let tool = unit("tool", vec![], vec![sym("my_main", "/p/tool.c")]);
    let named = BinarySelection { binaries: vec!["prog_one".to_string()], detect_binaries: false };
    assert!(named.is_binary(&prog));
    assert!(!named.is_binary(&tool));
    let detect = BinarySelection { binaries: vec![], detect_binaries: true };
    assert!(!detect.is_binary(&prog));
    assert!(detect.is_binary(&tool));
    assert!(!tool.is_main());
}

#[test]
fn unused_binaries_are_reported() {
    let sel = BinarySelection {
        binaries: vec!["one".to_string(), "two".to_string()],
        detect_binaries: false,
    };
    let modules = vec!["/b/one.rs".to_string(), "/b/src/lib_x.rs".to_string()];
    assert!(!sel.check_if_all_binaries_used(&modules));
    assert_eq!(sel.unused_binaries(&modules), vec!["two".to_string()]);
    assert_eq!(candidate_module_names(&modules), vec!["one".to_string(), "lib_x".to_string()]);
    let all = vec!["/b/one.rs".to_string(), "/b/two.rs".to_string()];
    assert!(sel.check_if_all_binaries_used(&all));
    assert!(sel.unused_binaries(&all).is_empty());
}

#[test]
fn crate_details() {
    let d = ExternCrateDetails::new("num-traits", "0.2", true);
    assert_eq!(d.ident, "num_traits");
    assert_eq!(d.name, "num-traits");
    let b = ExternCrate::C2RustBitfields.details();
    assert_eq!((b.name, b.ident.as_str(), b.version, b.macro_use), ("c2rust-bitfields", "c2rust_bitfields", "0.3", true));
    let l = ExternCrate::Libc.details();
    assert_eq!((l.name, l.version, l.macro_use), ("libc", "0.2", false));
    for r in 0..6u8 {
        assert_eq!(ExternCrate::from_rank(r).rank(), r);
    }
}

#[test]
fn requirements_merge_once_and_sort() {
    let mut req = Requirements::new();
    req.add_unit(&vec![("feature", vec!["linkage", "asm"])], &vec![ExternCrate::Libc, ExternCrate::F128]);
    req.add_unit(
        &vec![("feature", vec!["asm"]), ("allow", vec!["dead_code"])],
        &vec![ExternCrate::Libc, ExternCrate::C2RustBitfields],
    );
    let (pragmas, crates) = req.into_sorted();
    assert_eq!(pragmas, vec![("allow", "dead_code"), ("feature", "asm"), ("feature", "linkage")]);
    assert_eq!(crates, vec![ExternCrate::C2RustBitfields, ExternCrate::F128, ExternCrate::Libc]);
}

#[test]
fn empty_requirements() {
    let (pragmas, crates) = Requirements::new().into_sorted();
    assert!(pragmas.is_empty());
    assert!(crates.is_empty());
}

#[test]
fn binary_takes_only_its_closure() {
    let units = vec![
        unit("lib1", vec![sym("bar", "/p/l.h")], vec![sym("foo", "/p/l.h")]),
        unit("lib2", vec![], vec![sym("bar", "/p/l.h")]),
        unit("other", vec![], vec![sym("baz", "/p/l.h")]),
        unit("bin", vec![sym("foo", "/p/l.h")], vec![sym("main", "/p/bin.c")]),
    ];
    let g = build_dependency(units, 0);
    let library = vec![
        Some(translated("lib1", vec![("feature", vec!["c_variadic"])], vec![ExternCrate::Libc])),
        None,
        Some(translated("other", vec![("feature", vec!["asm"])], vec![ExternCrate::F128])),
        Some(translated("lib2", vec![("feature", vec!["c_variadic", "asm"])], vec![ExternCrate::Memoffset, ExternCrate::Libc])),
    ];
    let (modules, mut req) = binary_modules(&g, &"/p/bin.c".to_string(), &None, &library);
    assert_eq!(modules, vec!["/out/lib1.rs".to_string(), "/out/lib2.rs".to_string()]);
    req.add_unit(&vec![("allow", vec!["unused"])], &vec![]);
    let (pragmas, crates) = req.into_sorted();
    assert_eq!(pragmas, vec![("allow", "unused"), ("feature", "asm"), ("feature", "c_variadic")]);
    assert_eq!(crates, vec![ExternCrate::Memoffset, ExternCrate::Libc]);
}

#[test]
fn unknown_binary_takes_nothing() {
    let g = build_dependency(vec![unit("lib1", vec![], vec![sym("foo", "/p/l.h")])], 0);
    let library = vec![Some(translated("lib1", vec![], vec![ExternCrate::Libc]))];
    let (modules, req) = binary_modules(&g, &"/p/missing.c".to_string(), &None, &library);
    assert!(modules.is_empty());
    let (pragmas, crates) = req.into_sorted();
    assert!(pragmas.is_empty() && crates.is_empty());
}

#[test]
fn seeds_for_requested_binaries() {
    let infos = vec![
        unit("a", vec![], vec![sym("main", "/p/a.c")]),
        unit("lib", vec![], vec![sym("f", "/p/lib.c")]),
        unit("b", vec![], vec![sym("main", "/p/b.c")]),
    ];
    assert_eq!(binary_seeds(&infos, true, &vec![]), vec![0, 2]);
    assert_eq!(binary_seeds(&infos, false, &vec!["b".to_string(), "a".to_string()]), vec![2, 0]);
    assert_eq!(binary_seeds(&infos, false, &vec!["lib".to_string()]), Vec::<usize>::new());
    assert_eq!(binary_seeds(&infos, false, &vec![]), Vec::<usize>::new());
}

#[test]
fn link_outcome_collects_successes_and_failures() {
    let results = vec![
        Some(translated("a", vec![("feature", vec!["asm"])], vec![ExternCrate::Libc])),
        None,
        Some(translated("b", vec![("feature", vec!["asm"])], vec![ExternCrate::F128])),
    ];
    let (modules, skipped, req) = link_outcome(&results);
    assert_eq!(modules, vec!["/out/a.rs".to_string(), "/out/b.rs".to_string()]);
    assert!(skipped);
    let (pragmas, crates) = req.into_sorted();
    assert_eq!(pragmas, vec![("feature", "asm")]);
    assert_eq!(crates, vec![ExternCrate::F128, ExternCrate::Libc]);
    let (_, skipped, _) = link_outcome(&vec![Some(translated("a", vec![], vec![]))]);
    assert!(!skipped);
}

#[test]
fn roles_split_library_from_binaries() {
    let units = vec![
        unit("lib", vec![], vec![sym("f", "/p/lib.c")]),
        unit("one", vec![], vec![sym("main", "/p/one.c")]),
        unit("two", vec![], vec![sym("g", "/p/two.c")]),
    ];
    let sel = BinarySelection { binaries: vec!["two".to_string()], detect_binaries: true };
    assert_eq!(sel.split_roles(&units), (vec![0], vec![1, 2]));
    let none = BinarySelection { binaries: vec![], detect_binaries: false };
    assert_eq!(none.split_roles(&units), (vec![0, 1, 2], vec![]));
}

#[test]
fn records_from_declarations() {
    let decl = |kind: DeclarationKind, name: &str| Declaration { kind, name: name.to_string(), path: "/p/a.c".to_string() };
    let decls = vec![
        decl(DeclarationKind::Function { is_global: true, has_body: true }, "main"),
        decl(DeclarationKind::Function { is_global: true, has_body: false }, "puts"),
        decl(DeclarationKind::Function { is_global: false, has_body: true }, "helper"),
        decl(DeclarationKind::Variable { is_externally_visible: true, is_defn: true }, "counter"),
        decl(DeclarationKind::Variable { is_externally_visible: true, is_defn: false }, "errno_value"),
        decl(DeclarationKind::Variable { is_externally_visible: false, is_defn: true }, "local"),
        decl(DeclarationKind::Other, "a_type"),
    ];
    let info = DependencyInfo::from_declarations("/p/a.c".to_string(), "/o/a.rs".to_string(), None, &decls);
    let names = |v: &Vec<DependencySymbol>| v.iter().map(|s| s.name.clone()).collect::<Vec<_>>();
    assert_eq!(names(&info.defined), vec!["main", "counter"]);
    assert_eq!(names(&info.undefined), vec!["puts", "errno_value"]);
    assert!(info.is_main());
}

#[test]
fn reserved_names_are_escaped() {
    let reserved = vec!["match".to_string(), "type".to_string()];
    assert_eq!(str_to_ident_checked(&Some("match".to_string()), &reserved), Some("r#match".to_string()));
    assert_eq!(str_to_ident_checked(&Some("matches".to_string()), &reserved), Some("matches".to_string()));
    assert_eq!(get_module_name("src/type.rs", &reserved, true, false), Some("r#type.rs".to_string()));
    assert_eq!(get_module_name("src/type.rs", &vec![], true, false), Some("type.rs".to_string()));
}

#[test]
fn preamble_only_for_emitted_binaries() {
    assert!(prepends_preamble(true, true));
    assert!(!prepends_preamble(true, false));
    assert!(!prepends_preamble(false, true));
    assert!(!prepends_preamble(false, false));
}
