use deps_builder::assembly::implied_emit_options;
use deps_builder::naming::{common_ancestor, crate_name, get_output_path, get_output_path_raw};

fn s(x: &str) -> String {
    x.to_string()
}

#[test]
fn output_path_without_output_dir() {
    assert_eq!(get_output_path("/src/foo-bar.c", &None, "/src", "/build", false, false), Some(s("/src/foo_bar.rs")));
    assert_eq!(
        get_output_path("/src/foo.c", &Some(s("/obj/x-y.o")), "/src", "/build", false, true),
        Some(s("/obj/x_y.rs"))
    );
}

#[test]
fn output_path_of_library_and_binary_units() {
    assert_eq!(
        get_output_path("/proj/src/sub/a-b.c", &None, "/proj/src", "/build", true, false),
        Some(s("/build/src/sub/a_b.rs"))
    );
    assert_eq!(
        get_output_path("/proj/src/sub/a-b.c", &None, "/proj/src", "/build", true, true),
        Some(s("/build/a_b.rs"))
    );
    assert_eq!(
        get_output_path_raw("/proj/src/sub/a-b.c", &None, "/proj/src", "/build", true),
        Some(s("/build/src/sub/a_b.rs"))
    );
}

#[test]
fn output_path_outside_the_ancestor() {
    assert_eq!(get_output_path("/x/a.c", &None, "/proj", "/build", true, false), None);
    assert_eq!(get_output_path("/", &None, "/", "/build", false, false), None);
}

#[test]
fn common_ancestor_of_inputs() {
    assert_eq!(common_ancestor(&vec![]), "");
    assert_eq!(common_ancestor(&vec![s("/p/a/x.c")]), "/p/a");
    assert_eq!(common_ancestor(&vec![s("/p/a/x.c"), s("/p/b/y.c")]), "/p");
    assert_eq!(common_ancestor(&vec![s("/p/a/x.c"), s("/p/a/z/y.c")]), "/p/a");
    assert_eq!(common_ancestor(&vec![s("/p/a/x.c"), s("/q/y.c"), s("/p/z.c")]), "/");
}

#[test]
fn crate_name_from_output_dir() {
    assert_eq!(crate_name(&Some(s("/work/my_crate"))), "my_crate");
    assert_eq!(crate_name(&Some(s("/"))), "c2rust_out");
    assert_eq!(crate_name(&None), "c2rust_out");
}

#[test]
fn emit_options_follow_their_implications() {
    let o = implied_emit_options(&vec![s("prog")], false, false, false, false);
    assert!(o.emit_build_files && o.emit_modules);
    let o = implied_emit_options(&vec![], false, false, false, true);
    assert!(!o.emit_build_files && o.emit_modules);
    let o = implied_emit_options(&vec![], false, false, false, false);
    assert!(!o.emit_build_files && !o.emit_modules);
    let o = implied_emit_options(&vec![], true, false, false, false);
    assert!(o.emit_build_files && o.emit_modules);
}
