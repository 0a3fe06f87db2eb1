use cbuild::compile::make_path_relative_to_manifest;
use cbuild::order::{path_precedes, paths_equal};
use cbuild::paths::{external_object_subpath, is_external_source_path, join_paths_lexically};

#[test]
fn join_pops_parent_components() {
    assert_eq!(join_paths_lexically("/a/b", "c/../d"), "/a/b/d");
    assert_eq!(join_paths_lexically("a/b", "../c"), "a/c");
}

#[test]
fn join_ignores_parent_with_nothing_to_pop() {
    assert_eq!(join_paths_lexically("/a", "../../x"), "/x");
    assert_eq!(join_paths_lexically("a", "../.."), "");
}

#[test]
fn join_drops_current_dirs_and_repeated_separators() {
    assert_eq!(join_paths_lexically("./a//b/./", "c"), "a/b/c");
    assert_eq!(join_paths_lexically("/a/", "b/"), "/a/b");
}

#[test]
fn join_with_absolute_relative_replaces_base() {
    assert_eq!(join_paths_lexically("/base", "/other/./x"), "/other/x");
    assert_eq!(join_paths_lexically("", "x/y"), "x/y");
}

#[test]
fn join_result_is_already_normal() {
    let n = join_paths_lexically("/a/./b", "../c//d/");
    assert_eq!(n, "/a/c/d");
    assert_eq!(join_paths_lexically("", &n), n);
    let r = join_paths_lexically("x/./y", "../../../z/");
    assert_eq!(r, "z");
    assert_eq!(join_paths_lexically("", &r), r);
    assert_eq!(join_paths_lexically(&n, "."), n);
    assert_eq!(join_paths_lexically(&r, "."), r);
    assert_eq!(join_paths_lexically("/", "."), "/");
    assert_eq!(join_paths_lexically("", "."), "");
    assert!(!n.split('/').any(|p| p == "." || p == ".."));
}

#[test]
fn external_sources_are_absolute_or_start_with_parent() {
    assert!(is_external_source_path("/abs/x.c"));
    assert!(is_external_source_path("../x.c"));
    assert!(!is_external_source_path("./../x.c"));
    assert!(!is_external_source_path("a/../b.c"));
    assert!(!is_external_source_path("..x/y.c"));
    assert!(!is_external_source_path("src/a.c"));
}

#[test]
fn external_subpath_keeps_normal_names() {
    assert_eq!(external_object_subpath("/home/u/lib/x.c"), "__external/home/u/lib/x.c");
    assert_eq!(external_object_subpath("../lib/./x.c"), "__external/lib/x.c");
}

#[test]
fn external_subpath_never_climbs_out() {
    let p = external_object_subpath("/../a/./b//c.c");
    assert_eq!(p, "__external/a/b/c.c");
    assert!(!p.split('/').any(|piece| piece == ".." || piece == "." || piece.is_empty()));
    assert!(!p.starts_with('/'));
}

#[test]
fn relative_path_inside_manifest() {
    assert_eq!(make_path_relative_to_manifest("src/a.c", "/crate"), "src/a.c");
    assert_eq!(make_path_relative_to_manifest("/crate/b.c", "/crate"), "b.c");
}

#[test]
fn relative_path_outside_manifest() {
    assert_eq!(make_path_relative_to_manifest("../other/x.c", "/crate/sub"), "../other/x.c");
    assert_eq!(make_path_relative_to_manifest("/abs/c.c", "/crate"), "../abs/c.c");
}

#[test]
fn absolute_path_is_diffed_as_written() {
    assert_eq!(make_path_relative_to_manifest("/crate/src/../b.c", "/crate"), "src/../b.c");
}

#[test]
fn relative_path_of_manifest_itself_is_dot() {
    assert_eq!(make_path_relative_to_manifest("", "/crate"), ".");
    assert_eq!(make_path_relative_to_manifest(".", "/crate"), ".");
    assert_eq!(make_path_relative_to_manifest("/crate", "/crate"), ".");
}

#[test]
fn relative_manifest_dirs() {
    assert_eq!(make_path_relative_to_manifest("x.c", "rel"), "x.c");
    assert_eq!(make_path_relative_to_manifest("/abs/x.c", "rel"), "/abs/x.c");
}

#[test]
fn path_order_goes_by_components() {
    assert!(path_precedes("d/a/x.c", "d/a.c"));
    assert!(!path_precedes("d/a.c", "d/a/x.c"));
    assert!(path_precedes("a", "b"));
    assert!(!path_precedes("a", "a"));
    assert!(path_precedes("/z", "a"));
}

#[test]
fn paths_equal_ignores_spelling() {
    assert!(paths_equal("inc", "inc/"));
    assert!(paths_equal("a//b", "a/./b"));
    assert!(!paths_equal("a/b", "a/../a/b"));
    assert!(!paths_equal("/a", "a"));
}
