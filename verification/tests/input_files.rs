use cbuild::cmd::{
    command_inputs, command_record, dep_file_path, dep_record, inputs_newer_than_outputs, should_run,
    InputFiles,
};

fn strings(v: &[&str]) -> Vec<String> {
    v.iter().map(|s| s.to_string()).collect()
}

#[test]
fn new_list_is_empty() {
    let f = InputFiles::new();
    assert!(f.as_paths().is_empty());
    assert!(f.as_path_refs().is_empty());
}

#[test]
fn folder_files_are_filtered_sorted_and_deduplicated() {
    let mut f = InputFiles::new();
    f.add_files_from_folder(&strings(&["d/b.c", "d/a.c", "d/a.h", "d/a.c", "d/c.C", "d/.c", "d/x.c.o"]), ".c");
    assert_eq!(f.as_paths(), &strings(&["d/a.c", "d/b.c"])[..]);
    f.add_files_from_folder(&strings(&["d/a.c", "e/0.c"]), "c");
    assert_eq!(f.as_paths(), &strings(&["d/a.c", "d/b.c", "e/0.c"])[..]);
    let refs: Vec<&String> = f.as_path_refs();
    assert_eq!(refs.len(), 3);
    assert_eq!(refs[2], "e/0.c");
}

#[test]
fn folder_files_sort_by_components() {
    let mut f = InputFiles::new();
    f.add_files_from_folder(&strings(&["d/a.c", "d/a/x.c"]), "..c");
    assert_eq!(f.as_paths(), &strings(&["d/a/x.c", "d/a.c"])[..]);
}

#[test]
fn empty_extension_matches_names_ending_in_a_dot() {
    let mut f = InputFiles::new();
    f.add_files_from_folder(&strings(&["d/a.", "d/b", "d/c.c"]), "");
    assert_eq!(f.as_paths(), &strings(&["d/a."])[..]);
}

#[test]
fn exclude_file_drops_every_file_of_that_name() {
    let mut f = InputFiles::new();
    f.add_files_from_folder(&strings(&["d/b.c", "e/b.c", "e/a.c", "f/bb.c"]), "c");
    f.exclude_file("b.c");
    assert_eq!(f.as_paths(), &strings(&["e/a.c", "f/bb.c"])[..]);
    f.exclude_file("missing.c");
    assert_eq!(f.as_paths(), &strings(&["e/a.c", "f/bb.c"])[..]);
}

#[test]
fn newer_inputs_mean_stale_outputs() {
    assert!(inputs_newer_than_outputs(&[5, 10], &[7, 12]));
    assert!(!inputs_newer_than_outputs(&[5], &[7]));
    assert!(!inputs_newer_than_outputs(&[7], &[7]));
    assert!(!inputs_newer_than_outputs(&[], &[1]));
    assert!(inputs_newer_than_outputs(&[], &[-1]));
    assert!(inputs_newer_than_outputs(&[3], &[]));
    assert!(inputs_newer_than_outputs(&[-5, -3], &[-4, 2]));
}

#[test]
fn command_record_lists_program_and_arguments() {
    assert_eq!(command_record("gcc", &strings(&["-E", "a.c"])), "gcc\n-E\na.c\n");
    assert_eq!(command_record("tool", &[]), "tool\n");
}

#[test]
fn command_inputs_end_with_the_program() {
    assert_eq!(command_inputs(&strings(&["a.c", "b.h"]), "gcc"), strings(&["a.c", "b.h", "gcc"]));
    assert_eq!(command_inputs(&[], "gcc"), strings(&["gcc"]));
}

#[test]
fn dep_record_text() {
    assert_eq!(
        dep_record(Some("gcc\n-E\n"), &strings(&["in.c"]), &strings(&["out.i"])),
        "--args--\ngcc\n-E\n--inputs--\nin.c\n--outputs--\nout.i\n"
    );
    assert_eq!(
        dep_record(Some("x"), &strings(&["a", "b"]), &strings(&["o"])),
        "--args--\nx\n--inputs--\na\nb\n--outputs--\no\n"
    );
    assert_eq!(dep_record(Some(""), &[], &[]), "--args--\n--inputs--\n--outputs--\n");
    assert_eq!(dep_record(None, &[], &strings(&["o"])), "--args--\n--inputs--\n--outputs--\no\n");
}

#[test]
fn run_is_repeated_only_when_needed() {
    let rec = dep_record(Some("gcc\n"), &strings(&["a.c"]), &strings(&["a.o"]));
    assert!(!should_run(Some(rec.as_str()), &rec, false, false));
    assert!(should_run(None, &rec, false, false));
    assert!(should_run(Some("--args--\nclang\n"), &rec, false, false));
    assert!(should_run(Some(rec.as_str()), &rec, true, false));
    assert!(should_run(Some(rec.as_str()), &rec, false, true));
}

#[test]
fn default_list_is_empty() {
    let f = InputFiles::default();
    assert!(f.as_paths().is_empty());
}

#[test]
fn excluding_a_name_twice_changes_nothing_more() {
    let mut f = InputFiles::new();
    f.add_files_from_folder(&strings(&["a/x.c", "a/y.c", "b/x.c"]), "c");
    f.exclude_file("x.c");
    let once: Vec<String> = f.as_paths().to_vec();
    f.exclude_file("x.c");
    assert_eq!(f.as_paths(), &once[..]);
    assert_eq!(once, strings(&["a/y.c"]));
}

#[test]
fn dep_file_sits_beside_the_first_output() {
    assert_eq!(dep_file_path("/out/a.upydef"), "/out/a.upydef.dep");
    assert_eq!(dep_file_path(""), ".dep");
}

#[test]
fn unchanged_run_is_skipped() {
    let inputs = strings(&["a.c", "gcc"]);
    let outputs = strings(&["a.o"]);
    let rec = dep_record(Some("gcc\n-c\n"), &inputs, &outputs);
    let again = dep_record(Some("gcc\n-c\n"), &inputs, &outputs);
    let stale = inputs_newer_than_outputs(&[3, 5], &[5, 9]);
    assert!(!stale);
    assert!(!should_run(Some(rec.as_str()), &again, false, stale));
}
