use cbuild::compile::{build_outputs, sort_by_index, CompiledUnit};
use cbuild::tool_output::dep_paths;

fn unit(index: usize, obj: &str, dep: Option<&str>) -> CompiledUnit {
    CompiledUnit { index, obj_path: obj.to_string(), dep_content: dep.map(|d| d.to_string()) }
}

#[test]
fn dependency_file_paths() {
    let content = "obj.o: src/a.c \\\n  inc/a.h inc/b.h\n";
    assert_eq!(dep_paths(content), vec!["src/a.c", "inc/a.h", "inc/b.h"]);
}

#[test]
fn dependency_paths_after_the_last_colon() {
    assert_eq!(dep_paths("a.o: b.c c.h:\n"), Vec::<String>::new());
    assert_eq!(dep_paths("x: y:z w\r\n\n"), vec!["z", "w"]);
    assert_eq!(dep_paths(""), Vec::<String>::new());
}

#[test]
fn results_sort_by_index() {
    let sorted = sort_by_index(vec![
        unit(2, "c.o", None),
        unit(0, "a.o", Some("a.o: a.c\n")),
        unit(1, "b.o", Some("b.o: b.c b.h\n")),
    ]);
    let idx: Vec<usize> = sorted.iter().map(|u| u.index).collect();
    assert_eq!(idx, vec![0, 1, 2]);
    let out = build_outputs(&sorted);
    assert_eq!(out.objects, vec!["a.o", "b.o", "c.o"]);
    assert_eq!(out.rerun_paths, vec!["a.c", "b.c", "b.h"]);
}

#[test]
fn sorting_nothing_gives_nothing() {
    let sorted = sort_by_index(Vec::new());
    assert!(sorted.is_empty());
    let out = build_outputs(&sorted);
    assert!(out.objects.is_empty());
    assert!(out.rerun_paths.is_empty());
}

#[test]
fn equal_indices_keep_their_order() {
    let sorted = sort_by_index(vec![unit(1, "x.o", None), unit(0, "z.o", None), unit(1, "y.o", None)]);
    let objs: Vec<&str> = sorted.iter().map(|u| u.obj_path.as_str()).collect();
    assert_eq!(objs, vec!["z.o", "x.o", "y.o"]);
}
