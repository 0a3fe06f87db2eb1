use cbuild::compile::{
    compile_command_args, compile_failure_details, dep_metadata_var, determine_parallel_jobs,
    export_c_compiler_includes_metadata, library_name, metadata_var_of, relative_or_dot, CLibrary,
    CompileUnit,
};

fn lib() -> CLibrary {
    CLibrary::new("/crate")
}

#[test]
fn sources_are_recorded_relative_to_the_crate() {
    let mut l = lib();
    l.add_source("src/a.c");
    l.add_source("/crate/b.c");
    l.add_source("/abs/c.c");
    l.add_sources(&["d.c", "./e.c"]);
    let got: Vec<&str> = l.get_sources().iter().map(|s| s.as_str()).collect();
    assert_eq!(got, vec!["src/a.c", "b.c", "../abs/c.c", "d.c", "e.c"]);
}

#[test]
fn sources_from_folder_are_joined_to_the_prefix() {
    let mut l = lib();
    l.add_sources_from_folder("vendor/lib", &["x.c", "sub/y.c", "/abs/z.c"]);
    let got: Vec<&str> = l.get_sources().iter().map(|s| s.as_str()).collect();
    assert_eq!(got, vec!["vendor/lib/x.c", "vendor/lib/sub/y.c", "../abs/z.c"]);
}

#[test]
fn the_same_source_may_be_added_twice() {
    let mut l = lib();
    l.add_source("a.c");
    l.add_source("a.c");
    assert_eq!(l.get_sources().len(), 2);
}

#[test]
fn public_include_added_twice_is_kept_once() {
    let mut l = lib();
    l.add_public_include("inc");
    l.add_public_include("inc/");
    l.add_public_include("/crate/inc");
    l.add_public_includes(&["inc", "other"]);
    assert_eq!(
        l.export_public_c_includes_metadata(),
        "cargo::metadata=public_c_includes=/crate/inc;/crate/other"
    );
}

#[test]
fn public_includes_are_exported_absolute() {
    let mut l = lib();
    l.add_public_include("inc");
    l.add_public_include("/abs/inc");
    l.add_public_include("../up");
    assert_eq!(
        l.export_public_c_includes_metadata(),
        "cargo::metadata=public_c_includes=/crate/inc;/abs/inc;/up"
    );
}

#[test]
fn flags_are_kept_once() {
    let mut l = lib();
    l.add_public_flag("-O2");
    l.add_public_flags(&["-g", "-O2", "-Wall"]);
    assert_eq!(l.export_public_c_flags_metadata(), "cargo::metadata=public_c_flags=-O2;-g;-Wall");
}

#[test]
fn defines_are_kept_in_order_with_repeats() {
    let mut l = lib();
    l.add_public_define("A", Some("1"));
    l.add_public_defines(&[("B", None), ("A", Some("2"))]);
    assert_eq!(l.export_public_c_defines_metadata(), "cargo::metadata=public_c_defines=A=1;B;A=2");
}

#[test]
fn empty_exports() {
    let l = lib();
    assert_eq!(l.export_public_c_flags_metadata(), "cargo::metadata=public_c_flags=");
    assert_eq!(l.export_public_c_defines_metadata(), "cargo::metadata=public_c_defines=");
    assert_eq!(l.export_public_c_includes_metadata(), "cargo::metadata=public_c_includes=");
    assert_eq!(l.export_public_c_libs_metadata("me"), "cargo::metadata=public_c_libs=me");
    assert!(l.export_public_link_libs().is_empty());
}

#[test]
fn libs_export_adds_this_library_once() {
    let mut l = lib();
    l.add_public_lib("a");
    l.add_public_lib("b");
    l.add_public_lib("a");
    assert_eq!(l.export_public_c_libs_metadata("me"), "cargo::metadata=public_c_libs=a;b;me");
    assert_eq!(l.export_public_c_libs_metadata("b"), "cargo::metadata=public_c_libs=a;b");
    assert_eq!(
        l.export_public_link_libs(),
        vec!["cargo:rustc-link-lib=static=a", "cargo:rustc-link-lib=static=b"]
    );
}

#[test]
fn use_lib_imports_what_another_crate_exports() {
    let mut l = lib();
    l.use_lib("dep", "/x/inc;;/y", "A=1;B;C=x=y", "-O2;-O2;-g", "foo;dep");
    assert_eq!(l.export_public_c_includes_metadata(), "cargo::metadata=public_c_includes=/x/inc;/y");
    assert_eq!(
        l.export_public_c_defines_metadata(),
        "cargo::metadata=public_c_defines=A=1;B;C=x=y"
    );
    assert_eq!(l.export_public_c_flags_metadata(), "cargo::metadata=public_c_flags=-O2;-g");
    assert_eq!(l.export_public_c_libs_metadata("mine"), "cargo::metadata=public_c_libs=dep;foo;mine");
}

#[test]
fn use_lib_with_nothing_exported_adds_only_the_crate() {
    let mut l = lib();
    l.use_lib("dep", "", "", "", "");
    assert_eq!(l.export_public_link_libs(), vec!["cargo:rustc-link-lib=static=dep"]);
    assert_eq!(l.export_public_c_flags_metadata(), "cargo::metadata=public_c_flags=");
}

#[test]
fn exported_flags_defines_and_libs_read_back() {
    let mut a = CLibrary::new("/a");
    a.add_public_flags(&["-O2", "-mthumb"]);
    a.add_public_defines(&[("X", Some("1")), ("Y", None)]);
    a.add_public_lib("m");
    let flags = a.export_public_c_flags_metadata();
    let defines = a.export_public_c_defines_metadata();
    let libs = a.export_public_c_libs_metadata("a");
    let defines = defines.strip_prefix("cargo::metadata=public_c_defines=").unwrap();
    let flags = flags.strip_prefix("cargo::metadata=public_c_flags=").unwrap();
    let libs = libs.strip_prefix("cargo::metadata=public_c_libs=").unwrap();
    let mut b = CLibrary::new("/b");
    b.use_lib("z", "", defines, flags, libs);
    assert_eq!(b.export_public_c_flags_metadata(), "cargo::metadata=public_c_flags=-O2;-mthumb");
    assert_eq!(b.export_public_c_defines_metadata(), "cargo::metadata=public_c_defines=X=1;Y");
    assert_eq!(b.export_public_c_libs_metadata("b"), "cargo::metadata=public_c_libs=z;m;a;b");
}

#[test]
fn dep_metadata_variable_names() {
    assert_eq!(dep_metadata_var("foo", "INCLUDES"), "DEP_FOO_PUBLIC_C_INCLUDES");
    assert_eq!(dep_metadata_var("trezor-crypto", "FLAGS"), "DEP_TREZOR-CRYPTO_PUBLIC_C_FLAGS");
}

#[test]
fn compiler_search_list_is_exported() {
    let out = "ignoring nonexistent directory \"/usr/local/include/x86_64-linux-gnu\"\n\
#include \"...\" search starts here:\n\
#include <...> search starts here:\n \
/usr/lib/gcc/x86_64-linux-gnu/12/include\n \
/usr/local/include\n \
/usr/include\n\
End of search list.\n \
/not/listed\n";
    assert_eq!(
        export_c_compiler_includes_metadata(out),
        "cargo::metadata=c_compiler_includes=/usr/lib/gcc/x86_64-linux-gnu/12/include;/usr/local/include;/usr/include"
    );
}

#[test]
fn compiler_search_list_without_markers() {
    assert_eq!(
        export_c_compiler_includes_metadata(" /a\n /b\n"),
        "cargo::metadata=c_compiler_includes="
    );
    assert_eq!(
        export_c_compiler_includes_metadata("search starts here:\r\n /a \r\n"),
        "cargo::metadata=c_compiler_includes=/a"
    );
}

#[test]
fn build_metadata_lines_in_order() {
    let mut l = lib();
    l.add_public_lib("dep");
    l.add_public_include("inc");
    l.add_public_define("D", None);
    l.add_public_flag("-g");
    let lines = l.export_build_metadata("me", "search starts here:\n /sys\nEnd of search list.\n");
    assert_eq!(
        lines,
        vec![
            "cargo:rustc-link-lib=static=dep",
            "cargo::metadata=public_c_libs=dep;me",
            "cargo::metadata=public_c_includes=/crate/inc",
            "cargo::metadata=public_c_defines=D",
            "cargo::metadata=public_c_flags=-g",
            "cargo::metadata=c_compiler_includes=/sys",
        ]
    );
}

#[test]
fn configured_build_holds_flags_includes_and_defines() {
    let mut l = lib();
    l.add_flag("-Wall");
    l.add_flags(&["-O2", "-Wall"]);
    l.add_public_flag("-mthumb");
    l.add_include("priv");
    l.add_include("/abs/priv");
    l.add_public_include("pub");
    l.add_define("P", Some("1"));
    l.add_defines(&[("Q", None)]);
    l.add_public_define("R", Some("x"));
    let b = l.create_configured_build();
    let text = format!("{:?}", b);
    assert!(text.contains("include_directories: [\"pub\", \"priv\", \"../abs/priv\"]"), "{text}");
    assert!(
        text.contains("definitions: [(\"R\", Some(\"x\")), (\"P\", Some(\"1\")), (\"Q\", None)]"),
        "{text}"
    );
    assert!(
        text.contains("flags: [Always(\"-Wall\"), Always(\"-O2\"), Always(\"-mthumb\")]"),
        "{text}"
    );
    assert!(text.contains("warnings: Some(false)"), "{text}");
    assert!(text.contains("extra_warnings: Some(false)"), "{text}");
    assert!(text.contains("cpp: false"), "{text}");
    assert!(text.contains("objects: []"), "{text}");
}

#[test]
fn compile_units_place_objects_below_out_dir() {
    let mut l = lib();
    l.add_source("src/a.c");
    l.add_source("/abs/c.c");
    l.add_source("../ext/./b.S");
    let units = l.compile_units("/out");
    assert_eq!(units.len(), 3);
    assert_eq!(units[0].index, 0);
    assert_eq!(units[0].src_path, "/crate/src/a.c");
    assert_eq!(units[0].obj_path, "/out/src/a.o");
    assert_eq!(units[0].dep_path, "/out/src/a.d");
    assert_eq!(units[1].index, 1);
    assert_eq!(units[1].src_path, "/abs/c.c");
    assert_eq!(units[1].obj_path, "/out/__external/abs/c.o");
    assert_eq!(units[1].dep_path, "/out/__external/abs/c.d");
    assert_eq!(units[2].src_path, "/ext/b.S");
    assert_eq!(units[2].obj_path, "/out/__external/ext/b.o");
}

#[test]
fn compile_command_arguments() {
    let unit = CompileUnit {
        index: 3,
        src_path: "/crate/a.c".to_string(),
        obj_path: "/out/a.o".to_string(),
        dep_path: "/out/a.d".to_string(),
    };
    assert_eq!(
        compile_command_args(&unit),
        vec!["-c", "-MMD", "-MF", "/out/a.d", "-o", "/out/a.o", "/crate/a.c"]
    );
}

#[test]
fn preprocess_file_run() {
    let l = lib();
    let run = l.preprocess_file("in.h", "out.i");
    assert_eq!(run.args, vec!["-E", "-DQSTR_PROCESSING", "in.h", "-o", "out.i"]);
    assert_eq!(run.inputs, vec!["in.h"]);
    assert_eq!(run.outputs, vec!["out.i"]);
}

#[test]
fn upydef_runs_per_source() {
    let mut l = lib();
    l.add_source("mod/a.c");
    l.add_source("/abs/b.c");
    let runs = l.upydef_runs("/out");
    assert_eq!(runs.len(), 2);
    assert_eq!(
        runs[0].args,
        vec!["-E", "-DNO_QSTR", "-DN_X64", "-DN_X86", "-DN_THUMB", "/crate/mod/a.c", "-o", "/out/mod/a.upydef"]
    );
    assert_eq!(runs[0].inputs, vec!["/crate/mod/a.c"]);
    assert_eq!(runs[0].outputs, vec!["/out/mod/a.upydef"]);
    assert_eq!(runs[1].outputs, vec!["/out/__external/abs/b.upydef"]);
}

#[test]
fn failure_details_prefer_stderr() {
    assert_eq!(compile_failure_details("  err \n", "out"), "err");
    assert_eq!(compile_failure_details(" \t\n", " out "), "out");
    assert_eq!(compile_failure_details("", ""), "no compiler output");
}

#[test]
fn parallel_jobs_choice() {
    assert_eq!(determine_parallel_jobs(Some("4"), None, Some(8), 10), 4);
    assert_eq!(determine_parallel_jobs(Some("0"), Some("3"), Some(8), 10), 3);
    assert_eq!(determine_parallel_jobs(Some("x"), Some("-2"), None, 10), 1);
    assert_eq!(determine_parallel_jobs(None, None, Some(16), 5), 5);
    assert_eq!(determine_parallel_jobs(Some("+6"), None, Some(16), 0), 1);
    assert_eq!(determine_parallel_jobs(Some("+6"), None, None, 9), 6);
    assert_eq!(determine_parallel_jobs(Some("99999999999999999999999"), Some("2"), None, 9), 2);
}

#[test]
fn library_name_defaults() {
    assert_eq!(library_name(Some("trezor_lib")), "trezor_lib");
    assert_eq!(library_name(None), "native_part");
}

#[test]
fn metadata_variable_from_upper_case_name() {
    assert_eq!(metadata_var_of("X", "LIBS"), "DEP_X_PUBLIC_C_LIBS");
    assert_eq!(metadata_var_of("", ""), "DEP__PUBLIC_C_");
}

#[test]
fn relative_or_dot_choice() {
    assert_eq!(relative_or_dot("/a/b".to_string(), Some("b".to_string())), "b");
    assert_eq!(relative_or_dot("/a/b".to_string(), None), "/a/b");
    assert_eq!(relative_or_dot("/a".to_string(), Some(String::new())), ".");
    assert_eq!(relative_or_dot(String::new(), None), ".");
}

#[test]
fn libraries_can_be_cloned() {
    let mut l = lib();
    l.add_source("a.c");
    let c = l.clone();
    assert_eq!(c.get_sources().len(), 1);
}
