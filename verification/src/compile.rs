//! The description of a C library: its sources, flags, definitions, include
//! directories and the libraries it exports, and what is derived from it for
//! the compiler and for crates that use it.
use vstd::prelude::*;
use crate::order::{paths_equal, same_path};
use crate::paths::{
    external_object_subpath, external_subpath, is_absolute, is_external, is_external_source_path,
    join_chars, join_paths_lexically, joined_lexically, path_join,
};
use crate::text::{
    chars_of, contains_string, join_strings, join_with, nonempty, nonempty_pieces, opt_chars, parse_define, split_define,
    parse_usize, parsed_usize, split_on, string_of, strs, text_lines, trim_str, trimmed,
};
use crate::trusted::{
    cc_define, cc_defines, cc_extra_warnings, cc_flag, cc_flags, cc_include, cc_includes, cc_new,
    cc_rest_fresh, cc_set_warnings, cc_warnings, diff_paths, opt_str_chars, opt_string_chars, path_difference, path_with_extension,
    to_uppercase, uppercase, with_extension,
};
use crate::tool_output::{dep_file_paths, dep_paths, listed_dirs, listed_dirs_of};

verus! {

// ------------------------------------------------------------ paths in use

/// `path` made absolute: relative paths are taken from `manifest`.
pub open spec fn anchored(path: Seq<char>, manifest: Seq<char>) -> Seq<char> {
    if is_absolute(path) {
        path
    } else {
        joined_lexically(manifest, path)
    }
}

/// The relative path `diff` where there is one, else `abs`; an empty result
/// becomes `.`.
pub open spec fn relative_or_dot_of(abs: Seq<char>, diff: Option<Seq<char>>) -> Seq<char> {
    let rel = match diff {
        Some(r) => r,
        None => abs,
    };
    if rel.len() == 0 {
        seq!['.']
    } else {
        rel
    }
}

/// `path` as the library records it: relative to `manifest` where that can
/// be computed, else absolute.
pub open spec fn manifest_relative(path: Seq<char>, manifest: Seq<char>) -> Seq<char> {
    let abs = anchored(path, manifest);
    relative_or_dot_of(abs, path_difference(abs, manifest))
}

/// The relative path `diff` where there is one, else `abs`; an empty path
/// becomes `.`.
pub fn relative_or_dot(abs: String, diff: Option<String>) -> (r: String)
    ensures
        r@ == relative_or_dot_of(abs@, opt_string_chars(diff)),
{
    let rel = match diff {
        Some(d) => d,
        None => abs,
    };
    if rel.as_str().is_empty() {
        let mut v: Vec<char> = Vec::new();
        v.push('.');
        assert(v@ =~= seq!['.']);
        string_of(&v)
    } else {
        rel
    }
}

/// `path` relative to the crate directory `manifest_dir` where a relative
/// path can be computed, else absolute. Relative inputs are first taken as
/// `manifest_dir/<path>` (lexically). An empty result becomes `.`.
pub fn make_path_relative_to_manifest(path: &str, manifest_dir: &str) -> (r: String)
    ensures
        r@ == manifest_relative(path@, manifest_dir@),
        is_absolute(path@) && !is_absolute(manifest_dir@) ==> r@ == path@,
{
    let p = chars_of(path);
    let abs = if crate::paths::chars_absolute(&p) {
        string_of(&p)
    } else {
        join_paths_lexically(manifest_dir, path)
    };
    let diff = diff_paths(abs.as_str(), manifest_dir);
    relative_or_dot(abs, diff)
}

// ------------------------------------------------------------- list models

/// Whether `list` holds a path that names the same path as `p`.
pub open spec fn has_path(list: Seq<Seq<char>>, p: Seq<char>) -> bool {
    exists|i: int| 0 <= i < list.len() && same_path(#[trigger] list[i], p)
}

/// `list` with `p` appended, unless it already holds the same path.
pub open spec fn with_path(list: Seq<Seq<char>>, p: Seq<char>) -> Seq<Seq<char>> {
    if has_path(list, p) {
        list
    } else {
        list.push(p)
    }
}

/// `list` with each of `ps` added in turn by `with_path`.
pub open spec fn with_paths(list: Seq<Seq<char>>, ps: Seq<Seq<char>>) -> Seq<Seq<char>>
    decreases ps.len(),
{
    if ps.len() == 0 {
        list
    } else {
        with_path(with_paths(list, ps.drop_last()), ps.last())
    }
}

/// `list` with `x` appended, unless it already holds `x`.
pub open spec fn with_string(list: Seq<Seq<char>>, x: Seq<char>) -> Seq<Seq<char>> {
    if list.contains(x) {
        list
    } else {
        list.push(x)
    }
}

/// `list` with each of `xs` added in turn by `with_string`.
pub open spec fn with_strings(list: Seq<Seq<char>>, xs: Seq<Seq<char>>) -> Seq<Seq<char>>
    decreases xs.len(),
{
    if xs.len() == 0 {
        list
    } else {
        with_string(with_strings(list, xs.drop_last()), xs.last())
    }
}

/// No two entries of `list` name the same path.
pub open spec fn distinct_paths(list: Seq<Seq<char>>) -> bool {
    forall|i: int, j: int|
        0 <= i < list.len() && 0 <= j < list.len() && i != j ==> !same_path(
            #[trigger] list[i],
            #[trigger] list[j],
        )
}

/// No two entries of `list` are equal.
pub open spec fn distinct_strings(list: Seq<Seq<char>>) -> bool {
    forall|i: int, j: int|
        0 <= i < list.len() && 0 <= j < list.len() && i != j ==> #[trigger] list[i]
            != #[trigger] list[j]
}

/// The characters of each of `v`.
pub open spec fn slice_strs(v: Seq<&str>) -> Seq<Seq<char>> {
    v.map_values(|x: &str| x@)
}

/// Each of `ps` as the library records it, relative to `manifest`.
pub open spec fn all_manifest_relative(ps: Seq<Seq<char>>, manifest: Seq<char>) -> Seq<Seq<char>> {
    ps.map_values(|p: Seq<char>| manifest_relative(p, manifest))
}

/// A definition as text: its name, and its value if it has one.
pub open spec fn define_view(d: (String, Option<String>)) -> (Seq<char>, Option<Seq<char>>) {
    (d.0@, opt_string_chars(d.1))
}

/// The definitions held by `v`.
pub open spec fn define_views(v: Seq<(String, Option<String>)>) -> Seq<(Seq<char>, Option<Seq<char>>)> {
    v.map_values(|d: (String, Option<String>)| define_view(d))
}

/// The definitions given as slices.
pub open spec fn slice_defines(v: Seq<(&str, Option<&str>)>) -> Seq<(Seq<char>, Option<Seq<char>>)> {
    v.map_values(|d: (&str, Option<&str>)| (d.0@, opt_str_chars(d.1)))
}

/// Whether `items` holds a path that names the same path as `p`.
pub fn contains_path(items: &Vec<String>, p: &str) -> (r: bool)
    ensures
        r == has_path(strs(items@), p@),
{
    let mut i: usize = 0;
    while i < items.len()
        invariant
            0 <= i <= items.len(),
            forall|j: int| 0 <= j < i ==> !same_path(#[trigger] strs(items@)[j], p@),
        decreases items.len() - i,
    {
        if paths_equal(items[i].as_str(), p) {
            assert(same_path(strs(items@)[i as int], p@));
            return true;
        }
        i = i + 1;
    }
    false
}

/// Adds `p` to `items` unless it already holds the same path.
fn push_path_once(items: &mut Vec<String>, p: String)
    requires
        distinct_paths(strs(old(items)@)),
    ensures
        strs(final(items)@) == with_path(strs(old(items)@), p@),
        distinct_paths(strs(final(items)@)),
{
    if !contains_path(items, p.as_str()) {
        let ghost before = strs(items@);
        items.push(p);
        assert(strs(items@) =~= before.push(p@));
        assert forall|i: int, j: int|
            0 <= i < strs(items@).len() && 0 <= j < strs(items@).len() && i != j implies !same_path(
            #[trigger] strs(items@)[i],
            #[trigger] strs(items@)[j],
        ) by {
            if i < before.len() && j < before.len() {
                assert(strs(items@)[i] == before[i]);
                assert(strs(items@)[j] == before[j]);
            } else if i == before.len() {
                assert(strs(items@)[j] == before[j]);
                if same_path(p@, before[j]) {
                    assert(same_path(before[j], p@));
                }
            } else {
                assert(strs(items@)[i] == before[i]);
            }
        }
    }
}

/// Adds `x` to `items` unless it already holds it.
fn push_string_once(items: &mut Vec<String>, x: String)
    requires
        distinct_strings(strs(old(items)@)),
    ensures
        strs(final(items)@) == with_string(strs(old(items)@), x@),
        distinct_strings(strs(final(items)@)),
{
    if !contains_string(items, &x) {
        let ghost before = strs(items@);
        items.push(x);
        assert(strs(items@) =~= before.push(x@));
        assert forall|i: int, j: int|
            0 <= i < strs(items@).len() && 0 <= j < strs(items@).len() && i != j implies #[trigger] strs(items@)[i]
            != #[trigger] strs(items@)[j] by {
            if i < before.len() && j < before.len() {
                assert(strs(items@)[i] == before[i]);
                assert(strs(items@)[j] == before[j]);
            } else if i == before.len() {
                assert(strs(items@)[j] == before[j]);
            } else {
                assert(strs(items@)[i] == before[i]);
            }
        }
    }
}

/// A string holding `s`.
fn owned(s: &str) -> (r: String)
    ensures
        r@ == s@,
{
    s.to_owned()
}

/// A definition pair holding `name` and `value`.
fn owned_define(name: &str, value: Option<&str>) -> (r: (String, Option<String>))
    ensures
        define_view(r) == (name@, opt_str_chars(value)),
{
    let v = match value {
        Some(x) => Some(owned(x)),
        None => None,
    };
    (owned(name), v)
}

/// A definition as it is written in exported metadata: `name=value`, or
/// `name` when it has no value.
pub open spec fn define_text(d: (Seq<char>, Option<Seq<char>>)) -> Seq<char> {
    match d.1 {
        Some(v) => d.0 + seq!['='] + v,
        None => d.0,
    }
}

/// A copy of the strings in `v`.
fn copy_strings(v: &Vec<String>) -> (r: Vec<String>)
    ensures
        strs(r@) == strs(v@),
{
    let mut r: Vec<String> = Vec::new();
    let mut i: usize = 0;
    while i < v.len()
        invariant
            0 <= i <= v.len(),
            strs(r@) == strs(v@).take(i as int),
        decreases v.len() - i,
    {
        let ghost before = strs(r@);
        r.push(v[i].clone());
        assert(strs(r@) =~= before.push(v@[i as int]@));
        i = i + 1;
        assert(strs(r@) =~= strs(v@).take(i as int));
    }
    assert(strs(v@).take(v.len() as int) =~= strs(v@));
    r
}

/// A copy of the definitions in `v`.
fn copy_defines(v: &Vec<(String, Option<String>)>) -> (r: Vec<(String, Option<String>)>)
    ensures
        define_views(r@) == define_views(v@),
{
    let mut r: Vec<(String, Option<String>)> = Vec::new();
    let mut i: usize = 0;
    while i < v.len()
        invariant
            0 <= i <= v.len(),
            define_views(r@) == define_views(v@).take(i as int),
        decreases v.len() - i,
    {
        let d = &v[i];
        let value = match &d.1 {
            Some(x) => Some(x.as_str()),
            None => None,
        };
        let c = owned_define(d.0.as_str(), value);
        let ghost before = define_views(r@);
        r.push(c);
        assert(define_views(r@) =~= before.push(define_view(v@[i as int])));
        i = i + 1;
        assert(define_views(r@) =~= define_views(v@).take(i as int));
    }
    assert(define_views(v@).take(v.len() as int) =~= define_views(v@));
    r
}

/// `prefix` followed by `items` joined with `;`.
fn prefixed_list(prefix: &str, items: &Vec<String>) -> (r: String)
    ensures
        r@ == prefix@ + join_with(strs(items@), ';'),
{
    let mut r = owned(prefix);
    let joined = join_strings(items, ';');
    r.append(joined.as_str());
    r
}

/// The name of the variable through which cargo hands a dependent crate
/// what `crate_name` exports of kind `kind`: `DEP_<CRATE>_PUBLIC_C_<KIND>`,
/// the crate's name in upper case.
pub fn dep_metadata_var(crate_name: &str, kind: &str) -> (r: String)
    ensures
        r@ == "DEP_"@ + uppercase(crate_name@) + "_PUBLIC_C_"@ + kind@,
{
    let up = to_uppercase(crate_name);
    metadata_var_of(up.as_str(), kind)
}

/// The variable name `DEP_<NAME>_PUBLIC_C_<KIND>` for a crate whose name,
/// in upper case, is `upper_name`.
pub fn metadata_var_of(upper_name: &str, kind: &str) -> (r: String)
    ensures
        r@ == "DEP_"@ + upper_name@ + "_PUBLIC_C_"@ + kind@,
{
    let mut r = owned("DEP_");
    r.append(upper_name);
    r.append("_PUBLIC_C_");
    r.append(kind);
    r
}

/// The directories listed in a C compiler's verbose preprocessor output
/// (`-E -Wp,-v`) between `search starts here:` and `End of search list.`,
/// as the exported line `cargo::metadata=c_compiler_includes=...`.
pub fn export_c_compiler_includes_metadata(compiler_output: &str) -> (r: String)
    ensures
        r@ == "cargo::metadata=c_compiler_includes="@ + join_with(
            listed_dirs(compiler_output@, "search starts here:"@, "End of search list."@),
            ';',
        ),
{
    let dirs = listed_dirs_of(compiler_output, "search starts here:", "End of search list.");
    prefixed_list("cargo::metadata=c_compiler_includes=", &dirs)
}

/// Where, below the output directory, the object of the source `src` goes
/// (before its extension is set): the source's own relative path, or for a
/// source outside the crate, `__external/` and its absolute path's names.
pub open spec fn object_place(src: Seq<char>, manifest: Seq<char>) -> Seq<char> {
    if is_external(src) {
        external_subpath(anchored(src, manifest))
    } else {
        src
    }
}

/// The object file of the source `src`.
pub open spec fn object_path(src: Seq<char>, manifest: Seq<char>, out_dir: Seq<char>) -> Seq<char> {
    path_join(out_dir, path_with_extension(object_place(src, manifest), "o"@))
}

/// One source to compile: its place in the library's list, its absolute
/// path, and the object and dependency files it produces.
pub struct CompileUnit {
    pub index: usize,
    pub src_path: String,
    pub obj_path: String,
    pub dep_path: String,
}

/// A run of an outside tool: its arguments, and the files it reads and
/// writes, for dependency tracking.
pub struct ToolRun {
    pub args: Vec<String>,
    pub inputs: Vec<String>,
    pub outputs: Vec<String>,
}

/// The extensions given to object, dependency and definition files hold no
/// separator.
proof fn lemma_literal_extensions()
    ensures
        !"o"@.contains('/'),
        !"d"@.contains('/'),
        !"upydef"@.contains('/'),
{
    reveal_strlit("o");
    reveal_strlit("d");
    reveal_strlit("upydef");
    assert("o"@[0] != '/');
    assert("d"@[0] != '/');
    assert forall|i: int| 0 <= i < "upydef"@.len() implies "upydef"@[i] != '/' by {}
}

/// The arguments that compile `unit` to its object file, writing its
/// dependency file too: `-c -MMD -MF <dep> -o <obj> <src>`.
pub fn compile_command_args(unit: &CompileUnit) -> (r: Vec<String>)
    ensures
        strs(r@) == seq![
            "-c"@,
            "-MMD"@,
            "-MF"@,
            unit.dep_path@,
            "-o"@,
            unit.obj_path@,
            unit.src_path@,
        ],
{
    let mut r: Vec<String> = Vec::new();
    r.push(owned("-c"));
    r.push(owned("-MMD"));
    r.push(owned("-MF"));
    r.push(unit.dep_path.clone());
    r.push(owned("-o"));
    r.push(unit.obj_path.clone());
    r.push(unit.src_path.clone());
    assert(strs(r@) =~= seq![
        "-c"@,
        "-MMD"@,
        "-MF"@,
        unit.dep_path@,
        "-o"@,
        unit.obj_path@,
        unit.src_path@,
    ]);
    r
}

/// What a failed compiler run reports: its error output if that is not
/// blank, else its standard output if that is not blank, else
/// `no compiler output`; white space at either end removed.
pub fn compile_failure_details(stderr: &str, stdout: &str) -> (r: String)
    ensures
        r@ == (if trimmed(stderr@).len() > 0 {
            trimmed(stderr@)
        } else if trimmed(stdout@).len() > 0 {
            trimmed(stdout@)
        } else {
            "no compiler output"@
        }),
{
    let e = trim_str(stderr);
    if !e.as_str().is_empty() {
        return e;
    }
    let o = trim_str(stdout);
    if !o.as_str().is_empty() {
        return o;
    }
    owned("no compiler output")
}

/// How many compile jobs to run at once: the first positive number among
/// `cbuild_jobs` and `num_jobs`, else the available parallelism (1 if
/// unknown), at least 1 and at most the number of units (or 1).
pub open spec fn parallel_jobs(
    cbuild_jobs: Option<Seq<char>>,
    num_jobs: Option<Seq<char>>,
    available: Option<usize>,
    unit_count: int,
) -> int {
    let wanted = match positive_count(cbuild_jobs) {
        Some(n) => n,
        None => match positive_count(num_jobs) {
            Some(n) => n,
            None => match available {
                Some(a) => a as int,
                None => 1,
            },
        },
    };
    let at_least_one = if wanted < 1 { 1 } else { wanted };
    let cap = if unit_count < 1 { 1 } else { unit_count };
    if at_least_one < cap { at_least_one } else { cap }
}

/// The value of `v` read as a positive `usize`, if it is one.
pub open spec fn positive_count(v: Option<Seq<char>>) -> Option<int> {
    match v {
        Some(s) => match parsed_usize(s) {
            Some(n) => if n > 0 { Some(n) } else { None },
            None => None,
        },
        None => None,
    }
}

/// The value of `v` read as a positive `usize`, if it is one.
fn positive_of(v: Option<&str>) -> (r: Option<usize>)
    ensures
        r is Some ==> positive_count(opt_str_chars(v)) == Some(r->0 as int),
        r is None ==> positive_count(opt_str_chars(v)) is None,
{
    match v {
        Some(s) => match parse_usize(s) {
            Some(n) => if n > 0 { Some(n) } else { None },
            None => None,
        },
        None => None,
    }
}

/// `n`, but no more than the number of units, counting no units as one:
/// `min(n, max(unit_count, 1))`.
pub open spec fn at_most_units(n: int, unit_count: int) -> int {
    let most = if unit_count < 1 { 1 } else { unit_count };
    if n < most { n } else { most }
}

/// `CBUILD_JOBS` wins: where its value reads as a positive number `n`, the
/// job count is `n`, capped by the number of units (at least 1), whatever
/// `NUM_JOBS` and the available parallelism are. Where it does not,
/// `NUM_JOBS` read as a positive number `m` gives `m`, capped the same way.
pub proof fn lemma_cbuild_jobs_first(
    cbuild_jobs: Option<Seq<char>>,
    num_jobs: Option<Seq<char>>,
    available: Option<usize>,
    unit_count: int,
)
    ensures
        cbuild_jobs is Some && parsed_usize(cbuild_jobs->0) is Some && parsed_usize(cbuild_jobs->0)->0
            > 0 ==> parallel_jobs(cbuild_jobs, num_jobs, available, unit_count) == at_most_units(
            parsed_usize(cbuild_jobs->0)->0,
            unit_count,
        ),
        !(cbuild_jobs is Some && parsed_usize(cbuild_jobs->0) is Some && parsed_usize(
            cbuild_jobs->0,
        )->0 > 0) && num_jobs is Some && parsed_usize(num_jobs->0) is Some && parsed_usize(
            num_jobs->0,
        )->0 > 0 ==> parallel_jobs(cbuild_jobs, num_jobs, available, unit_count) == at_most_units(
            parsed_usize(num_jobs->0)->0,
            unit_count,
        ),
{
}

/// How many compile jobs to run at once, from the values of `CBUILD_JOBS`
/// and `NUM_JOBS` (where set), the available parallelism (where known) and
/// the number of units.
pub fn determine_parallel_jobs(
    cbuild_jobs: Option<&str>,
    num_jobs: Option<&str>,
    available: Option<usize>,
    unit_count: usize,
) -> (r: usize)
    ensures
        r as int == parallel_jobs(
            opt_str_chars(cbuild_jobs),
            opt_str_chars(num_jobs),
            available,
            unit_count as int,
        ),
        1 <= r,
        r <= unit_count || r == 1,
        cbuild_jobs is Some && parsed_usize(cbuild_jobs->0@) is Some && parsed_usize(
            cbuild_jobs->0@,
        )->0 > 0 ==> r as int == at_most_units(parsed_usize(cbuild_jobs->0@)->0, unit_count as int),
{
    proof {
        lemma_cbuild_jobs_first(opt_str_chars(cbuild_jobs), opt_str_chars(num_jobs), available, unit_count as int);
    }
    let wanted: usize = match positive_of(cbuild_jobs) {
        Some(n) => n,
        None => match positive_of(num_jobs) {
            Some(n) => n,
            None => match available {
                Some(a) => a,
                None => 1,
            },
        },
    };
    let at_least_one: usize = if wanted < 1 { 1 } else { wanted };
    let cap: usize = if unit_count < 1 { 1 } else { unit_count };
    if at_least_one < cap { at_least_one } else { cap }
}

/// The name of the static library: the crate's `links` key where set,
/// else `native_part`.
pub fn library_name(links: Option<&str>) -> (r: String)
    ensures
        r@ == (match links {
            Some(l) => l@,
            None => "native_part"@,
        }),
{
    match links {
        Some(l) => owned(l),
        None => owned("native_part"),
    }
}

// ------------------------------------------------------- compiled results

/// What compiling one source produced: its place in the library's list,
/// its object file, and the text of its dependency file where that could
/// be read.
pub struct CompiledUnit {
    pub index: usize,
    pub obj_path: String,
    pub dep_content: Option<String>,
}

/// Whether `units` come in the order of their places in the library.
pub open spec fn sorted_by_index(units: Seq<CompiledUnit>) -> bool {
    forall|i: int, j: int| 0 <= i < j < units.len() ==> units[i].index <= units[j].index
}

/// The results among `units` whose index is `k`, in order.
pub open spec fn with_index(units: Seq<CompiledUnit>, k: usize) -> Seq<CompiledUnit>
    decreases units.len(),
{
    if units.len() == 0 {
        units
    } else {
        let r = with_index(units.drop_last(), k);
        if units.last().index == k {
            r.push(units.last())
        } else {
            r
        }
    }
}

proof fn lemma_with_index_concat(a: Seq<CompiledUnit>, b: Seq<CompiledUnit>, k: usize)
    ensures
        with_index(a + b, k) == with_index(a, k) + with_index(b, k),
    decreases b.len(),
{
    if b.len() == 0 {
        assert(a + b =~= a);
        assert(with_index(a, k) + with_index(b, k) =~= with_index(a, k));
    } else {
        lemma_with_index_concat(a, b.drop_last(), k);
        assert((a + b).drop_last() =~= a + b.drop_last());
        assert((a + b).last() == b.last());
        if b.last().index == k {
            assert(with_index(a, k) + with_index(b, k) =~= (with_index(a, k) + with_index(
                b.drop_last(),
                k,
            )).push(b.last()));
        }
    }
}

proof fn lemma_with_index_none(a: Seq<CompiledUnit>, k: usize)
    requires
        forall|i: int| 0 <= i < a.len() ==> (#[trigger] a[i]).index != k,
    ensures
        with_index(a, k) == Seq::<CompiledUnit>::empty(),
    decreases a.len(),
{
    if a.len() > 0 {
        assert(a[a.len() - 1].index != k);
        lemma_with_index_none(a.drop_last(), k);
    }
}

proof fn lemma_with_index_single(x: CompiledUnit, k: usize)
    ensures
        with_index(seq![x], k) == (if x.index == k {
            seq![x]
        } else {
            Seq::<CompiledUnit>::empty()
        }),
{
    let s = seq![x];
    assert(s.drop_last() =~= Seq::<CompiledUnit>::empty());
    assert(s.last() == x);
    assert(with_index(Seq::<CompiledUnit>::empty(), k) == Seq::<CompiledUnit>::empty());
    assert(Seq::<CompiledUnit>::empty().push(x) =~= s);
}

/// Inserting `x` before every result of index at least its own puts it
/// first among those of its index, and changes no other index's results.
proof fn lemma_with_index_insert(r: Seq<CompiledUnit>, p: int, x: CompiledUnit, k: usize)
    requires
        0 <= p <= r.len(),
        forall|i: int| 0 <= i < p ==> (#[trigger] r[i]).index < x.index,
    ensures
        with_index(r.insert(p, x), k) == (if x.index == k {
            seq![x] + with_index(r, k)
        } else {
            with_index(r, k)
        }),
{
    let head = r.take(p);
    let tail = r.skip(p);
    assert(r =~= head + tail);
    assert(r.insert(p, x) =~= head + (seq![x] + tail));
    lemma_with_index_concat(head, tail, k);
    lemma_with_index_concat(head, seq![x] + tail, k);
    lemma_with_index_concat(seq![x], tail, k);
    lemma_with_index_single(x, k);
    if x.index == k {
        assert forall|i: int| 0 <= i < head.len() implies (#[trigger] head[i]).index != k by {
            assert(head[i] == r[i]);
        }
        lemma_with_index_none(head, k);
        assert(with_index(head, k) + with_index(tail, k) =~= with_index(tail, k));
        assert(with_index(head, k) + (seq![x] + with_index(tail, k)) =~= seq![x] + with_index(tail, k));
    } else {
        assert(Seq::<CompiledUnit>::empty() + with_index(tail, k) =~= with_index(tail, k));
    }
}

/// The results in the order of their places in the library's list: the
/// same results, sorted by index, those of equal index in the order they
/// came in (a stable sort).
pub fn sort_by_index(results: Vec<CompiledUnit>) -> (r: Vec<CompiledUnit>)
    ensures
        sorted_by_index(r@),
        forall|k: usize| #[trigger] with_index(r@, k) == with_index(results@, k),
        r@.to_multiset() == results@.to_multiset(),
{
    broadcast use vstd::multiset::group_multiset_axioms;

    let ghost orig = results@;
    let mut rest = results;
    let mut r: Vec<CompiledUnit> = Vec::new();
    proof {
        vstd::seq_lib::to_multiset_len(r@);
        vstd::multiset::lemma_multiset_empty_len(r@.to_multiset());
        assert forall|k: usize| #[trigger] with_index(orig, k) == with_index(rest@, k) + with_index(
            r@,
            k,
        ) by {
            assert(with_index(rest@, k) + with_index(r@, k) =~= with_index(rest@, k));
        }
    }
    assert(r@.to_multiset().add(rest@.to_multiset()) =~= orig.to_multiset());
    while rest.len() > 0
        invariant
            sorted_by_index(r@),
            r@.to_multiset().add(rest@.to_multiset()) == orig.to_multiset(),
            forall|k: usize| #[trigger] with_index(orig, k) == with_index(rest@, k) + with_index(r@, k),
        decreases rest.len(),
    {
        let ghost rest_before = rest@;
        let x = rest.pop().unwrap();
        assert(rest@.push(x) =~= rest_before);
        let mut p: usize = 0;
        while p < r.len() && r[p].index < x.index
            invariant
                0 <= p <= r.len(),
                sorted_by_index(r@),
                forall|k: int| 0 <= k < p ==> r@[k].index < x.index,
            decreases r.len() - p,
        {
            p = p + 1;
        }
        let ghost r_before = r@;
        assert(forall|k: int| p <= k < r_before.len() ==> r_before[k].index >= x.index) by {
            if p < r_before.len() {
                assert(r_before[p as int].index >= x.index);
            }
        }
        r.insert(p, x);
        assert(r@ == r_before.insert(p as int, x));
        assert forall|i: int, j: int| 0 <= i < j < r@.len() implies r@[i].index <= r@[j].index by {
            let a = if i < p { r_before[i] } else if i == p { x } else { r_before[i - 1] };
            let b = if j < p { r_before[j] } else if j == p { x } else { r_before[j - 1] };
            assert(r@[i] == a);
            assert(r@[j] == b);
        }
        proof {
            vstd::seq_lib::to_multiset_insert(r_before, p as int, x);
            vstd::seq_lib::to_multiset_build(rest@, x);
            assert forall|k: usize| #[trigger] with_index(orig, k) == with_index(rest@, k)
                + with_index(r@, k) by {
                lemma_with_index_insert(r_before, p as int, x, k);
                assert(rest_before.drop_last() =~= rest@);
                assert(rest_before.last() == x);
                if x.index == k {
                    assert(with_index(rest_before, k) == with_index(rest@, k).push(x));
                    assert(with_index(rest@, k) + with_index(r@, k) =~= with_index(rest_before, k)
                        + with_index(r_before, k));
                } else {
                    assert(with_index(rest_before, k) == with_index(rest@, k));
                }
            }
        }
        assert(r@.to_multiset() == r_before.to_multiset().insert(x));
        assert(rest_before.to_multiset() == rest@.to_multiset().insert(x));
        assert(r@.to_multiset().add(rest@.to_multiset()) =~= r_before.to_multiset().add(
            rest_before.to_multiset(),
        ));
    }
    proof {
        vstd::seq_lib::to_multiset_len(rest@);
        vstd::multiset::lemma_multiset_empty_len(rest@.to_multiset());
        assert forall|k: usize| #[trigger] with_index(r@, k) == with_index(orig, k) by {
            assert(rest@ =~= Seq::<CompiledUnit>::empty());
            assert(with_index(rest@, k) + with_index(r@, k) =~= with_index(r@, k));
        }
    }
    assert(rest@.to_multiset() =~= vstd::multiset::Multiset::<CompiledUnit>::empty());
    assert(r@.to_multiset().add(rest@.to_multiset()) =~= r@.to_multiset());
    r
}

/// The paths that the dependency files of `units` name, unit by unit.
pub open spec fn rerun_paths_of(units: Seq<CompiledUnit>) -> Seq<Seq<char>>
    decreases units.len(),
{
    if units.len() == 0 {
        Seq::<Seq<char>>::empty()
    } else {
        rerun_paths_of(units.drop_last()) + match units.last().dep_content {
            Some(c) => dep_file_paths(text_lines(c@)),
            None => Seq::<Seq<char>>::empty(),
        }
    }
}

/// What the compiled sources give the rest of the build: the object files
/// to archive, and the paths cargo is to watch for changes.
pub struct BuildOutputs {
    pub objects: Vec<String>,
    pub rerun_paths: Vec<String>,
}

/// The object files of `units` in their order, and the paths their
/// dependency files name, unit by unit.
pub fn build_outputs(units: &Vec<CompiledUnit>) -> (r: BuildOutputs)
    ensures
        strs(r.objects@) == units@.map_values(|u: CompiledUnit| u.obj_path@),
        strs(r.rerun_paths@) == rerun_paths_of(units@),
{
    let mut objects: Vec<String> = Vec::new();
    let mut rerun: Vec<String> = Vec::new();
    let mut i: usize = 0;
    while i < units.len()
        invariant
            0 <= i <= units.len(),
            strs(objects@) == units@.take(i as int).map_values(|u: CompiledUnit| u.obj_path@),
            strs(rerun@) == rerun_paths_of(units@.take(i as int)),
        decreases units.len() - i,
    {
        let u = &units[i];
        let ghost before_o = strs(objects@);
        let ghost before_r = strs(rerun@);
        objects.push(u.obj_path.clone());
        assert(strs(objects@) =~= before_o.push(u.obj_path@));
        assert(units@.take(i + 1).drop_last() =~= units@.take(i as int));
        assert(units@.take(i + 1).last() == *u);
        let found: Vec<String> = match &u.dep_content {
            Some(c) => dep_paths(c.as_str()),
            None => Vec::new(),
        };
        assert(strs(found@) == match u.dep_content {
            Some(c) => dep_file_paths(text_lines(c@)),
            None => Seq::<Seq<char>>::empty(),
        });
        let mut j: usize = 0;
        while j < found.len()
            invariant
                0 <= j <= found.len(),
                strs(rerun@) == before_r + strs(found@).take(j as int),
            decreases found.len() - j,
        {
            let ghost b2 = strs(rerun@);
            rerun.push(found[j].clone());
            assert(strs(rerun@) =~= b2.push(found@[j as int]@));
            j = j + 1;
            assert(before_r + strs(found@).take(j as int) =~= (before_r + strs(found@).take(
                j - 1,
            )).push(found@[j - 1]@));
        }
        assert(strs(found@).take(found.len() as int) =~= strs(found@));
        i = i + 1;
        assert(units@.take(i as int).map_values(|u: CompiledUnit| u.obj_path@) =~= units@.take(
            i - 1,
        ).map_values(|u: CompiledUnit| u.obj_path@).push(units@[i - 1].obj_path@));
    }
    assert(units@.take(units.len() as int) =~= units@);
    BuildOutputs { objects, rerun_paths: rerun }
}

// -------------------------------------------------------------------- laws

/// A recorded path is never empty: where the relative path would be empty,
/// `.` is recorded.
pub proof fn lemma_manifest_relative_nonempty(path: Seq<char>, manifest: Seq<char>)
    ensures
        manifest_relative(path, manifest).len() > 0,
{
}

/// Adding a path that is already there changes nothing; in particular
/// adding the same include directory or library twice is the same as
/// adding it once.
pub proof fn lemma_with_path_idempotent(list: Seq<Seq<char>>, p: Seq<char>)
    ensures
        has_path(with_path(list, p), p),
        with_path(with_path(list, p), p) == with_path(list, p),
{
    if !has_path(list, p) {
        let l2 = list.push(p);
        assert(same_path(l2[list.len() as int], p));
    }
}

/// Adding a flag that is already there changes nothing.
pub proof fn lemma_with_string_idempotent(list: Seq<Seq<char>>, x: Seq<char>)
    ensures
        with_string(list, x).contains(x),
        with_string(with_string(list, x), x) == with_string(list, x),
{
    if !list.contains(x) {
        assert(list.push(x)[list.len() as int] == x);
    }
}

proof fn lemma_with_strings_distinct(xs: Seq<Seq<char>>)
    requires
        distinct_strings(xs),
    ensures
        with_strings(Seq::<Seq<char>>::empty(), xs) == xs,
    decreases xs.len(),
{
    if xs.len() > 0 {
        let init = xs.drop_last();
        assert(distinct_strings(init)) by {
            assert forall|i: int, j: int|
                0 <= i < init.len() && 0 <= j < init.len() && i != j implies #[trigger] init[i]
                != #[trigger] init[j] by {
                assert(init[i] == xs[i] && init[j] == xs[j]);
            }
        }
        lemma_with_strings_distinct(init);
        assert(!init.contains(xs.last())) by {
            if init.contains(xs.last()) {
                let i = choose|i: int| 0 <= i < init.len() && init[i] == xs.last();
                assert(xs[i] == xs[xs.len() - 1]);
            }
        }
        assert(init.push(xs.last()) =~= xs);
    }
}

/// The flags a library exports are the flags a crate that uses it imports:
/// reading back `public_c_flags` (entries separated by `;`, empty ones
/// ignored) into a library with no public flags gives the exported flags,
/// in order, when none is empty or holds a `;`.
pub proof fn lemma_public_flags_round_trip(flags: Seq<Seq<char>>)
    requires
        distinct_strings(flags),
        forall|i: int| 0 <= i < flags.len() ==> (#[trigger] flags[i]).len() > 0 && !flags[i].contains(';'),
    ensures
        with_strings(Seq::<Seq<char>>::empty(), nonempty(split_on(join_with(flags, ';'), ';')))
            == flags,
{
    crate::text::lemma_pieces_of_joined(flags, ';');
    lemma_with_strings_distinct(flags);
}

proof fn lemma_with_paths_distinct(xs: Seq<Seq<char>>)
    requires
        distinct_paths(xs),
    ensures
        with_paths(Seq::<Seq<char>>::empty(), xs) == xs,
    decreases xs.len(),
{
    if xs.len() > 0 {
        let init = xs.drop_last();
        assert(distinct_paths(init)) by {
            assert forall|i: int, j: int|
                0 <= i < init.len() && 0 <= j < init.len() && i != j implies !same_path(
                #[trigger] init[i],
                #[trigger] init[j],
            ) by {
                assert(init[i] == xs[i] && init[j] == xs[j]);
            }
        }
        lemma_with_paths_distinct(init);
        assert(!has_path(init, xs.last())) by {
            if has_path(init, xs.last()) {
                let i = choose|i: int| 0 <= i < init.len() && same_path(#[trigger] init[i], xs.last());
                assert(xs[i] == init[i]);
                assert(!same_path(xs[i], xs[xs.len() - 1]));
            }
        }
        assert(init.push(xs.last()) =~= xs);
    }
}

/// The libraries a library exports are the libraries a crate that uses it
/// imports: reading back `public_c_libs` (entries separated by `;`, empty
/// ones ignored) into a library with no public libraries gives the
/// exported list, in order, when no entry is empty or holds a `;`.
pub proof fn lemma_public_libs_round_trip(libs: Seq<Seq<char>>)
    requires
        distinct_paths(libs),
        forall|i: int| 0 <= i < libs.len() ==> (#[trigger] libs[i]).len() > 0 && !libs[i].contains(';'),
    ensures
        with_paths(Seq::<Seq<char>>::empty(), nonempty(split_on(join_with(libs, ';'), ';'))) == libs,
{
    crate::text::lemma_pieces_of_joined(libs, ';');
    lemma_with_paths_distinct(libs);
}

/// The definitions a library exports are the definitions a crate that
/// uses it imports: reading back `public_c_defines` gives the exported
/// definitions, in order, when no name is empty or holds `=` or `;` and no
/// value holds `;`.
pub proof fn lemma_public_defines_round_trip(defines: Seq<(Seq<char>, Option<Seq<char>>)>)
    requires
        forall|i: int|
            0 <= i < defines.len() ==> {
                let d = #[trigger] defines[i];
                &&& d.0.len() > 0
                &&& !d.0.contains('=')
                &&& !d.0.contains(';')
                &&& d.1 matches Some(v) ==> !v.contains(';')
            },
    ensures
        nonempty(
            split_on(
                join_with(
                    defines.map_values(|d: (Seq<char>, Option<Seq<char>>)| define_text(d)),
                    ';',
                ),
                ';',
            ),
        ).map_values(|t: Seq<char>| split_define(t)) == defines,
{
    let texts = defines.map_values(|d: (Seq<char>, Option<Seq<char>>)| define_text(d));
    assert forall|i: int| 0 <= i < texts.len() implies (#[trigger] texts[i]).len() > 0
        && !texts[i].contains(';') by {
        let d = defines[i];
        assert(texts[i] == define_text(d));
        if texts[i].contains(';') {
            let j = choose|j: int| 0 <= j < texts[i].len() && texts[i][j] == ';';
            match d.1 {
                Some(v) => {
                    if j < d.0.len() {
                        assert(d.0[j] == ';');
                    } else if j > d.0.len() {
                        assert(v[j - d.0.len() - 1] == ';');
                    }
                },
                None => {
                    assert(d.0[j] == ';');
                },
            }
        }
    }
    crate::text::lemma_pieces_of_joined(texts, ';');
    assert forall|i: int| 0 <= i < defines.len() implies split_define(texts[i]) == #[trigger] defines[i] by {
        crate::text::lemma_split_define_text(defines[i].0, defines[i].1);
    }
    assert(texts.map_values(|t: Seq<char>| split_define(t)) =~= defines);
}

// ----------------------------------------------------------------- library

/// A C library to build: its sources, its private and public flags,
/// definitions and include directories, and the static libraries it
/// exports. Paths are recorded relative to the crate directory.
pub struct CLibrary {
    manifest_dir: String,
    sources: Vec<String>,
    flags: Vec<String>,
    public_flags: Vec<String>,
    defines: Vec<(String, Option<String>)>,
    public_defines: Vec<(String, Option<String>)>,
    includes: Vec<String>,
    public_includes: Vec<String>,
    public_libs: Vec<String>,
}

/// What a `CLibrary` holds, as text.
pub struct LibraryModel {
    /// The crate directory that relative paths are taken from.
    pub manifest: Seq<char>,
    /// The source files, in the order they were added.
    pub sources: Seq<Seq<char>>,
    /// The private compiler flags.
    pub flags: Seq<Seq<char>>,
    /// The public compiler flags.
    pub public_flags: Seq<Seq<char>>,
    /// The private preprocessor definitions.
    pub defines: Seq<(Seq<char>, Option<Seq<char>>)>,
    /// The public preprocessor definitions.
    pub public_defines: Seq<(Seq<char>, Option<Seq<char>>)>,
    /// The private include directories.
    pub includes: Seq<Seq<char>>,
    /// The public include directories.
    pub public_includes: Seq<Seq<char>>,
    /// The static libraries exported to dependent crates.
    pub public_libs: Seq<Seq<char>>,
}

impl LibraryModel {
    /// The library's invariant: no flag is held twice, and no include
    /// directory or library names the same path as another.
    pub open spec fn wf(self) -> bool {
        &&& distinct_strings(self.flags)
        &&& distinct_strings(self.public_flags)
        &&& distinct_paths(self.includes)
        &&& distinct_paths(self.public_includes)
        &&& distinct_paths(self.public_libs)
    }
}

impl View for CLibrary {
    type V = LibraryModel;

    closed spec fn view(&self) -> LibraryModel {
        LibraryModel {
            manifest: self.manifest_dir@,
            sources: strs(self.sources@),
            flags: strs(self.flags@),
            public_flags: strs(self.public_flags@),
            defines: define_views(self.defines@),
            public_defines: define_views(self.public_defines@),
            includes: strs(self.includes@),
            public_includes: strs(self.public_includes@),
            public_libs: strs(self.public_libs@),
        }
    }
}

impl Clone for CLibrary {
    /// A copy holding the same settings.
    fn clone(&self) -> (r: Self)
        ensures
            r@ == self@,
    {
        proof {
            use_type_invariant(self);
        }
        CLibrary {
            manifest_dir: owned(self.manifest_dir.as_str()),
            sources: copy_strings(&self.sources),
            flags: copy_strings(&self.flags),
            public_flags: copy_strings(&self.public_flags),
            defines: copy_defines(&self.defines),
            public_defines: copy_defines(&self.public_defines),
            includes: copy_strings(&self.includes),
            public_includes: copy_strings(&self.public_includes),
            public_libs: copy_strings(&self.public_libs),
        }
    }
}

impl CLibrary {
    /// Every library keeps its invariant.
    #[verifier::type_invariant]
    spec fn model_wf(&self) -> bool {
        self@.wf()
    }

    /// An empty library whose relative paths are taken from `manifest_dir`,
    /// the crate directory.
    pub fn new(manifest_dir: &str) -> (r: Self)
        ensures
            r@.wf(),
            r@ == (LibraryModel {
                manifest: manifest_dir@,
                sources: Seq::empty(),
                flags: Seq::empty(),
                public_flags: Seq::empty(),
                defines: Seq::empty(),
                public_defines: Seq::empty(),
                includes: Seq::empty(),
                public_includes: Seq::empty(),
                public_libs: Seq::empty(),
            }),
    {
        let r = CLibrary {
            manifest_dir: owned(manifest_dir),
            sources: Vec::new(),
            flags: Vec::new(),
            public_flags: Vec::new(),
            defines: Vec::new(),
            public_defines: Vec::new(),
            includes: Vec::new(),
            public_includes: Vec::new(),
            public_libs: Vec::new(),
        };
        assert(r@.sources =~= Seq::<Seq<char>>::empty());
        assert(r@.flags =~= Seq::<Seq<char>>::empty());
        assert(r@.public_flags =~= Seq::<Seq<char>>::empty());
        assert(r@.defines =~= Seq::<(Seq<char>, Option<Seq<char>>)>::empty());
        assert(r@.public_defines =~= Seq::<(Seq<char>, Option<Seq<char>>)>::empty());
        assert(r@.includes =~= Seq::<Seq<char>>::empty());
        assert(r@.public_includes =~= Seq::<Seq<char>>::empty());
        assert(r@.public_libs =~= Seq::<Seq<char>>::empty());
        r
    }

    /// Adds one source file. A relative path is taken from the crate
    /// directory; the recorded path is relative to it where possible.
    pub fn add_source(&mut self, src: &str)
        ensures
            final(self)@.wf(),
            final(self)@ == (LibraryModel {
                sources: old(self)@.sources.push(manifest_relative(src@, old(self)@.manifest)),
                ..old(self)@
            }),
    {
        proof {
            use_type_invariant(&*self);
        }
        let p = make_path_relative_to_manifest(src, self.manifest_dir.as_str());
        let ghost before = self@;
        let mut list: Vec<String> = Vec::new();
        std::mem::swap(&mut list, &mut self.sources);
        list.push(p);
        self.sources = list;
        assert(self@.sources =~= before.sources.push(p@));
    }

    /// The source files, in the order they were added.
    pub fn get_sources(&self) -> (r: Vec<&String>)
        ensures
            r@.map_values(|x: &String| x@) == self@.sources,
    {
        let mut r: Vec<&String> = Vec::new();
        let mut i: usize = 0;
        while i < self.sources.len()
            invariant
                0 <= i <= self.sources.len(),
                r@.map_values(|x: &String| x@) == self@.sources.take(i as int),
            decreases self.sources.len() - i,
        {
            assert(self@.sources[i as int] == self.sources@[i as int]@);
            let ghost before = r@;
            let x = &self.sources[i];
            r.push(x);
            assert(r@ == before.push(x));
            assert(r@.map_values(|x: &String| x@) =~= before.map_values(|x: &String| x@).push(x@));
            i = i + 1;
            assert(r@.map_values(|x: &String| x@) =~= self@.sources.take(i as int));
        }
        assert(self@.sources.take(self.sources.len() as int) =~= self@.sources);
        r
    }

    /// Adds several source files, in order, as `add_source` does.
    pub fn add_sources(&mut self, sources: &[&str])
        ensures
            final(self)@.wf(),
            final(self)@ == (LibraryModel {
                sources: old(self)@.sources + all_manifest_relative(
                    slice_strs(sources@),
                    old(self)@.manifest,
                ),
                ..old(self)@
            }),
    {
        proof {
            use_type_invariant(&*self);
        }
        let mut i: usize = 0;
        while i < sources.len()
            invariant
                0 <= i <= sources.len(),
                self@.wf(),
                self@ == (LibraryModel {
                    sources: old(self)@.sources + all_manifest_relative(
                        slice_strs(sources@).take(i as int),
                        old(self)@.manifest,
                    ),
                    ..old(self)@
                }),
            decreases sources.len() - i,
        {
            self.add_source(sources[i]);
            i = i + 1;
            assert(all_manifest_relative(slice_strs(sources@).take(i as int), old(self)@.manifest)
                =~= all_manifest_relative(slice_strs(sources@).take(i - 1), old(self)@.manifest).push(
                manifest_relative(sources@[i - 1]@, old(self)@.manifest),
            ));
        }
        assert(slice_strs(sources@).take(sources.len() as int) =~= slice_strs(sources@));
    }

    /// Adds several source files, each named relative to the folder
    /// `prefix`, as `add_source` does.
    pub fn add_sources_from_folder(&mut self, prefix: &str, sources: &[&str])
        ensures
            final(self)@.wf(),
            final(self)@ == (LibraryModel {
                sources: old(self)@.sources + slice_strs(sources@).map_values(
                    |s: Seq<char>| manifest_relative(path_join(prefix@, s), old(self)@.manifest),
                ),
                ..old(self)@
            }),
    {
        proof {
            use_type_invariant(&*self);
        }
        let pre = chars_of(prefix);
        let mut i: usize = 0;
        while i < sources.len()
            invariant
                0 <= i <= sources.len(),
                pre@ == prefix@,
                self@.wf(),
                self@ == (LibraryModel {
                    sources: old(self)@.sources + slice_strs(sources@).take(i as int).map_values(
                        |s: Seq<char>| manifest_relative(path_join(prefix@, s), old(self)@.manifest),
                    ),
                    ..old(self)@
                }),
            decreases sources.len() - i,
        {
            let full = string_of(&join_chars(&pre, &chars_of(sources[i])));
            self.add_source(full.as_str());
            i = i + 1;
            assert(slice_strs(sources@).take(i as int).map_values(
                |s: Seq<char>| manifest_relative(path_join(prefix@, s), old(self)@.manifest),
            ) =~= slice_strs(sources@).take(i - 1).map_values(
                |s: Seq<char>| manifest_relative(path_join(prefix@, s), old(self)@.manifest),
            ).push(manifest_relative(path_join(prefix@, sources@[i - 1]@), old(self)@.manifest)));
        }
        assert(slice_strs(sources@).take(sources.len() as int) =~= slice_strs(sources@));
    }

    /// Adds a private include directory, unless one naming the same path is
    /// already there. A relative path is taken from the crate directory.
    pub fn add_include(&mut self, path: &str)
        ensures
            final(self)@.wf(),
            final(self)@ == (LibraryModel {
                includes: with_path(old(self)@.includes, manifest_relative(path@, old(self)@.manifest)),
                ..old(self)@
            }),
    {
        proof {
            use_type_invariant(&*self);
        }
        let p = make_path_relative_to_manifest(path, self.manifest_dir.as_str());
        let mut list: Vec<String> = Vec::new();
        std::mem::swap(&mut list, &mut self.includes);
        push_path_once(&mut list, p);
        self.includes = list;
    }

    /// Adds several private include directories, in order, as `add_include`
    /// does.
    pub fn add_includes(&mut self, paths: &[&str])
        ensures
            final(self)@.wf(),
            final(self)@ == (LibraryModel {
                includes: with_paths(
                    old(self)@.includes,
                    all_manifest_relative(slice_strs(paths@), old(self)@.manifest),
                ),
                ..old(self)@
            }),
    {
        proof {
            use_type_invariant(&*self);
        }
        let mut i: usize = 0;
        while i < paths.len()
            invariant
                0 <= i <= paths.len(),
                self@.wf(),
                self@ == (LibraryModel {
                    includes: with_paths(
                        old(self)@.includes,
                        all_manifest_relative(slice_strs(paths@).take(i as int), old(self)@.manifest),
                    ),
                    ..old(self)@
                }),
            decreases paths.len() - i,
        {
            let ghost xs = all_manifest_relative(slice_strs(paths@).take(i + 1), old(self)@.manifest);
            assert(xs.drop_last() =~= all_manifest_relative(slice_strs(paths@).take(i as int), old(self)@.manifest));
            assert(xs.last() == manifest_relative(paths@[i as int]@, old(self)@.manifest));
            self.add_include(paths[i]);
            i = i + 1;
        }
        assert(slice_strs(paths@).take(paths.len() as int) =~= slice_strs(paths@));
    }

    /// Adds a public include directory, unless one naming the same path is
    /// already there. A relative path is taken from the crate directory.
    pub fn add_public_include(&mut self, path: &str)
        ensures
            final(self)@.wf(),
            final(self)@ == (LibraryModel {
                public_includes: with_path(
                    old(self)@.public_includes,
                    manifest_relative(path@, old(self)@.manifest),
                ),
                ..old(self)@
            }),
    {
        proof {
            use_type_invariant(&*self);
        }
        let p = make_path_relative_to_manifest(path, self.manifest_dir.as_str());
        let mut list: Vec<String> = Vec::new();
        std::mem::swap(&mut list, &mut self.public_includes);
        push_path_once(&mut list, p);
        self.public_includes = list;
    }

    /// Adds several public include directories, in order, as
    /// `add_public_include` does.
    pub fn add_public_includes(&mut self, paths: &[&str])
        ensures
            final(self)@.wf(),
            final(self)@ == (LibraryModel {
                public_includes: with_paths(
                    old(self)@.public_includes,
                    all_manifest_relative(slice_strs(paths@), old(self)@.manifest),
                ),
                ..old(self)@
            }),
    {
        proof {
            use_type_invariant(&*self);
        }
        let mut i: usize = 0;
        while i < paths.len()
            invariant
                0 <= i <= paths.len(),
                self@.wf(),
                self@ == (LibraryModel {
                    public_includes: with_paths(
                        old(self)@.public_includes,
                        all_manifest_relative(slice_strs(paths@).take(i as int), old(self)@.manifest),
                    ),
                    ..old(self)@
                }),
            decreases paths.len() - i,
        {
            let ghost xs = all_manifest_relative(slice_strs(paths@).take(i + 1), old(self)@.manifest);
            assert(xs.drop_last() =~= all_manifest_relative(slice_strs(paths@).take(i as int), old(self)@.manifest));
            assert(xs.last() == manifest_relative(paths@[i as int]@, old(self)@.manifest));
            self.add_public_include(paths[i]);
            i = i + 1;
        }
        assert(slice_strs(paths@).take(paths.len() as int) =~= slice_strs(paths@));
    }

    /// Adds a private preprocessor definition: `-Dname=value`, or `-Dname`
    /// when there is no value.
    pub fn add_define(&mut self, name: &str, value: Option<&str>)
        ensures
            final(self)@.wf(),
            final(self)@ == (LibraryModel {
                defines: old(self)@.defines.push((name@, opt_str_chars(value))),
                ..old(self)@
            }),
    {
        proof {
            use_type_invariant(&*self);
        }
        let d = owned_define(name, value);
        let ghost before = self@;
        let mut list: Vec<(String, Option<String>)> = Vec::new();
        std::mem::swap(&mut list, &mut self.defines);
        list.push(d);
        self.defines = list;
        assert(self@.defines =~= before.defines.push((name@, opt_str_chars(value))));
    }

    /// Adds several private definitions, in order.
    pub fn add_defines(&mut self, defines: &[(&str, Option<&str>)])
        ensures
            final(self)@.wf(),
            final(self)@ == (LibraryModel {
                defines: old(self)@.defines + slice_defines(defines@),
                ..old(self)@
            }),
    {
        proof {
            use_type_invariant(&*self);
        }
        let mut i: usize = 0;
        while i < defines.len()
            invariant
                0 <= i <= defines.len(),
                self@.wf(),
                self@ == (LibraryModel {
                    defines: old(self)@.defines + slice_defines(defines@).take(i as int),
                    ..old(self)@
                }),
            decreases defines.len() - i,
        {
            let (n, v) = defines[i];
            assert(slice_defines(defines@).take(i + 1) =~= slice_defines(defines@).take(i as int).push(
                (n@, opt_str_chars(v)),
            ));
            self.add_define(n, v);
            i = i + 1;
            assert(old(self)@.defines + slice_defines(defines@).take(i as int) =~= (old(self)@.defines
                + slice_defines(defines@).take(i - 1)).push((n@, opt_str_chars(v))));
        }
        assert(slice_defines(defines@).take(defines.len() as int) =~= slice_defines(defines@));
    }

    /// Adds a public preprocessor definition.
    pub fn add_public_define(&mut self, name: &str, value: Option<&str>)
        ensures
            final(self)@.wf(),
            final(self)@ == (LibraryModel {
                public_defines: old(self)@.public_defines.push((name@, opt_str_chars(value))),
                ..old(self)@
            }),
    {
        proof {
            use_type_invariant(&*self);
        }
        let d = owned_define(name, value);
        let ghost before = self@;
        let mut list: Vec<(String, Option<String>)> = Vec::new();
        std::mem::swap(&mut list, &mut self.public_defines);
        list.push(d);
        self.public_defines = list;
        assert(self@.public_defines =~= before.public_defines.push((name@, opt_str_chars(value))));
    }

    /// Adds several public definitions, in order.
    pub fn add_public_defines(&mut self, defines: &[(&str, Option<&str>)])
        ensures
            final(self)@.wf(),
            final(self)@ == (LibraryModel {
                public_defines: old(self)@.public_defines + slice_defines(defines@),
                ..old(self)@
            }),
    {
        proof {
            use_type_invariant(&*self);
        }
        let mut i: usize = 0;
        while i < defines.len()
            invariant
                0 <= i <= defines.len(),
                self@.wf(),
                self@ == (LibraryModel {
                    public_defines: old(self)@.public_defines + slice_defines(defines@).take(i as int),
                    ..old(self)@
                }),
            decreases defines.len() - i,
        {
            let (n, v) = defines[i];
            assert(slice_defines(defines@).take(i + 1) =~= slice_defines(defines@).take(i as int).push(
                (n@, opt_str_chars(v)),
            ));
            self.add_public_define(n, v);
            i = i + 1;
            assert(old(self)@.public_defines + slice_defines(defines@).take(i as int) =~= (old(self)@.public_defines
                + slice_defines(defines@).take(i - 1)).push((n@, opt_str_chars(v))));
        }
        assert(slice_defines(defines@).take(defines.len() as int) =~= slice_defines(defines@));
    }

    /// Adds a private compiler flag, unless it is already there.
    pub fn add_flag(&mut self, flag: &str)
        ensures
            final(self)@.wf(),
            final(self)@ == (LibraryModel {
                flags: with_string(old(self)@.flags, flag@),
                ..old(self)@
            }),
    {
        proof {
            use_type_invariant(&*self);
        }
        let mut list: Vec<String> = Vec::new();
        std::mem::swap(&mut list, &mut self.flags);
        push_string_once(&mut list, owned(flag));
        self.flags = list;
    }

    /// Adds several private compiler flags, in order, as `add_flag` does.
    pub fn add_flags(&mut self, flags: &[&str])
        ensures
            final(self)@.wf(),
            final(self)@ == (LibraryModel {
                flags: with_strings(old(self)@.flags, slice_strs(flags@)),
                ..old(self)@
            }),
    {
        proof {
            use_type_invariant(&*self);
        }
        let mut i: usize = 0;
        while i < flags.len()
            invariant
                0 <= i <= flags.len(),
                self@.wf(),
                self@ == (LibraryModel {
                    flags: with_strings(old(self)@.flags, slice_strs(flags@).take(i as int)),
                    ..old(self)@
                }),
            decreases flags.len() - i,
        {
            assert(slice_strs(flags@).take(i + 1).drop_last() =~= slice_strs(flags@).take(i as int));
            self.add_flag(flags[i]);
            i = i + 1;
        }
        assert(slice_strs(flags@).take(flags.len() as int) =~= slice_strs(flags@));
    }

    /// Adds a public compiler flag, unless it is already there.
    pub fn add_public_flag(&mut self, flag: &str)
        ensures
            final(self)@.wf(),
            final(self)@ == (LibraryModel {
                public_flags: with_string(old(self)@.public_flags, flag@),
                ..old(self)@
            }),
    {
        proof {
            use_type_invariant(&*self);
        }
        let mut list: Vec<String> = Vec::new();
        std::mem::swap(&mut list, &mut self.public_flags);
        push_string_once(&mut list, owned(flag));
        self.public_flags = list;
    }

    /// Adds several public compiler flags, in order, as `add_public_flag`
    /// does.
    pub fn add_public_flags(&mut self, flags: &[&str])
        ensures
            final(self)@.wf(),
            final(self)@ == (LibraryModel {
                public_flags: with_strings(old(self)@.public_flags, slice_strs(flags@)),
                ..old(self)@
            }),
    {
        proof {
            use_type_invariant(&*self);
        }
        let mut i: usize = 0;
        while i < flags.len()
            invariant
                0 <= i <= flags.len(),
                self@.wf(),
                self@ == (LibraryModel {
                    public_flags: with_strings(old(self)@.public_flags, slice_strs(flags@).take(i as int)),
                    ..old(self)@
                }),
            decreases flags.len() - i,
        {
            assert(slice_strs(flags@).take(i + 1).drop_last() =~= slice_strs(flags@).take(i as int));
            self.add_public_flag(flags[i]);
            i = i + 1;
        }
        assert(slice_strs(flags@).take(flags.len() as int) =~= slice_strs(flags@));
    }

    /// Adds a static library to export, unless one naming the same path is
    /// already there. The name is kept as given.
    pub fn add_public_lib(&mut self, lib: &str)
        ensures
            final(self)@.wf(),
            final(self)@ == (LibraryModel {
                public_libs: with_path(old(self)@.public_libs, lib@),
                ..old(self)@
            }),
    {
        proof {
            use_type_invariant(&*self);
        }
        let mut list: Vec<String> = Vec::new();
        std::mem::swap(&mut list, &mut self.public_libs);
        push_path_once(&mut list, owned(lib));
        self.public_libs = list;
    }

    /// Imports what another crate's C library exports: the crate itself as a
    /// static library, then its public include directories, definitions,
    /// flags and libraries. Each of `includes`, `defines`, `flags` and `libs`
    /// is the value of that crate's `DEP_<CRATE>_PUBLIC_C_<KIND>` variable
    /// (empty where it is not set): entries separated by `;`, empty entries
    /// ignored, a definition split at its first `=`.
    pub fn use_lib(
        &mut self,
        crate_name: &str,
        includes: &str,
        defines: &str,
        flags: &str,
        libs: &str,
    )
        ensures
            final(self)@.wf(),
            final(self)@ == (LibraryModel {
                public_libs: with_paths(
                    with_path(old(self)@.public_libs, crate_name@),
                    nonempty(split_on(libs@, ';')),
                ),
                public_includes: with_paths(
                    old(self)@.public_includes,
                    all_manifest_relative(nonempty(split_on(includes@, ';')), old(self)@.manifest),
                ),
                public_defines: old(self)@.public_defines + nonempty(split_on(defines@, ';')).map_values(
                    |d: Seq<char>| split_define(d),
                ),
                public_flags: with_strings(old(self)@.public_flags, nonempty(split_on(flags@, ';'))),
                ..old(self)@
            }),
    {
        self.add_public_lib(crate_name);
        let ghost start = self@;

        let inc = nonempty_pieces(includes, ';');
        let mut i: usize = 0;
        while i < inc.len()
            invariant
                0 <= i <= inc.len(),
                self@.wf(),
                self@ == (LibraryModel {
                    public_includes: with_paths(
                        start.public_includes,
                        all_manifest_relative(strs(inc@).take(i as int), start.manifest),
                    ),
                    ..start
                }),
            decreases inc.len() - i,
        {
            let ghost xs = all_manifest_relative(strs(inc@).take(i + 1), start.manifest);
            assert(xs.drop_last() =~= all_manifest_relative(strs(inc@).take(i as int), start.manifest));
            assert(xs.last() == manifest_relative(inc@[i as int]@, start.manifest));
            self.add_public_include(inc[i].as_str());
            i = i + 1;
        }
        assert(strs(inc@).take(inc.len() as int) =~= strs(inc@));
        let ghost after_inc = self@;

        let defs = nonempty_pieces(defines, ';');
        let mut i: usize = 0;
        while i < defs.len()
            invariant
                0 <= i <= defs.len(),
                self@.wf(),
                self@ == (LibraryModel {
                    public_defines: after_inc.public_defines + strs(defs@).take(i as int).map_values(
                        |d: Seq<char>| split_define(d),
                    ),
                    ..after_inc
                }),
            decreases defs.len() - i,
        {
            let (name, value) = parse_define(defs[i].as_str());
            let v = match &value {
                Some(x) => Some(x.as_str()),
                None => None,
            };
            assert(opt_str_chars(v) == opt_chars(value));
            self.add_public_define(name.as_str(), v);
            assert(strs(defs@).take(i + 1).map_values(|d: Seq<char>| split_define(d)) =~= strs(
                defs@,
            ).take(i as int).map_values(|d: Seq<char>| split_define(d)).push(split_define(defs@[i as int]@)));
            i = i + 1;
            assert(after_inc.public_defines + strs(defs@).take(i as int).map_values(
                |d: Seq<char>| split_define(d),
            ) =~= (after_inc.public_defines + strs(defs@).take(i - 1).map_values(
                |d: Seq<char>| split_define(d),
            )).push(split_define(defs@[i - 1]@)));
        }
        assert(strs(defs@).take(defs.len() as int) =~= strs(defs@));
        let ghost after_defs = self@;

        let fl = nonempty_pieces(flags, ';');
        let mut i: usize = 0;
        while i < fl.len()
            invariant
                0 <= i <= fl.len(),
                self@.wf(),
                self@ == (LibraryModel {
                    public_flags: with_strings(after_defs.public_flags, strs(fl@).take(i as int)),
                    ..after_defs
                }),
            decreases fl.len() - i,
        {
            assert(strs(fl@).take(i + 1).drop_last() =~= strs(fl@).take(i as int));
            self.add_public_flag(fl[i].as_str());
            i = i + 1;
        }
        assert(strs(fl@).take(fl.len() as int) =~= strs(fl@));
        let ghost after_flags = self@;

        let lb = nonempty_pieces(libs, ';');
        let mut i: usize = 0;
        while i < lb.len()
            invariant
                0 <= i <= lb.len(),
                self@.wf(),
                self@ == (LibraryModel {
                    public_libs: with_paths(after_flags.public_libs, strs(lb@).take(i as int)),
                    ..after_flags
                }),
            decreases lb.len() - i,
        {
            assert(strs(lb@).take(i + 1).drop_last() =~= strs(lb@).take(i as int));
            self.add_public_lib(lb[i].as_str());
            i = i + 1;
        }
        assert(strs(lb@).take(lb.len() as int) =~= strs(lb@));
    }

    /// The lines that link the exported static libraries:
    /// `cargo:rustc-link-lib=static=<lib>` for each, in order.
    pub fn export_public_link_libs(&self) -> (r: Vec<String>)
        ensures
            strs(r@) == self@.public_libs.map_values(
                |l: Seq<char>| "cargo:rustc-link-lib=static="@ + l,
            ),
    {
        let mut r: Vec<String> = Vec::new();
        let mut i: usize = 0;
        while i < self.public_libs.len()
            invariant
                0 <= i <= self.public_libs.len(),
                strs(r@) == self@.public_libs.take(i as int).map_values(
                    |l: Seq<char>| "cargo:rustc-link-lib=static="@ + l,
                ),
            decreases self.public_libs.len() - i,
        {
            let mut line = owned("cargo:rustc-link-lib=static=");
            line.append(self.public_libs[i].as_str());
            let ghost before = strs(r@);
            r.push(line);
            assert(self@.public_libs[i as int] == self.public_libs@[i as int]@);
            assert(strs(r@) =~= before.push("cargo:rustc-link-lib=static="@ + self@.public_libs[i as int]));
            i = i + 1;
            assert(self@.public_libs.take(i as int).map_values(
                |l: Seq<char>| "cargo:rustc-link-lib=static="@ + l,
            ) =~= self@.public_libs.take(i - 1).map_values(
                |l: Seq<char>| "cargo:rustc-link-lib=static="@ + l,
            ).push("cargo:rustc-link-lib=static="@ + self@.public_libs[i - 1]));
        }
        assert(self@.public_libs.take(self.public_libs.len() as int) =~= self@.public_libs);
        r
    }

    /// The exported line `cargo::metadata=public_c_libs=...`: the exported
    /// libraries and this library `lib_name` (unless already among them),
    /// joined with `;`.
    pub fn export_public_c_libs_metadata(&self, lib_name: &str) -> (r: String)
        ensures
            r@ == "cargo::metadata=public_c_libs="@ + join_with(
                with_path(self@.public_libs, lib_name@),
                ';',
            ),
    {
        proof {
            use_type_invariant(self);
        }
        let mut libs = copy_strings(&self.public_libs);
        push_path_once(&mut libs, owned(lib_name));
        prefixed_list("cargo::metadata=public_c_libs=", &libs)
    }

    /// The exported line `cargo::metadata=public_c_includes=...`: the public
    /// include directories, made absolute from the crate directory, joined
    /// with `;`.
    pub fn export_public_c_includes_metadata(&self) -> (r: String)
        ensures
            r@ == "cargo::metadata=public_c_includes="@ + join_with(
                self@.public_includes.map_values(|d: Seq<char>| anchored(d, self@.manifest)),
                ';',
            ),
    {
        let mut dirs: Vec<String> = Vec::new();
        let mut i: usize = 0;
        while i < self.public_includes.len()
            invariant
                0 <= i <= self.public_includes.len(),
                strs(dirs@) == self@.public_includes.take(i as int).map_values(
                    |d: Seq<char>| anchored(d, self@.manifest),
                ),
            decreases self.public_includes.len() - i,
        {
            let d = self.public_includes[i].as_str();
            assert(self@.public_includes[i as int] == d@);
            let a = if crate::paths::chars_absolute(&chars_of(d)) {
                owned(d)
            } else {
                join_paths_lexically(self.manifest_dir.as_str(), d)
            };
            let ghost before = strs(dirs@);
            dirs.push(a);
            assert(strs(dirs@) =~= before.push(anchored(d@, self@.manifest)));
            i = i + 1;
            assert(self@.public_includes.take(i as int).map_values(
                |d: Seq<char>| anchored(d, self@.manifest),
            ) =~= self@.public_includes.take(i - 1).map_values(
                |d: Seq<char>| anchored(d, self@.manifest),
            ).push(anchored(self@.public_includes[i - 1], self@.manifest)));
        }
        assert(self@.public_includes.take(self.public_includes.len() as int)
            =~= self@.public_includes);
        prefixed_list("cargo::metadata=public_c_includes=", &dirs)
    }

    /// The exported line `cargo::metadata=public_c_defines=...`: the public
    /// definitions as `name=value` or `name`, joined with `;`.
    pub fn export_public_c_defines_metadata(&self) -> (r: String)
        ensures
            r@ == "cargo::metadata=public_c_defines="@ + join_with(
                self@.public_defines.map_values(|d: (Seq<char>, Option<Seq<char>>)| define_text(d)),
                ';',
            ),
    {
        let mut texts: Vec<String> = Vec::new();
        let mut i: usize = 0;
        while i < self.public_defines.len()
            invariant
                0 <= i <= self.public_defines.len(),
                strs(texts@) == self@.public_defines.take(i as int).map_values(
                    |d: (Seq<char>, Option<Seq<char>>)| define_text(d),
                ),
            decreases self.public_defines.len() - i,
        {
            let d = &self.public_defines[i];
            assert(self@.public_defines[i as int] == define_view(*d));
            let mut t = d.0.clone();
            match &d.1 {
                Some(v) => {
                    proof {
                        reveal_strlit("=");
                    }
                    t.append("=");
                    t.append(v.as_str());
                    assert(t@ =~= d.0@ + seq!['='] + v@);
                },
                None => {},
            }
            assert(t@ == define_text(define_view(*d)));
            let ghost before = strs(texts@);
            texts.push(t);
            assert(strs(texts@) =~= before.push(define_text(define_view(*d))));
            i = i + 1;
            assert(self@.public_defines.take(i as int).map_values(
                |d: (Seq<char>, Option<Seq<char>>)| define_text(d),
            ) =~= self@.public_defines.take(i - 1).map_values(
                |d: (Seq<char>, Option<Seq<char>>)| define_text(d),
            ).push(define_text(self@.public_defines[i - 1])));
        }
        assert(self@.public_defines.take(self.public_defines.len() as int) =~= self@.public_defines);
        prefixed_list("cargo::metadata=public_c_defines=", &texts)
    }

    /// The exported line `cargo::metadata=public_c_flags=...`: the public
    /// flags joined with `;`.
    pub fn export_public_c_flags_metadata(&self) -> (r: String)
        ensures
            r@ == "cargo::metadata=public_c_flags="@ + join_with(self@.public_flags, ';'),
    {
        prefixed_list("cargo::metadata=public_c_flags=", &self.public_flags)
    }

    /// All lines a build prints for dependent crates, in order: the link
    /// lines, then the exported libraries, include directories, definitions,
    /// flags, and the compiler's own include directories read from
    /// `compiler_output`.
    pub fn export_build_metadata(&self, lib_name: &str, compiler_output: &str) -> (r: Vec<String>)
        ensures
            strs(r@) == self@.public_libs.map_values(
                |l: Seq<char>| "cargo:rustc-link-lib=static="@ + l,
            ) + seq![
                "cargo::metadata=public_c_libs="@ + join_with(with_path(self@.public_libs, lib_name@), ';'),
                "cargo::metadata=public_c_includes="@ + join_with(
                    self@.public_includes.map_values(|d: Seq<char>| anchored(d, self@.manifest)),
                    ';',
                ),
                "cargo::metadata=public_c_defines="@ + join_with(
                    self@.public_defines.map_values(|d: (Seq<char>, Option<Seq<char>>)| define_text(d)),
                    ';',
                ),
                "cargo::metadata=public_c_flags="@ + join_with(self@.public_flags, ';'),
                "cargo::metadata=c_compiler_includes="@ + join_with(
                    listed_dirs(compiler_output@, "search starts here:"@, "End of search list."@),
                    ';',
                ),
            ],
    {
        proof {
            use_type_invariant(self);
        }
        let mut r = self.export_public_link_libs();
        let ghost links = strs(r@);
        let a = self.export_public_c_libs_metadata(lib_name);
        let b = self.export_public_c_includes_metadata();
        let c = self.export_public_c_defines_metadata();
        let d = self.export_public_c_flags_metadata();
        let e = export_c_compiler_includes_metadata(compiler_output);
        let ghost (av, bv, cv, dv, ev) = (a@, b@, c@, d@, e@);
        r.push(a);
        r.push(b);
        r.push(c);
        r.push(d);
        r.push(e);
        assert(strs(r@) =~= links + seq![av, bv, cv, dv, ev]);
        r
    }

    /// The sources to compile, in order: each with its absolute path (taken
    /// from the crate directory), its object file below `out_dir`, and its
    /// dependency file beside the object.
    pub fn compile_units(&self, out_dir: &str) -> (r: Vec<CompileUnit>)
        ensures
            r.len() == self@.sources.len(),
            forall|i: int|
                0 <= i < r.len() ==> {
                    let u = #[trigger] r@[i];
                    let src = self@.sources[i];
                    &&& u.index == i
                    &&& u.src_path@ == anchored(src, self@.manifest)
                    &&& u.obj_path@ == object_path(src, self@.manifest, out_dir@)
                    &&& u.dep_path@ == path_with_extension(u.obj_path@, "d"@)
                },
    {
        proof {
            lemma_literal_extensions();
        }
        let out = chars_of(out_dir);
        let mut r: Vec<CompileUnit> = Vec::new();
        let mut i: usize = 0;
        while i < self.sources.len()
            invariant
                0 <= i <= self.sources.len(),
                out@ == out_dir@,
                !"o"@.contains('/'),
                !"d"@.contains('/'),
                r.len() == i,
                forall|k: int|
                    0 <= k < i ==> {
                        let u = #[trigger] r@[k];
                        let src = self@.sources[k];
                        &&& u.index == k
                        &&& u.src_path@ == anchored(src, self@.manifest)
                        &&& u.obj_path@ == object_path(src, self@.manifest, out_dir@)
                        &&& u.dep_path@ == path_with_extension(u.obj_path@, "d"@)
                    },
            decreases self.sources.len() - i,
        {
            let src = self.sources[i].as_str();
            assert(self@.sources[i as int] == src@);
            let abs = if crate::paths::chars_absolute(&chars_of(src)) {
                owned(src)
            } else {
                join_paths_lexically(self.manifest_dir.as_str(), src)
            };
            let place = if is_external_source_path(src) {
                external_object_subpath(abs.as_str())
            } else {
                owned(src)
            };
            let with_o = with_extension(place.as_str(), "o");
            let obj = string_of(&join_chars(&out, &chars_of(with_o.as_str())));
            let dep = with_extension(obj.as_str(), "d");
            r.push(CompileUnit { index: i, src_path: abs, obj_path: obj, dep_path: dep });
            i = i + 1;
        }
        r
    }

    /// A `cc::Build` set up for this library: warnings and extra warnings
    /// off, the private then public flags, the public then private include
    /// directories, the public then private definitions, and nothing else
    /// changed from what `cc::Build::new` gives.
    pub fn create_configured_build(&self) -> (b: cc::Build)
        ensures
            cc_warnings(b) == Some(false),
            cc_extra_warnings(b) == Some(false),
            cc_rest_fresh(b),
            cc_flags(b) == self@.flags + self@.public_flags,
            cc_includes(b) == self@.public_includes + self@.includes,
            cc_defines(b) == self@.public_defines + self@.defines,
    {
        let mut b = cc_new();
        cc_set_warnings(&mut b, false);
        let mut i: usize = 0;
        while i < self.flags.len()
            invariant
                0 <= i <= self.flags.len(),
                cc_warnings(b) == Some(false),
                cc_extra_warnings(b) == Some(false),
                cc_rest_fresh(b),
                cc_flags(b) == self@.flags.take(i as int),
                cc_includes(b) == Seq::<Seq<char>>::empty(),
                cc_defines(b) == Seq::<(Seq<char>, Option<Seq<char>>)>::empty(),
            decreases self.flags.len() - i,
        {
            assert(self@.flags.take(i + 1) =~= self@.flags.take(i as int).push(self.flags@[i as int]@));
            cc_flag(&mut b, self.flags[i].as_str());
            i = i + 1;
        }
        assert(self@.flags.take(self.flags.len() as int) =~= self@.flags);
        let mut i: usize = 0;
        while i < self.public_flags.len()
            invariant
                0 <= i <= self.public_flags.len(),
                cc_warnings(b) == Some(false),
                cc_extra_warnings(b) == Some(false),
                cc_rest_fresh(b),
                cc_flags(b) == self@.flags + self@.public_flags.take(i as int),
                cc_includes(b) == Seq::<Seq<char>>::empty(),
                cc_defines(b) == Seq::<(Seq<char>, Option<Seq<char>>)>::empty(),
            decreases self.public_flags.len() - i,
        {
            assert(self@.flags + self@.public_flags.take(i + 1) =~= (self@.flags
                + self@.public_flags.take(i as int)).push(self.public_flags@[i as int]@));
            cc_flag(&mut b, self.public_flags[i].as_str());
            i = i + 1;
        }
        assert(self@.public_flags.take(self.public_flags.len() as int) =~= self@.public_flags);
        let mut i: usize = 0;
        while i < self.public_includes.len()
            invariant
                0 <= i <= self.public_includes.len(),
                cc_warnings(b) == Some(false),
                cc_extra_warnings(b) == Some(false),
                cc_rest_fresh(b),
                cc_flags(b) == self@.flags + self@.public_flags,
                cc_includes(b) == self@.public_includes.take(i as int),
                cc_defines(b) == Seq::<(Seq<char>, Option<Seq<char>>)>::empty(),
            decreases self.public_includes.len() - i,
        {
            assert(self@.public_includes.take(i + 1) =~= self@.public_includes.take(i as int).push(
                self.public_includes@[i as int]@,
            ));
            cc_include(&mut b, self.public_includes[i].as_str());
            i = i + 1;
        }
        assert(self@.public_includes.take(self.public_includes.len() as int) =~= self@.public_includes);
        let mut i: usize = 0;
        while i < self.includes.len()
            invariant
                0 <= i <= self.includes.len(),
                cc_warnings(b) == Some(false),
                cc_extra_warnings(b) == Some(false),
                cc_rest_fresh(b),
                cc_flags(b) == self@.flags + self@.public_flags,
                cc_includes(b) == self@.public_includes + self@.includes.take(i as int),
                cc_defines(b) == Seq::<(Seq<char>, Option<Seq<char>>)>::empty(),
            decreases self.includes.len() - i,
        {
            assert(self@.public_includes + self@.includes.take(i + 1) =~= (self@.public_includes
                + self@.includes.take(i as int)).push(self.includes@[i as int]@));
            cc_include(&mut b, self.includes[i].as_str());
            i = i + 1;
        }
        assert(self@.includes.take(self.includes.len() as int) =~= self@.includes);
        let mut i: usize = 0;
        while i < self.public_defines.len()
            invariant
                0 <= i <= self.public_defines.len(),
                cc_warnings(b) == Some(false),
                cc_extra_warnings(b) == Some(false),
                cc_rest_fresh(b),
                cc_flags(b) == self@.flags + self@.public_flags,
                cc_includes(b) == self@.public_includes + self@.includes,
                cc_defines(b) == self@.public_defines.take(i as int),
            decreases self.public_defines.len() - i,
        {
            let d = &self.public_defines[i];
            let v = match &d.1 {
                Some(x) => Some(x.as_str()),
                None => None,
            };
            assert(self@.public_defines.take(i + 1) =~= self@.public_defines.take(i as int).push(
                (d.0@, opt_str_chars(v)),
            ));
            cc_define(&mut b, d.0.as_str(), v);
            i = i + 1;
        }
        assert(self@.public_defines.take(self.public_defines.len() as int) =~= self@.public_defines);
        let mut i: usize = 0;
        while i < self.defines.len()
            invariant
                0 <= i <= self.defines.len(),
                cc_warnings(b) == Some(false),
                cc_extra_warnings(b) == Some(false),
                cc_rest_fresh(b),
                cc_flags(b) == self@.flags + self@.public_flags,
                cc_includes(b) == self@.public_includes + self@.includes,
                cc_defines(b) == self@.public_defines + self@.defines.take(i as int),
            decreases self.defines.len() - i,
        {
            let d = &self.defines[i];
            let v = match &d.1 {
                Some(x) => Some(x.as_str()),
                None => None,
            };
            assert(self@.public_defines + self@.defines.take(i + 1) =~= (self@.public_defines
                + self@.defines.take(i as int)).push((d.0@, opt_str_chars(v))));
            cc_define(&mut b, d.0.as_str(), v);
            i = i + 1;
        }
        assert(self@.defines.take(self.defines.len() as int) =~= self@.defines);
        b
    }

    /// How to preprocess `input` into `output` with this library's
    /// settings: `-E -DQSTR_PROCESSING <input> -o <output>`, reading
    /// `input` and writing `output`.
    pub fn preprocess_file(&self, input: &str, output: &str) -> (r: ToolRun)
        ensures
            strs(r.args@) == seq!["-E"@, "-DQSTR_PROCESSING"@, input@, "-o"@, output@],
            strs(r.inputs@) == seq![input@],
            strs(r.outputs@) == seq![output@],
    {
        let mut args: Vec<String> = Vec::new();
        args.push(owned("-E"));
        args.push(owned("-DQSTR_PROCESSING"));
        args.push(owned(input));
        args.push(owned("-o"));
        args.push(owned(output));
        let mut inputs: Vec<String> = Vec::new();
        inputs.push(owned(input));
        let mut outputs: Vec<String> = Vec::new();
        outputs.push(owned(output));
        assert(strs(args@) =~= seq!["-E"@, "-DQSTR_PROCESSING"@, input@, "-o"@, output@]);
        assert(strs(inputs@) =~= seq![input@]);
        assert(strs(outputs@) =~= seq![output@]);
        ToolRun { args, inputs, outputs }
    }

    /// How to extract MicroPython module definitions from each source, in
    /// order: preprocess the absolute source into the object path with the
    /// extension `upydef`, with `-E -DNO_QSTR -DN_X64 -DN_X86 -DN_THUMB`.
    pub fn upydef_runs(&self, out_dir: &str) -> (r: Vec<ToolRun>)
        ensures
            r.len() == self@.sources.len(),
            forall|i: int|
                0 <= i < r.len() ==> {
                    let run = #[trigger] r@[i];
                    let src = self@.sources[i];
                    let abs = anchored(src, self@.manifest);
                    let out = path_with_extension(
                        object_path(src, self@.manifest, out_dir@),
                        "upydef"@,
                    );
                    &&& strs(run.args@) == seq![
                        "-E"@,
                        "-DNO_QSTR"@,
                        "-DN_X64"@,
                        "-DN_X86"@,
                        "-DN_THUMB"@,
                        abs,
                        "-o"@,
                        out,
                    ]
                    &&& strs(run.inputs@) == seq![abs]
                    &&& strs(run.outputs@) == seq![out]
                },
    {
        proof {
            lemma_literal_extensions();
        }
        let units = self.compile_units(out_dir);
        let mut r: Vec<ToolRun> = Vec::new();
        let mut i: usize = 0;
        while i < units.len()
            invariant
                0 <= i <= units.len(),
                units.len() == self@.sources.len(),
                !"upydef"@.contains('/'),
                forall|k: int|
                    0 <= k < units.len() ==> {
                        let u = #[trigger] units@[k];
                        let src = self@.sources[k];
                        &&& u.src_path@ == anchored(src, self@.manifest)
                        &&& u.obj_path@ == object_path(src, self@.manifest, out_dir@)
                    },
                r.len() == i,
                forall|k: int|
                    0 <= k < i ==> {
                        let run = #[trigger] r@[k];
                        let src = self@.sources[k];
                        let abs = anchored(src, self@.manifest);
                        let out = path_with_extension(
                            object_path(src, self@.manifest, out_dir@),
                            "upydef"@,
                        );
                        &&& strs(run.args@) == seq![
                            "-E"@,
                            "-DNO_QSTR"@,
                            "-DN_X64"@,
                            "-DN_X86"@,
                            "-DN_THUMB"@,
                            abs,
                            "-o"@,
                            out,
                        ]
                        &&& strs(run.inputs@) == seq![abs]
                        &&& strs(run.outputs@) == seq![out]
                    },
            decreases units.len() - i,
        {
            let u = &units[i];
            let output = with_extension(u.obj_path.as_str(), "upydef");
            let mut args: Vec<String> = Vec::new();
            args.push(owned("-E"));
            args.push(owned("-DNO_QSTR"));
            args.push(owned("-DN_X64"));
            args.push(owned("-DN_X86"));
            args.push(owned("-DN_THUMB"));
            args.push(u.src_path.clone());
            args.push(owned("-o"));
            args.push(output.clone());
            let mut inputs: Vec<String> = Vec::new();
            inputs.push(u.src_path.clone());
            let mut outputs: Vec<String> = Vec::new();
            outputs.push(output);
            assert(strs(args@) =~= seq![
                "-E"@,
                "-DNO_QSTR"@,
                "-DN_X64"@,
                "-DN_X86"@,
                "-DN_THUMB"@,
                u.src_path@,
                "-o"@,
                outputs@[0]@,
            ]);
            assert(strs(inputs@) =~= seq![u.src_path@]);
            assert(strs(outputs@) =~= seq![outputs@[0]@]);
            r.push(ToolRun { args, inputs, outputs });
            i = i + 1;
        }
        r
    }
}

} // verus!
