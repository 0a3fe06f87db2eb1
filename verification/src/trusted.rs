//! Calls into code that Verus does not read: the `cc` and `pathdiff` crates,
//! and a few functions of `std`. Each item here states what the called code
//! does, as its source or documentation shows it; nothing here is proved.
use vstd::prelude::*;
use crate::paths::is_absolute;

verus! {

/// The characters of an optional string slice.
pub open spec fn opt_str_chars(o: Option<&str>) -> Option<Seq<char>> {
    match o {
        Some(s) => Some(s@),
        None => None,
    }
}

/// The characters of an optional string.
pub open spec fn opt_string_chars(o: Option<String>) -> Option<Seq<char>> {
    match o {
        Some(s) => Some(s@),
        None => None,
    }
}

// ---------------------------------------------------------------- pathdiff

/// What `pathdiff::diff_paths(path, base)` returns, as text.
pub uninterp spec fn path_difference(path: Seq<char>, base: Seq<char>) -> Option<Seq<char>>;

/// Calls `pathdiff::diff_paths`, the path that leads from `base` to `path`.
/// Its result is named `path_difference`; beyond that, the contract states
/// the first branch of its source: when exactly one of the two paths is
/// absolute, the result is `path` itself if that one is `path`, and none
/// otherwise. What it computes when both are absolute or both relative (a
/// walk over their components) is left to the name.
#[verifier::external_body]
pub(crate) fn diff_paths(path: &str, base: &str) -> (r: Option<String>)
    ensures
        opt_string_chars(r) == path_difference(path@, base@),
        is_absolute(path@) && !is_absolute(base@) ==> opt_string_chars(r) == Some(path@),
        !is_absolute(path@) && is_absolute(base@) ==> opt_string_chars(r) == None::<Seq<char>>,
{
    match pathdiff::diff_paths(path, base) {
        Some(p) => Some(p.to_string_lossy().into_owned()),
        None => None,
    }
}

// ---------------------------------------------------------------------- cc

#[verifier::external_type_specification]
#[verifier::external_body]
pub struct ExBuild(cc::Build);

/// The compiler flags a `cc::Build` holds, in the order they were added.
pub uninterp spec fn cc_flags(b: cc::Build) -> Seq<Seq<char>>;

/// The include directories a `cc::Build` holds, in the order they were added.
pub uninterp spec fn cc_includes(b: cc::Build) -> Seq<Seq<char>>;

/// The preprocessor definitions a `cc::Build` holds, in the order they were
/// added.
pub uninterp spec fn cc_defines(b: cc::Build) -> Seq<(Seq<char>, Option<Seq<char>>)>;

/// The warnings setting of a `cc::Build` (its `warnings` field), if one was
/// made.
pub uninterp spec fn cc_warnings(b: cc::Build) -> Option<bool>;

/// The extra-warnings setting of a `cc::Build` (its `extra_warnings`
/// field), if one was made.
pub uninterp spec fn cc_extra_warnings(b: cc::Build) -> Option<bool>;

/// Whether every other setting of a `cc::Build` (all its fields but the
/// include directories, definitions, flags, warnings and extra warnings)
/// still holds what `cc::Build::new` gives it.
pub uninterp spec fn cc_rest_fresh(b: cc::Build) -> bool;

/// Calls `cc::Build::new`: a builder with no flags, include directories or
/// definitions, no warnings or extra-warnings setting, and every other
/// setting as `new` gives it.
#[verifier::external_body]
pub(crate) fn cc_new() -> (b: cc::Build)
    ensures
        cc_flags(b) == Seq::<Seq<char>>::empty(),
        cc_includes(b) == Seq::<Seq<char>>::empty(),
        cc_defines(b) == Seq::<(Seq<char>, Option<Seq<char>>)>::empty(),
        cc_warnings(b) == None::<bool>,
        cc_extra_warnings(b) == None::<bool>,
        cc_rest_fresh(b),
{
    cc::Build::new()
}

/// Calls `cc::Build::warnings`, which records the setting for warnings and
/// extra warnings alike and changes no other setting.
#[verifier::external_body]
pub(crate) fn cc_set_warnings(b: &mut cc::Build, on: bool)
    ensures
        cc_warnings(*final(b)) == Some(on),
        cc_extra_warnings(*final(b)) == Some(on),
        cc_rest_fresh(*final(b)) == cc_rest_fresh(*old(b)),
        cc_flags(*final(b)) == cc_flags(*old(b)),
        cc_includes(*final(b)) == cc_includes(*old(b)),
        cc_defines(*final(b)) == cc_defines(*old(b)),
{
    b.warnings(on);
}

/// Calls `cc::Build::flag`, which appends `flag` to the flags and changes
/// no other setting.
#[verifier::external_body]
pub(crate) fn cc_flag(b: &mut cc::Build, flag: &str)
    ensures
        cc_flags(*final(b)) == cc_flags(*old(b)).push(flag@),
        cc_includes(*final(b)) == cc_includes(*old(b)),
        cc_defines(*final(b)) == cc_defines(*old(b)),
        cc_warnings(*final(b)) == cc_warnings(*old(b)),
        cc_extra_warnings(*final(b)) == cc_extra_warnings(*old(b)),
        cc_rest_fresh(*final(b)) == cc_rest_fresh(*old(b)),
{
    b.flag(flag);
}

/// Calls `cc::Build::includes` with the one directory `dir`; it hands each
/// directory to the method that appends it to the include directories, and
/// changes no other setting.
#[verifier::external_body]
pub(crate) fn cc_include(b: &mut cc::Build, dir: &str)
    ensures
        cc_includes(*final(b)) == cc_includes(*old(b)).push(dir@),
        cc_flags(*final(b)) == cc_flags(*old(b)),
        cc_defines(*final(b)) == cc_defines(*old(b)),
        cc_warnings(*final(b)) == cc_warnings(*old(b)),
        cc_extra_warnings(*final(b)) == cc_extra_warnings(*old(b)),
        cc_rest_fresh(*final(b)) == cc_rest_fresh(*old(b)),
{
    b.includes([dir]);
}

/// Calls `cc::Build::define`, which appends the pair `(var, val)` to the
/// definitions and changes no other setting.
#[verifier::external_body]
pub(crate) fn cc_define(b: &mut cc::Build, var: &str, val: Option<&str>)
    ensures
        cc_defines(*final(b)) == cc_defines(*old(b)).push((var@, opt_str_chars(val))),
        cc_flags(*final(b)) == cc_flags(*old(b)),
        cc_includes(*final(b)) == cc_includes(*old(b)),
        cc_warnings(*final(b)) == cc_warnings(*old(b)),
        cc_extra_warnings(*final(b)) == cc_extra_warnings(*old(b)),
        cc_rest_fresh(*final(b)) == cc_rest_fresh(*old(b)),
{
    b.define(var, val);
}

// --------------------------------------------------------------------- std

/// Calls `String::push`, which appends the character `c` to `s`.
#[verifier::external_body]
pub(crate) fn push_char(s: &mut String, c: char)
    ensures
        final(s)@ == old(s)@.push(c),
{
    s.push(c);
}

/// What `str::to_uppercase` returns for `s`.
pub uninterp spec fn uppercase(s: Seq<char>) -> Seq<char>;

/// Calls `str::to_uppercase`. The Unicode case mapping it applies is left
/// to the name `uppercase`.
#[verifier::external_body]
pub(crate) fn to_uppercase(s: &str) -> (r: String)
    ensures
        r@ == uppercase(s@),
{
    s.to_uppercase()
}

/// What `Path::with_extension` returns for a path and an extension.
pub uninterp spec fn path_with_extension(path: Seq<char>, ext: Seq<char>) -> Seq<char>;

/// Calls `Path::with_extension`: `path` with its file name's extension
/// replaced by `ext`. The exact text, for paths with trailing separators or
/// without a file name, is left to the name `path_with_extension`. The
/// extension must not hold a separator, on which `std` panics.
#[verifier::external_body]
pub(crate) fn with_extension(path: &str, ext: &str) -> (r: String)
    requires
        !ext@.contains('/'),
    ensures
        r@ == path_with_extension(path@, ext@),
{
    std::path::Path::new(path).with_extension(ext).to_string_lossy().into_owned()
}

} // verus!
