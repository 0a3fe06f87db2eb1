//! The linker arguments for firmware images and the emulator.
use vstd::prelude::*;
use crate::text::{chars_of, strs};
use crate::trusted::push_char;

verus! {

/// Whether `c` is an ASCII letter or digit.
pub open spec fn is_ascii_alnum(c: char) -> bool {
    ('a' <= c && c <= 'z') || ('A' <= c && c <= 'Z') || ('0' <= c && c <= '9')
}

/// The character that stands for `c` in an environment variable name: an
/// ASCII letter in upper case, a digit as it is, anything else `_`.
pub open spec fn env_char(c: char) -> char {
    if 'a' <= c && c <= 'z' {
        ((c as u32) - 32) as char
    } else if is_ascii_alnum(c) {
        c
    } else {
        '_'
    }
}

/// The part of the environment variable name that cargo uses for the
/// feature `feature`.
pub open spec fn feature_env_name(feature: Seq<char>) -> Seq<char> {
    feature.map_values(|c: char| env_char(c))
}

/// The part of the environment variable name that cargo uses for a
/// feature: its ASCII letters in upper case, its digits, and `_` for every
/// other character.
pub fn feature_to_env_name(feature: &str) -> (r: String)
    ensures
        r@ == feature_env_name(feature@),
{
    let v = chars_of(feature);
    let mut r = String::new();
    let mut i: usize = 0;
    while i < v.len()
        invariant
            0 <= i <= v.len(),
            v@ == feature@,
            r@ == feature_env_name(feature@).take(i as int),
        decreases v.len() - i,
    {
        let c = v[i];
        let e = if 'a' <= c && c <= 'z' {
            ((c as u8) - 32) as char
        } else if ('A' <= c && c <= 'Z') || ('0' <= c && c <= '9') {
            c
        } else {
            '_'
        };
        assert(e == env_char(c));
        push_char(&mut r, e);
        i = i + 1;
        assert(r@ =~= feature_env_name(feature@).take(i as int));
    }
    assert(feature_env_name(feature@).take(v.len() as int) =~= feature_env_name(feature@));
    r
}

/// Whether the feature `feature` is on: cargo sets the variable
/// `CARGO_FEATURE_<NAME>` for it, and `env_vars` names the variables set.
pub open spec fn feature_on(env_vars: Seq<Seq<char>>, feature: Seq<char>) -> bool {
    env_vars.contains("CARGO_FEATURE_"@ + feature_env_name(feature))
}

/// Whether the feature `feature` is on, among the variables `env_vars`.
pub fn has_feature(env_vars: &[String], feature: &str) -> (r: bool)
    ensures
        r == feature_on(strs(env_vars@), feature@),
{
    let mut name = "CARGO_FEATURE_".to_owned();
    let part = feature_to_env_name(feature);
    name.append(part.as_str());
    let mut i: usize = 0;
    while i < env_vars.len()
        invariant
            0 <= i <= env_vars.len(),
            name@ == "CARGO_FEATURE_"@ + feature_env_name(feature@),
            forall|j: int| 0 <= j < i ==> strs(env_vars@)[j] != name@,
        decreases env_vars.len() - i,
    {
        if env_vars[i].eq(&name) {
            assert(strs(env_vars@)[i as int] == name@);
            return true;
        }
        i = i + 1;
    }
    false
}

/// The memory layout script of the model whose feature is on, without its
/// `.ld` ending and layout suffix; the first of T3W1, T3T1, T3B1, T2B1,
/// T2T1 that is on.
pub open spec fn model_script(env: Seq<Seq<char>>) -> Option<Seq<char>> {
    if feature_on(env, "model_t3w1"@) {
        Some("models/T3W1/memory"@)
    } else if feature_on(env, "model_t3t1"@) {
        Some("models/T3T1/memory"@)
    } else if feature_on(env, "model_t3b1"@) {
        Some("models/T3B1/memory"@)
    } else if feature_on(env, "model_t2b1"@) {
        Some("models/T2B1/memory"@)
    } else if feature_on(env, "model_t2t1"@) {
        Some("models/T2T1/memory"@)
    } else {
        None
    }
}

/// The linker script folder of the MCU whose feature is on; the first of
/// STM32U5G, STM32U58, STM32F4 that is on.
pub open spec fn mcu_script_dir(env: Seq<Seq<char>>) -> Option<Seq<char>> {
    if feature_on(env, "mcu_stm32u5g"@) {
        Some("sys/linker/stm32u5g/"@)
    } else if feature_on(env, "mcu_stm32u58"@) {
        Some("sys/linker/stm32u58/"@)
    } else if feature_on(env, "mcu_stm32f4"@) {
        Some("sys/linker/stm32f4/"@)
    } else {
        None
    }
}

/// The lines that link the emulator.
pub open spec fn emulator_lines() -> Seq<Seq<char>> {
    seq![
        "cargo:rustc-link-search=/nix/store/rmz7imacazbbf4dqgsb9wwbkh0nx1jkh-SDL2-2.26.4/lib"@,
        "cargo:rustc-link-search=/nix/store/frhqd181g2g6l468g1gzx055dw0y560n-SDL2_image-2.6.3/lib"@,
        "cargo:rustc-link-lib=SDL2"@,
        "cargo:rustc-link-lib=SDL2_image"@,
        "cargo:rustc-link-arg=-Wl,-Bdynamic"@,
        "cargo:rustc-link-lib=c"@,
        "cargo:rustc-link-lib=gcc"@,
        "cargo:rustc-link-lib=m"@,
        "cargo:rustc-link-lib=dl"@,
        "cargo:rustc-link-lib=pthread"@,
    ]
}

/// The lines that link a firmware image of kind `module_type` for the
/// model and MCU whose features are on, given the model script `model`.
pub open spec fn device_lines(
    module_type: Seq<char>,
    env: Seq<Seq<char>>,
    out_dir: Seq<char>,
    model: Seq<char>,
    mcu: Seq<char>,
) -> Seq<Seq<char>> {
    let suffix = if feature_on(env, "secmon_layout"@) { "_secmon"@ } else { Seq::<char>::empty() };
    seq![
        "cargo:rustc-link-arg=-T"@ + model + suffix + ".ld"@,
        "cargo:rustc-link-arg=-T"@ + mcu + module_type + ".ld"@,
        "cargo:rustc-link-arg=-Wl,-Map="@ + crate::paths::path_join(out_dir, module_type + ".map"@),
        "cargo:rustc-link-arg=-Wl,--gc-sections"@,
        "cargo:rustc-link-lib=c_nano"@,
        "cargo:rustc-link-lib=m"@,
        "cargo:rustc-link-lib=gcc"@,
    ]
}

/// The feature choice that none of the features made.
#[derive(Clone, Copy, Debug, PartialEq, Eq, Structural)]
pub enum MissingChoice {
    /// No model feature is on.
    Model,
    /// No MCU feature is on.
    Mcu,
}

/// What linking a module gives: every line cargo is to be given, or, where
/// the features leave the model or the MCU unchosen, the lines given before
/// that choice and which choice is missing. The build cannot go on then.
pub enum LinkerArgs {
    Complete(Vec<String>),
    Stopped { lines: Vec<String>, missing: MissingChoice },
}

/// The lines of `r` and, if it stopped, the missing choice.
pub open spec fn linker_view(r: LinkerArgs) -> (Seq<Seq<char>>, Option<MissingChoice>) {
    match r {
        LinkerArgs::Complete(lines) => (strs(lines@), None),
        LinkerArgs::Stopped { lines, missing } => (strs(lines@), Some(missing)),
    }
}

/// What linking a module of kind `module_type` gives, for the features on
/// among `env` and the output directory `out_dir`: the emulator's lines
/// where that feature is on; else the device's lines, stopping with no
/// line when no model is chosen, and after the model's line when no MCU is.
pub open spec fn linker_outcome(
    module_type: Seq<char>,
    env: Seq<Seq<char>>,
    out_dir: Seq<char>,
) -> (Seq<Seq<char>>, Option<MissingChoice>) {
    if feature_on(env, "emulator"@) {
        (emulator_lines(), None)
    } else {
        match (model_script(env), mcu_script_dir(env)) {
            (Some(model), Some(mcu)) => (device_lines(module_type, env, out_dir, model, mcu), None),
            (Some(model), None) => (
                device_lines(module_type, env, out_dir, model, Seq::<char>::empty()).take(1),
                Some(MissingChoice::Mcu),
            ),
            (None, _) => (Seq::<Seq<char>>::empty(), Some(MissingChoice::Model)),
        }
    }
}

/// A string holding `a` followed by `b`.
fn concat2(a: &str, b: &str) -> (r: String)
    ensures
        r@ == a@ + b@,
{
    let mut r = a.to_owned();
    r.append(b);
    r
}

/// The lines that link a module of kind `module_type`, for the features
/// that are on among the variables `env_vars`, with the link map written
/// into `out_dir`. For the emulator, the SDL and system libraries; for a
/// device, the memory layout of the model (the secure-monitor layout where
/// that feature is on), the MCU's script for the module kind, the map file,
/// section garbage collection and the C runtime. Where no model or no MCU
/// feature is on, it stops there, as `linker_outcome` says.
pub fn emit_linker_args(module_type: &str, env_vars: &[String], out_dir: &str) -> (r: LinkerArgs)
    ensures
        linker_view(r) == linker_outcome(module_type@, strs(env_vars@), out_dir@),
{
    let ghost env = strs(env_vars@);
    let mut lines: Vec<String> = Vec::new();
    if has_feature(env_vars, "emulator") {
        lines.push("cargo:rustc-link-search=/nix/store/rmz7imacazbbf4dqgsb9wwbkh0nx1jkh-SDL2-2.26.4/lib".to_owned());
        lines.push("cargo:rustc-link-search=/nix/store/frhqd181g2g6l468g1gzx055dw0y560n-SDL2_image-2.6.3/lib".to_owned());
        lines.push("cargo:rustc-link-lib=SDL2".to_owned());
        lines.push("cargo:rustc-link-lib=SDL2_image".to_owned());
        lines.push("cargo:rustc-link-arg=-Wl,-Bdynamic".to_owned());
        lines.push("cargo:rustc-link-lib=c".to_owned());
        lines.push("cargo:rustc-link-lib=gcc".to_owned());
        lines.push("cargo:rustc-link-lib=m".to_owned());
        lines.push("cargo:rustc-link-lib=dl".to_owned());
        lines.push("cargo:rustc-link-lib=pthread".to_owned());
        assert(strs(lines@) =~= emulator_lines());
        return LinkerArgs::Complete(lines);
    }
    let suffix = if has_feature(env_vars, "secmon_layout") { "_secmon" } else { "" };
    proof {
        reveal_strlit("");
    }
    let model = if has_feature(env_vars, "model_t3w1") {
        "models/T3W1/memory"
    } else if has_feature(env_vars, "model_t3t1") {
        "models/T3T1/memory"
    } else if has_feature(env_vars, "model_t3b1") {
        "models/T3B1/memory"
    } else if has_feature(env_vars, "model_t2b1") {
        "models/T2B1/memory"
    } else if has_feature(env_vars, "model_t2t1") {
        "models/T2T1/memory"
    } else {
        assert(model_script(env) is None);
        assert(strs(lines@) =~= Seq::<Seq<char>>::empty());
        return LinkerArgs::Stopped { lines, missing: MissingChoice::Model };
    };
    assert(model_script(env) == Some(model@));
    let mut first = concat2("cargo:rustc-link-arg=-T", model);
    first.append(suffix);
    first.append(".ld");
    lines.push(first);
    let ghost l1 = lines@[0]@;
    let mcu = if has_feature(env_vars, "mcu_stm32u5g") {
        "sys/linker/stm32u5g/"
    } else if has_feature(env_vars, "mcu_stm32u58") {
        "sys/linker/stm32u58/"
    } else if has_feature(env_vars, "mcu_stm32f4") {
        "sys/linker/stm32f4/"
    } else {
        assert(mcu_script_dir(env) is None);
        assert(strs(lines@) =~= device_lines(
            module_type@,
            env,
            out_dir@,
            model@,
            Seq::<char>::empty(),
        ).take(1));
        return LinkerArgs::Stopped { lines, missing: MissingChoice::Mcu };
    };
    assert(mcu_script_dir(env) == Some(mcu@));
    let mut second = concat2("cargo:rustc-link-arg=-T", mcu);
    second.append(module_type);
    second.append(".ld");
    lines.push(second);
    let map_name = concat2(module_type, ".map");
    let map_path = crate::text::string_of(
        &crate::paths::join_chars(&chars_of(out_dir), &chars_of(map_name.as_str())),
    );
    let third = concat2("cargo:rustc-link-arg=-Wl,-Map=", map_path.as_str());
    lines.push(third);
    lines.push("cargo:rustc-link-arg=-Wl,--gc-sections".to_owned());
    lines.push("cargo:rustc-link-lib=c_nano".to_owned());
    lines.push("cargo:rustc-link-lib=m".to_owned());
    lines.push("cargo:rustc-link-lib=gcc".to_owned());
    assert(strs(lines@) =~= device_lines(module_type@, env, out_dir@, model@, mcu@));
    LinkerArgs::Complete(lines)
}

/// Whether `c` may stand in a feature's variable name: an upper-case ASCII
/// letter, a digit, or `_`.
pub open spec fn is_env_name_char(c: char) -> bool {
    ('A' <= c && c <= 'Z') || ('0' <= c && c <= '9') || c == '_'
}

/// A feature's variable name has one character for each character of the
/// feature, each an upper-case letter, a digit or `_`; and naming it again
/// changes nothing.
pub proof fn lemma_feature_env_name_normal(feature: Seq<char>)
    ensures
        feature_env_name(feature).len() == feature.len(),
        forall|i: int|
            0 <= i < feature.len() ==> is_env_name_char(#[trigger] feature_env_name(feature)[i]),
        feature_env_name(feature_env_name(feature)) == feature_env_name(feature),
{
    let n = feature_env_name(feature);
    assert forall|i: int| 0 <= i < feature.len() implies is_env_name_char(#[trigger] n[i])
        && env_char(n[i]) == n[i] by {
        let c = feature[i];
        assert(n[i] == env_char(c));
        if 'a' <= c && c <= 'z' {
            assert(((c as u32) - 32) as char == env_char(c));
            assert('A' <= env_char(c) && env_char(c) <= 'Z');
        }
    }
    assert(feature_env_name(n) =~= n);
}

/// The models whose features choose a memory layout, in the order in which
/// they win over each other.
pub open spec fn model_names() -> Seq<Seq<char>> {
    seq!["t3w1"@, "t3t1"@, "t3b1"@, "t2b1"@, "t2t1"@]
}

/// Whether `model_<names[k]>` is on and no feature of a model before it in
/// `names` is.
pub open spec fn first_on(env: Seq<Seq<char>>, prefix: Seq<char>, names: Seq<Seq<char>>, k: int) -> bool {
    &&& 0 <= k < names.len()
    &&& feature_on(env, prefix + names[k])
    &&& forall|i: int| 0 <= i < k ==> !feature_on(env, prefix + #[trigger] names[i])
}

proof fn lemma_model_literal(x: Seq<char>, feature: Seq<char>, folder: Seq<char>)
    requires
        x.len() == 4,
        feature.len() == 10,
        folder.len() == 18,
        forall|k: int| 0 <= k < 6 ==> feature[k] == "model_"@[k],
        forall|k: int| 0 <= k < 4 ==> feature[6 + k] == x[k],
        forall|k: int| 0 <= k < 7 ==> folder[k] == "models/"@[k],
        forall|k: int| 0 <= k < 4 ==> folder[7 + k] == env_char(x[k]),
        forall|k: int| 0 <= k < 7 ==> folder[11 + k] == "/memory"@[k],
        "model_"@.len() == 6,
        "/memory"@.len() == 7,
        "models/"@.len() == 7,
    ensures
        "model_"@ + x == feature,
        "models/"@ + feature_env_name(x) + "/memory"@ == folder,
{
    assert("model_"@ + x =~= feature);
    assert("models/"@ + feature_env_name(x) + "/memory"@ =~= folder);
}

proof fn lemma_model_literals()
    ensures
        "model_"@ + "t3w1"@ == "model_t3w1"@,
        "model_"@ + "t3t1"@ == "model_t3t1"@,
        "model_"@ + "t3b1"@ == "model_t3b1"@,
        "model_"@ + "t2b1"@ == "model_t2b1"@,
        "model_"@ + "t2t1"@ == "model_t2t1"@,
        "models/"@ + feature_env_name("t3w1"@) + "/memory"@ == "models/T3W1/memory"@,
        "models/"@ + feature_env_name("t3t1"@) + "/memory"@ == "models/T3T1/memory"@,
        "models/"@ + feature_env_name("t3b1"@) + "/memory"@ == "models/T3B1/memory"@,
        "models/"@ + feature_env_name("t2b1"@) + "/memory"@ == "models/T2B1/memory"@,
        "models/"@ + feature_env_name("t2t1"@) + "/memory"@ == "models/T2T1/memory"@,
{
    reveal_strlit("model_");
    reveal_strlit("models/");
    reveal_strlit("/memory");
    reveal_strlit("t3w1");
    reveal_strlit("t3t1");
    reveal_strlit("t3b1");
    reveal_strlit("t2b1");
    reveal_strlit("t2t1");
    reveal_strlit("model_t3w1");
    reveal_strlit("model_t3t1");
    reveal_strlit("model_t3b1");
    reveal_strlit("model_t2b1");
    reveal_strlit("model_t2t1");
    reveal_strlit("models/T3W1/memory");
    reveal_strlit("models/T3T1/memory");
    reveal_strlit("models/T3B1/memory");
    reveal_strlit("models/T2B1/memory");
    reveal_strlit("models/T2T1/memory");
    assert(env_char('t') == 'T');
    assert(env_char('w') == 'W');
    assert(env_char('b') == 'B');
    assert(env_char('1') == '1');
    assert(env_char('2') == '2');
    assert(env_char('3') == '3');
    lemma_model_literal("t3w1"@, "model_t3w1"@, "models/T3W1/memory"@);
    lemma_model_literal("t3t1"@, "model_t3t1"@, "models/T3T1/memory"@);
    lemma_model_literal("t3b1"@, "model_t3b1"@, "models/T3B1/memory"@);
    lemma_model_literal("t2b1"@, "model_t2b1"@, "models/T2B1/memory"@);
    lemma_model_literal("t2t1"@, "model_t2t1"@, "models/T2T1/memory"@);
}

/// A device image takes its memory layout from its own model's folder: for
/// a device build where `model_<x>` is on and no model before `x` in
/// `model_names` is, the first line links `models/<X>/memory.ld` (`X` being
/// `x` in upper case), or `memory_secmon.ld` where the secure-monitor layout
/// is on; whether or not an MCU feature is on.
pub proof fn lemma_model_layout_from_own_folder(
    module_type: Seq<char>,
    env: Seq<Seq<char>>,
    out_dir: Seq<char>,
    k: int,
)
    requires
        first_on(env, "model_"@, model_names(), k),
        !feature_on(env, "emulator"@),
    ensures
        linker_outcome(module_type, env, out_dir).0.len() > 0,
        linker_outcome(module_type, env, out_dir).0[0] == "cargo:rustc-link-arg=-T"@ + (
        "models/"@ + feature_env_name(model_names()[k]) + "/memory"@) + (if feature_on(
            env,
            "secmon_layout"@,
        ) {
            "_secmon"@
        } else {
            Seq::<char>::empty()
        }) + ".ld"@,
{
    lemma_model_literals();
    let m = model_names();
    if k >= 1 {
        assert(!feature_on(env, "model_"@ + m[0]));
    }
    if k >= 2 {
        assert(!feature_on(env, "model_"@ + m[1]));
    }
    if k >= 3 {
        assert(!feature_on(env, "model_"@ + m[2]));
    }
    if k >= 4 {
        assert(!feature_on(env, "model_"@ + m[3]));
    }
    assert(model_script(env) == Some("models/"@ + feature_env_name(m[k]) + "/memory"@));
}

/// The MCUs whose features choose a linker script folder, in the order in
/// which they win over each other.
pub open spec fn mcu_names() -> Seq<Seq<char>> {
    seq!["stm32u5g"@, "stm32u58"@, "stm32f4"@]
}

proof fn lemma_mcu_literals()
    ensures
        "mcu_"@ + "stm32u5g"@ == "mcu_stm32u5g"@,
        "mcu_"@ + "stm32u58"@ == "mcu_stm32u58"@,
        "mcu_"@ + "stm32f4"@ == "mcu_stm32f4"@,
        "sys/linker/"@ + "stm32u5g"@ + "/"@ == "sys/linker/stm32u5g/"@,
        "sys/linker/"@ + "stm32u58"@ + "/"@ == "sys/linker/stm32u58/"@,
        "sys/linker/"@ + "stm32f4"@ + "/"@ == "sys/linker/stm32f4/"@,
{
    reveal_strlit("mcu_");
    reveal_strlit("stm32u5g");
    reveal_strlit("stm32u58");
    reveal_strlit("stm32f4");
    reveal_strlit("mcu_stm32u5g");
    reveal_strlit("mcu_stm32u58");
    reveal_strlit("mcu_stm32f4");
    reveal_strlit("sys/linker/");
    reveal_strlit("/");
    reveal_strlit("sys/linker/stm32u5g/");
    reveal_strlit("sys/linker/stm32u58/");
    reveal_strlit("sys/linker/stm32f4/");
    assert("mcu_"@ + "stm32u5g"@ =~= "mcu_stm32u5g"@);
    assert("mcu_"@ + "stm32u58"@ =~= "mcu_stm32u58"@);
    assert("mcu_"@ + "stm32f4"@ =~= "mcu_stm32f4"@);
    assert("sys/linker/"@ + "stm32u5g"@ + "/"@ =~= "sys/linker/stm32u5g/"@);
    assert("sys/linker/"@ + "stm32u58"@ + "/"@ =~= "sys/linker/stm32u58/"@);
    assert("sys/linker/"@ + "stm32f4"@ + "/"@ =~= "sys/linker/stm32f4/"@);
}

/// A device image takes its linker script from its own MCU's folder: for a
/// device build with a model chosen, where `mcu_<y>` is on and no MCU
/// before `y` in `mcu_names` is, the build completes and its second line
/// links `sys/linker/<y>/<module_type>.ld`.
pub proof fn lemma_mcu_script_from_own_folder(
    module_type: Seq<char>,
    env: Seq<Seq<char>>,
    out_dir: Seq<char>,
    k: int,
)
    requires
        model_script(env) is Some,
        first_on(env, "mcu_"@, mcu_names(), k),
        !feature_on(env, "emulator"@),
    ensures
        linker_outcome(module_type, env, out_dir).1 is None,
        linker_outcome(module_type, env, out_dir).0.len() > 1,
        linker_outcome(module_type, env, out_dir).0[1] == "cargo:rustc-link-arg=-T"@ + (
        "sys/linker/"@ + mcu_names()[k] + "/"@) + module_type + ".ld"@,
{
    lemma_mcu_literals();
    let m = mcu_names();
    if k >= 1 {
        assert(!feature_on(env, "mcu_"@ + m[0]));
    }
    if k >= 2 {
        assert(!feature_on(env, "mcu_"@ + m[1]));
    }
    assert(mcu_script_dir(env) == Some("sys/linker/"@ + m[k] + "/"@));
}

} // verus!
