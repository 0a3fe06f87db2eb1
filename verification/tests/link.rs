use cbuild::link::{emit_linker_args, feature_to_env_name, has_feature, LinkerArgs, MissingChoice};

fn complete(r: LinkerArgs) -> Vec<String> {
    match r {
        LinkerArgs::Complete(lines) => lines,
        LinkerArgs::Stopped { .. } => panic!("linking stopped"),
    }
}

fn stopped(r: LinkerArgs) -> (Vec<String>, MissingChoice) {
    match r {
        LinkerArgs::Complete(_) => panic!("linking did not stop"),
        LinkerArgs::Stopped { lines, missing } => (lines, missing),
    }
}

fn env(v: &[&str]) -> Vec<String> {
    v.iter().map(|s| s.to_string()).collect()
}

#[test]
fn feature_names_become_variable_names() {
    assert_eq!(feature_to_env_name("model_t3w1"), "MODEL_T3W1");
    assert_eq!(feature_to_env_name("foo-bar.baz9"), "FOO_BAR_BAZ9");
    assert_eq!(feature_to_env_name("é+Z"), "__Z");
    assert_eq!(feature_to_env_name(""), "");
}

#[test]
fn feature_name_is_already_normal_after_one_pass() {
    let once = feature_to_env_name("mcu-stm32u5g.x");
    assert_eq!(feature_to_env_name(&once), once);
    assert!(once.chars().all(|c| c.is_ascii_uppercase() || c.is_ascii_digit() || c == '_'));
}

#[test]
fn features_are_read_from_variable_names() {
    let vars = env(&["PATH", "CARGO_FEATURE_MODEL_T3W1", "CARGO_FEATURE_SECMON_LAYOUT"]);
    assert!(has_feature(&vars, "model_t3w1"));
    assert!(has_feature(&vars, "secmon-layout"));
    assert!(!has_feature(&vars, "emulator"));
    assert!(!has_feature(&[], "emulator"));
}

#[test]
fn emulator_links_sdl_and_system_libraries() {
    let lines = complete(emit_linker_args("kernel", &env(&["CARGO_FEATURE_EMULATOR", "CARGO_FEATURE_MODEL_T2T1"]), "/out"));
    assert_eq!(lines.len(), 10);
    assert_eq!(lines[2], "cargo:rustc-link-lib=SDL2");
    assert_eq!(lines[4], "cargo:rustc-link-arg=-Wl,-Bdynamic");
    assert_eq!(lines[9], "cargo:rustc-link-lib=pthread");
}

#[test]
fn device_links_model_and_mcu_scripts() {
    let lines = complete(emit_linker_args(
        "kernel",
        &env(&["CARGO_FEATURE_MODEL_T3T1", "CARGO_FEATURE_MCU_STM32U5G", "CARGO_FEATURE_SECMON_LAYOUT"]),
        "/out",
    ));
    assert_eq!(
        lines,
        vec![
            "cargo:rustc-link-arg=-Tmodels/T3T1/memory_secmon.ld",
            "cargo:rustc-link-arg=-Tsys/linker/stm32u5g/kernel.ld",
            "cargo:rustc-link-arg=-Wl,-Map=/out/kernel.map",
            "cargo:rustc-link-arg=-Wl,--gc-sections",
            "cargo:rustc-link-lib=c_nano",
            "cargo:rustc-link-lib=m",
            "cargo:rustc-link-lib=gcc",
        ]
    );
}

#[test]
fn first_model_and_mcu_win() {
    let lines = complete(emit_linker_args(
        "boot",
        &env(&["CARGO_FEATURE_MODEL_T2T1", "CARGO_FEATURE_MODEL_T3B1", "CARGO_FEATURE_MCU_STM32F4", "CARGO_FEATURE_MCU_STM32U58"]),
        "/o/",
    ));
    assert_eq!(lines[0], "cargo:rustc-link-arg=-Tmodels/T3B1/memory.ld");
    assert_eq!(lines[1], "cargo:rustc-link-arg=-Tsys/linker/stm32u58/boot.ld");
    assert_eq!(lines[2], "cargo:rustc-link-arg=-Wl,-Map=/o/boot.map");
}

#[test]
fn missing_model_gives_nothing() {
    let (lines, missing) = stopped(emit_linker_args("kernel", &env(&["CARGO_FEATURE_MCU_STM32F4"]), "/out"));
    assert_eq!(missing, MissingChoice::Model);
    assert!(lines.is_empty());
}

#[test]
fn missing_mcu_gives_only_the_model_line() {
    let (lines, missing) = stopped(emit_linker_args("kernel", &env(&["CARGO_FEATURE_MODEL_T2B1"]), "/out"));
    assert_eq!(missing, MissingChoice::Mcu);
    assert_eq!(lines, vec!["cargo:rustc-link-arg=-Tmodels/T2B1/memory.ld"]);
}
