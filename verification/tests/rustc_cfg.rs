use build_script_runner::rustc_cfg::{
    cfg_env_vars, group_settings, non_utf8_output, parse_rustc_cfg_output, rustc_args,
    rustc_failure, target_env_vars, RustcRun,
};

#[test]
fn rustc_cfg_parsing() {
    let macos_output = r#"\
debug_assertions
target_arch="x86_64"
target_endian="little"
target_env=""
target_family="unix"
target_feature="fxsr"
target_feature="sse"
target_feature="sse2"
target_feature="sse3"
target_feature="ssse3"
target_os="macos"
target_pointer_width="64"
target_vendor="apple"
unix
"#;
    let tree = parse_rustc_cfg_output(macos_output);
    assert_eq!(tree.get("CARGO_CFG_UNIX"), Some(""));
    assert_eq!(tree.get("CARGO_CFG_TARGET_FAMILY"), Some("unix"));

    let windows_output = r#"\
debug_assertions
target_arch="x86_64"
target_endian="little"
target_env="msvc"
target_family="windows"
target_feature="fxsr"
target_feature="sse"
target_feature="sse2"
target_os="windows"
target_pointer_width="64"
target_vendor="pc"
windows
"#;
    let tree = parse_rustc_cfg_output(windows_output);
    assert_eq!(tree.get("CARGO_CFG_WINDOWS"), Some(""));
    assert_eq!(tree.get("CARGO_CFG_TARGET_FAMILY"), Some("windows"));
}

#[test]
fn repeated_keys_are_joined_in_order() {
    let vars = parse_rustc_cfg_output(
        "target_feature=\"sse\"\r\ntarget_os=\"linux\"\ntarget_feature=\"fxsr\"\n",
    );
    assert_eq!(vars.get("CARGO_CFG_TARGET_FEATURE"), Some("sse,fxsr"));
    assert_eq!(vars.get("CARGO_CFG_TARGET_OS"), Some("linux"));
    assert_eq!(vars.len(), 2);
    assert_eq!(vars.pair(0), ("CARGO_CFG_TARGET_FEATURE", "sse,fxsr"));
    assert_eq!(vars.pair(1), ("CARGO_CFG_TARGET_OS", "linux"));
}

#[test]
fn other_lines_set_nothing() {
    let vars = parse_rustc_cfg_output(
        "debug_assertions\npanic=\"unwind\"\ntarget_thread_local\ntarget_x=y\ntarget_y=\"\ntarget_z=\"a\n unix\nunix \n",
    );
    assert_eq!(vars.len(), 0);
}

#[test]
fn values_keep_what_is_between_the_outer_quotes() {
    let vars = parse_rustc_cfg_output("target_a=\"\"\ntarget_b=\"x=\"y\"\"\nunix\nunix");
    assert_eq!(vars.get("CARGO_CFG_TARGET_A"), Some(""));
    assert_eq!(vars.get("CARGO_CFG_TARGET_B"), Some("x=\"y\""));
    assert_eq!(vars.get("CARGO_CFG_UNIX"), Some(""));
    assert_eq!(vars.get("CARGO_CFG_WINDOWS"), None);
}

#[test]
fn keys_that_share_a_variable() {
    let vars = parse_rustc_cfg_output("target_\u{df}=\"sharp\"\ntarget_ss=\"double\"\n");
    assert_eq!(vars.len(), 1);
    assert_eq!(vars.get("CARGO_CFG_TARGET_SS"), Some("sharp"));
}

#[test]
fn groups_are_in_order() {
    let groups = group_settings("unix\ntarget_b=\"2\"\ntarget_a=\"1\"\ntarget_b=\"3\"\n");
    let keys: Vec<&str> = groups.iter().map(|g| g.key.as_str()).collect();
    assert_eq!(keys, vec!["target_a", "target_b", "unix"]);
    assert_eq!(groups[1].values, vec!["2".to_string(), "3".to_string()]);
    let upper: Vec<String> = vec!["X".to_string(), "Y".to_string(), "X".to_string()];
    let vars = cfg_env_vars(&groups, &upper);
    assert_eq!(vars.len(), 2);
    assert_eq!(vars.get("CARGO_CFG_X"), Some(""));
    assert_eq!(vars.get("CARGO_CFG_Y"), Some("2,3"));
}

#[test]
fn runs_of_rustc() {
    let prefix = "Error running rustc to get target information: ";
    let not_started = RustcRun::NotStarted {
        error: "no such file".to_string(),
    };
    assert_eq!(
        target_env_vars(&not_started).err(),
        Some(format!("{}no such file", prefix))
    );
    let failed = RustcRun::Failed {
        output: "Output { .. }".to_string(),
    };
    assert_eq!(
        target_env_vars(&failed).err(),
        Some(format!("{}Output {{ .. }}", prefix))
    );
    let succeeded = RustcRun::Succeeded {
        stdout: b"target_os=\"linux\"\n".to_vec(),
    };
    let vars = target_env_vars(&succeeded).ok().unwrap();
    assert_eq!(vars.get("CARGO_CFG_TARGET_OS"), Some("linux"));
}

#[test]
fn output_has_to_be_utf8() {
    let garbled = RustcRun::Succeeded {
        stdout: vec![b'a', 0xff, b'b'],
    };
    assert_eq!(
        target_env_vars(&garbled).err(),
        Some(
            "Non-UTF8 stdout from rustc: Utf8Error { valid_up_to: 1, error_len: Some(1) }"
                .to_string()
        )
    );
    assert_eq!(non_utf8_output("fault"), "Non-UTF8 stdout from rustc: fault");
    assert_eq!(
        rustc_failure("x"),
        "Error running rustc to get target information: x"
    );
}

#[test]
fn rustc_is_asked_for_the_target() {
    assert_eq!(
        rustc_args("x86_64-unknown-linux-gnu"),
        vec![
            "--print=cfg".to_string(),
            "--target=x86_64-unknown-linux-gnu".to_string()
        ]
    );
}
