use build_script_runner::args::Args;
use build_script_runner::env_vars::EnvVars;
use build_script_runner::host::Host;
use build_script_runner::script::{
    decode_rustflags, encoded_flags, expand_pwd, parse_dep_env, plan_script, script_changes,
    EnvChange, Surroundings,
};

fn here() -> Surroundings {
    Surroundings {
        host: Host::here(),
        exec_root: "/exec".to_string(),
        manifest_dir: "external/crate".to_string(),
        rustc: "bin/rustc".to_string(),
        target_vars: EnvVars::new(),
        dep_envs: vec![],
        cc: None,
        cxx: None,
        ld: None,
        ar: None,
        encoded_rustflags: None,
    }
}

fn args(rundir: &str) -> Args {
    Args {
        progname: "script".to_string(),
        crate_links: String::new(),
        out_dir: "out".to_string(),
        env_file: String::new(),
        compile_flags_file: String::new(),
        link_flags_file: String::new(),
        link_search_paths_file: String::new(),
        output_dep_env_path: String::new(),
        stdout_path: None,
        stderr_path: None,
        rundir: rundir.to_string(),
        input_dep_env_paths: vec![],
        cargo_manifest_args: vec![],
    }
}

fn shown(changes: &Vec<EnvChange>) -> Vec<String> {
    changes
        .iter()
        .map(|change| match change {
            EnvChange::Assign { name, value } => format!("{}={}", name, value),
            EnvChange::Remove { name } => format!("-{}", name),
        })
        .collect()
}

fn pair(name: &str, value: &str) -> (String, String) {
    (name.to_string(), value.to_string())
}

#[test]
fn dependency_variables_are_read() {
    assert_eq!(
        parse_dep_env("A=1\n\nB=${pwd}/x=${pwd}\nC=\n", "/exec"),
        Ok(vec![pair("A", "1"), pair("B", "/exec/x=/exec"), pair("C", "")])
    );
    assert_eq!(parse_dep_env("", "/exec"), Ok(vec![]));
    assert_eq!(parse_dep_env("=v", "/exec"), Ok(vec![pair("", "v")]));
}

#[test]
fn lines_without_equals_sign_are_wrong() {
    let wrong = Err("error: Wrong environment file format, should not happen".to_string());
    assert_eq!(parse_dep_env("A=1\nB\n", "/exec"), wrong);
    assert_eq!(parse_dep_env("\r\n", "/exec"), wrong);
}

#[test]
fn pwd_is_expanded() {
    assert_eq!(expand_pwd("x", "/exec"), None);
    assert_eq!(expand_pwd("${pwd", "/exec"), None);
    assert_eq!(
        expand_pwd("-L${pwd}/a:${pwd}", "/exec"),
        Some("-L/exec/a:/exec".to_string())
    );
}

#[test]
fn no_pwd_is_left() {
    let expanded = expand_pwd("$${pwd}{pwd}", "/exec").unwrap();
    assert_eq!(expanded, "$/exec{pwd}");
    assert_eq!(expand_pwd(&expanded, "/exec"), None);
}

#[test]
fn encoded_flags_are_decoded() {
    assert_eq!(
        decode_rustflags("-C\\x1fopt-level=3\\x1f"),
        "-C\u{1f}opt-level=3\u{1f}"
    );
    assert_eq!(decode_rustflags("plain\\x1"), "plain\\x1");
    assert!(!decode_rustflags("\\\\x1fx1f").contains("\\x1f"));
}

#[test]
fn changes_come_in_order() {
    let mut here = here();
    here.target_vars
        .insert("CARGO_CFG_UNIX".to_string(), String::new());
    here.dep_envs = vec![
        Some("DEP_A=1\nCC=mine".to_string()),
        Some("DEP_B=${pwd}/b".to_string()),
    ];
    here.cc = Some("tools/cc".to_string());
    here.cxx = Some("/usr/bin/c++".to_string());
    here.ld = Some("ld".to_string());
    here.ar = Some("tools/ar".to_string());
    here.encoded_rustflags = Some("-C\\x1f${pwd}/x".to_string());
    let changes = script_changes(&here, "out").ok().unwrap();
    assert_eq!(
        shown(&changes),
        vec![
            "CARGO_CFG_UNIX=",
            "OUT_DIR=/exec/out",
            "CARGO_MANIFEST_DIR=/exec/external/crate",
            "RUSTC=/exec/bin/rustc",
            "RUST_BACKTRACE=full",
            "DEP_A=1",
            "CC=mine",
            "DEP_B=/exec/b",
            "CC=/exec/tools/cc",
            "CXX=/usr/bin/c++",
            "LD=/exec/ld",
            "AR=/exec/tools/ar",
            "CARGO_ENCODED_RUSTFLAGS=-C\u{1f}/exec/x",
        ]
    );
}

#[test]
fn libtool_is_not_handed_on() {
    let mut here = here();
    here.ar = Some("/usr/bin/libtool".to_string());
    let changes = shown(&script_changes(&here, "out").ok().unwrap());
    assert_eq!(changes[4..], ["-AR".to_string(), "-ARFLAGS".to_string()]);

    here.dep_envs = vec![Some("AR=theirs\nARFLAGS=rcs".to_string())];
    let changes = shown(&script_changes(&here, "out").ok().unwrap());
    assert_eq!(
        changes[4..],
        ["AR=theirs", "ARFLAGS=rcs", "-AR", "-ARFLAGS"].map(|s| s.to_string())
    );

    here.dep_envs = vec![];
    here.ar = Some("libtool/bin/ar".to_string());
    let changes = shown(&script_changes(&here, "out").ok().unwrap());
    assert_eq!(changes[4..], ["AR=/exec/libtool/bin/ar".to_string()]);
}

#[test]
fn wrong_surroundings_are_reported() {
    let mut here = here();
    here.dep_envs = vec![Some("A=1".to_string()), None, Some("wrong".to_string())];
    assert_eq!(
        script_changes(&here, "out").err(),
        Some("error: Dependency environment file unreadable".to_string())
    );
    here.dep_envs = vec![Some("wrong".to_string()), None];
    here.ar = Some("..".to_string());
    assert_eq!(
        script_changes(&here, "out").err(),
        Some("error: Wrong environment file format, should not happen".to_string())
    );
    here.dep_envs = vec![];
    assert_eq!(
        script_changes(&here, "out").err(),
        Some("Failed while getting file name".to_string())
    );
}

#[test]
fn scripts_run_in_their_package() {
    let plan = plan_script(&args(""), &here()).ok().unwrap();
    assert_eq!(plan.program, "/exec/script");
    assert_eq!(plan.working_directory, "/exec/external/crate");
    assert_eq!(plan.changes.len(), 4);
}

#[test]
fn scripts_run_where_they_are_told() {
    let plan = plan_script(&args("a/b"), &here()).ok().unwrap();
    assert_eq!(plan.working_directory, "/exec/a/b");
}

#[test]
fn wrong_rundir_is_reported_first() {
    let mut here = here();
    here.dep_envs = vec![None];
    assert_eq!(
        plan_script(&args("../x"), &here).err(),
        Some("rundir must not contain .. but was \"../x\"".to_string())
    );
    assert_eq!(
        plan_script(&args("x"), &here).err(),
        Some("error: Dependency environment file unreadable".to_string())
    );
}

#[test]
fn flags_are_expanded_then_decoded() {
    assert_eq!(encoded_flags("-L\\x1f${pwd}/lib", "/exec"), "-L\u{1f}/exec/lib");
    assert_eq!(encoded_flags("${pwd}1f", "/\\x"), "/\u{1f}");
    assert_eq!(encoded_flags("plain", "/exec"), "plain");
}
