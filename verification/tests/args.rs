use build_script_runner::args::{manifest_param_files, Args};

const FULL: [&str; 13] = [
    "--script=script",
    "--links=links",
    "--out_dir=out",
    "--env_out=env",
    "--flags_out=flags",
    "--link_flags=link",
    "--link_search_paths=search",
    "--dep_env_out=dep",
    "--stdout=stdout.log",
    "--stderr=stderr.log",
    "--rundir=",
    "--input_dep_env_path=one",
    "--cargo_manifest_args=params",
];

fn line(args: &[&str]) -> Vec<String> {
    let mut all = vec!["runner".to_string()];
    all.extend(args.iter().map(|s| s.to_string()));
    all
}

fn message(args: &[&str]) -> String {
    match Args::parse(&line(args)) {
        Ok(_) => panic!("the arguments should be refused"),
        Err(message) => message,
    }
}

#[test]
fn every_flag_is_read() {
    let args = Args::parse(&line(&FULL)).ok().unwrap();
    assert_eq!(args.progname, "script");
    assert_eq!(args.crate_links, "links");
    assert_eq!(args.out_dir, "out");
    assert_eq!(args.env_file, "env");
    assert_eq!(args.compile_flags_file, "flags");
    assert_eq!(args.link_flags_file, "link");
    assert_eq!(args.link_search_paths_file, "search");
    assert_eq!(args.output_dep_env_path, "dep");
    assert_eq!(args.stdout_path, Some("stdout.log".to_string()));
    assert_eq!(args.stderr_path, Some("stderr.log".to_string()));
    assert_eq!(args.rundir, "");
    assert_eq!(args.input_dep_env_paths, vec!["one".to_string()]);
    assert_eq!(args.cargo_manifest_args, vec!["params".to_string()]);
}

#[test]
fn optional_arguments_may_be_left_out() {
    let given: Vec<&str> = FULL
        .iter()
        .copied()
        .filter(|a| {
            !a.starts_with("--stdout=") && !a.starts_with("--stderr=") && !a.starts_with("--input_dep_env_path=")
        })
        .collect();
    let args = Args::parse(&line(&given)).ok().unwrap();
    assert_eq!(args.stdout_path, None);
    assert_eq!(args.stderr_path, None);
    assert!(args.input_dep_env_paths.is_empty());
}

#[test]
fn missing_arguments_are_named_in_order() {
    assert_eq!(message(&[]), "Argument `progname` not provided");
    let names = [
        (0, "progname"),
        (1, "crate_links"),
        (2, "out_dir"),
        (3, "env_file"),
        (4, "compile_flags_file"),
        (5, "link_flags_file"),
        (6, "link_search_paths_file"),
        (7, "output_dep_env_path"),
        (10, "rundir"),
        (12, "cargo_manifest_args"),
    ];
    for (position, name) in names {
        let mut given = FULL.to_vec();
        given.remove(position);
        assert_eq!(message(&given), format!("Argument `{}` not provided", name));
    }
    assert_eq!(message(&FULL[..10]), "Argument `rundir` not provided");
}

#[test]
fn the_name_of_the_program_is_skipped() {
    assert!(Args::parse(&vec![]).is_err());
    let mut all = line(&FULL);
    all[0] = "--script=not me".to_string();
    assert_eq!(Args::parse(&all).ok().unwrap().progname, "script");
}

#[test]
fn the_last_value_counts() {
    let mut given = FULL.to_vec();
    given.push("--script=other");
    given.push("--input_dep_env_path=two");
    let args = Args::parse(&line(&given)).ok().unwrap();
    assert_eq!(args.progname, "other");
    assert_eq!(
        args.input_dep_env_paths,
        vec!["one".to_string(), "two".to_string()]
    );
}

#[test]
fn values_may_hold_anything() {
    let mut given = FULL.to_vec();
    given.push("--links=a=b --script=x");
    let args = Args::parse(&line(&given)).ok().unwrap();
    assert_eq!(args.crate_links, "a=b --script=x");
    assert_eq!(args.progname, "script");
}

#[test]
fn other_arguments_are_ignored() {
    let mut given = FULL.to_vec();
    given.insert(0, "--verbose");
    given.insert(3, "--link=no");
    given.push("-script=no");
    let args = Args::parse(&line(&given)).ok().unwrap();
    assert_eq!(args.progname, "script");
    assert_eq!(args.crate_links, "links");
}

#[test]
fn flags_come_in_any_order() {
    let mut given = FULL.to_vec();
    given.reverse();
    let args = Args::parse(&line(&given)).ok().unwrap();
    assert_eq!(args.progname, "script");
    assert_eq!(args.link_search_paths_file, "search");
}

#[test]
fn parameter_files_are_listed_by_themselves() {
    assert!(manifest_param_files(&vec![]).is_empty());
    assert_eq!(
        manifest_param_files(&line(&[
            "--cargo_manifest_args=one",
            "--script=x",
            "--cargo_manifest_args=two",
        ])),
        vec!["one".to_string(), "two".to_string()]
    );
}
