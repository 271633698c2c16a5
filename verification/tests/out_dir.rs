use build_script_runner::host::Host;
use build_script_runner::out_dir::{
    choose_files, is_volatile_name, needs_placeholder, redact_bytes, redact_text, redaction,
    volatile_basenames, Entry, FileChoice,
};

fn file(name: &str) -> Entry {
    Entry::File {
        name: Some(name.to_string()),
    }
}

fn dir(entries: Vec<Entry>) -> Entry {
    Entry::Directory { entries }
}

fn basenames(names: &[&str]) -> Vec<String> {
    names.iter().map(|s| s.to_string()).collect()
}

fn removed(entries: &Vec<Entry>, listed: Vec<String>) -> Vec<Vec<usize>> {
    choose_files(entries, &FileChoice::Volatile { listed })
}

#[test]
fn remove_nondeterministic_named_files() {
    let names = &["config.log", "config.status", "Makefile", "commit_hash"];
    let mut entries: Vec<Entry> = names.iter().map(|name| file(name)).collect();
    entries.push(file("libfoo.a"));

    let paths = removed(&entries, basenames(names));

    for i in 0..names.len() {
        assert!(
            paths.contains(&vec![i]),
            "{} should have been removed",
            names[i]
        );
    }
    assert!(!paths.contains(&vec![4]), "libfoo.a should be kept");
    assert_eq!(paths.len(), 4);
}

#[test]
fn remove_dot_d_and_pc_files() {
    let entries = vec![
        file("foo.d"),
        file("bar.d"),
        file("jemalloc.pc"),
        file("output.o"),
    ];

    let paths = removed(&entries, basenames(&[]));

    assert!(paths.contains(&vec![0]), "foo.d should be removed");
    assert!(paths.contains(&vec![1]), "bar.d should be removed");
    assert!(paths.contains(&vec![2]), "jemalloc.pc should be removed");
    assert!(!paths.contains(&vec![3]), "output.o should be kept");
}

#[test]
fn remove_nondeterministic_files_recursively() {
    let entries = vec![
        dir(vec![file("config.log"), file("foo.d"), file("output.o")]),
        file("Makefile"),
    ];

    let paths = removed(&entries, basenames(&["config.log", "Makefile"]));

    assert!(paths.contains(&vec![0, 0]));
    assert!(paths.contains(&vec![0, 1]));
    assert!(!paths.contains(&vec![0, 2]));
    assert!(paths.contains(&vec![1]));
    assert_eq!(paths.len(), 3);
}

#[test]
fn remove_nondeterministic_nonexistent_dir_is_noop() {
    let paths = removed(&vec![], basenames(&[]));
    assert!(paths.is_empty());
}

#[test]
fn remove_nondeterministic_custom_basenames() {
    let entries = vec![file("custom_volatile.txt"), file("config.log")];

    let paths = removed(&entries, basenames(&["custom_volatile.txt"]));

    assert!(paths.contains(&vec![0]), "custom file should be removed");
    assert!(
        !paths.contains(&vec![1]),
        "config.log should be kept with custom list"
    );
}

#[test]
fn remove_nondeterministic_env_var_override() {
    let entries = vec![file("config.log"), file("only_this.txt")];

    let paths = removed(&entries, volatile_basenames(Some("only_this.txt")));

    assert!(
        paths.contains(&vec![1]),
        "only_this.txt should be removed"
    );
    assert!(
        !paths.contains(&vec![0]),
        "config.log should survive when not in env var list"
    );
}

#[test]
fn links_and_directories_are_left_alone() {
    let entries = vec![
        Entry::Other,
        dir(vec![Entry::Other, dir(vec![file("deep.d")])]),
        Entry::File { name: None },
        file("keep.o"),
    ];
    assert_eq!(removed(&entries, basenames(&[])), vec![vec![1, 1, 0]]);
    assert_eq!(
        choose_files(&entries, &FileChoice::Every),
        vec![vec![1, 1, 0], vec![2], vec![3]]
    );
}

#[test]
fn basenames_are_split_at_colons() {
    assert_eq!(volatile_basenames(None), basenames(&[]));
    assert_eq!(volatile_basenames(Some("")), basenames(&[""]));
    assert_eq!(volatile_basenames(Some("a:b::c")), basenames(&["a", "b", "", "c"]));
}

#[test]
fn suffixes_are_whole_endings() {
    let none = basenames(&[]);
    assert!(is_volatile_name("x.d", &none));
    assert!(is_volatile_name(".d", &none));
    assert!(is_volatile_name("x.pc", &none));
    assert!(!is_volatile_name("x.dd", &none));
    assert!(!is_volatile_name("d", &none));
    assert!(!is_volatile_name("x.d.o", &none));
    assert!(is_volatile_name("exact", &basenames(&["exact"])));
    assert!(!is_volatile_name("exactly", &basenames(&["exact"])));
}

#[test]
fn redaction_replaces_the_exec_root() {
    let (pattern, replacement) = redaction(
        &Host::here(),
        "external/crate",
        "/sandbox/6028/execroot/_main",
    );
    assert_eq!(pattern, "/sandbox/6028/execroot/_main/");
    assert_eq!(replacement, "../../");
    assert_eq!(
        redact_text(
            "#[folder = \"/sandbox/6028/execroot/_main/bazel-out/x\"]",
            &pattern,
            &replacement
        ),
        Some("#[folder = \"../../bazel-out/x\"]".to_string())
    );
}

#[test]
fn text_without_the_exec_root_is_not_written_again() {
    assert_eq!(redact_text("nothing here", "/exec/", "../"), None);
    assert_eq!(redact_text("/exec", "/exec/", "../"), None);
}

#[test]
fn every_occurrence_is_redacted() {
    assert_eq!(
        redact_text("/e/a /e/b /e//e/", "/e/", "../"),
        Some("../a ../b ../../".to_string())
    );
}

#[test]
fn empty_directories_get_a_placeholder() {
    assert!(needs_placeholder(None));
    assert!(needs_placeholder(Some(0)));
    assert!(!needs_placeholder(Some(3)));
}

#[test]
fn files_that_are_not_text_are_left_untouched() {
    assert_eq!(redact_bytes(b"/exec/\xff", "/exec/", "../"), None);
    assert_eq!(redact_bytes(b"no path", "/exec/", "../"), None);
    assert_eq!(
        redact_bytes("é /exec/x".as_bytes(), "/exec/", "../"),
        Some("é ../x".to_string())
    );
}
