use build_script_runner::host::Host;
use build_script_runner::paths::{
    depth_below_exec_root, has_parent_segment, is_absolute_path, join_path, path_file_name,
    resolve_rundir, resolve_rundir_quoted, up_prefix,
};

#[test]
fn joined_paths() {
    assert_eq!(join_path(&Host::here(), "/exec", "a/b"), "/exec/a/b");
    assert_eq!(join_path(&Host::here(), "/exec/", "a"), "/exec/a");
    assert_eq!(join_path(&Host::here(), "/exec", "/abs"), "/abs");
    assert_eq!(join_path(&Host::here(), "", "a"), "a");
    assert_eq!(join_path(&Host::here(), "/exec", ""), "/exec/");
}

#[test]
fn joining_agrees_with_the_standard_library() {
    for base in ["", "/", "/exec", "/exec/", "rel", "rel/"] {
        for path in ["", "a", "a/b", "/abs", "./a", "../a"] {
            assert_eq!(
                join_path(&Host::here(), base, path),
                std::path::Path::new(base).join(path).to_str().unwrap()
            );
        }
    }
}

#[test]
fn file_names_agree_with_the_standard_library() {
    for path in [
        "", "/", ".", "..", "a", "a/", "a/.", "a/..", "/usr/bin/ar", "./", "a/./", "a//b//", "../x", "x/./y/.",
    ] {
        assert_eq!(
            path_file_name(&Host::here(), path),
            std::path::Path::new(path)
                .file_name()
                .map(|name| name.to_str().unwrap().to_string()),
            "{}",
            path
        );
    }
}

#[test]
fn absolute_paths_start_at_the_root() {
    assert!(is_absolute_path(&Host::here(), "/"));
    assert!(is_absolute_path(&Host::here(), "/a"));
    assert!(!is_absolute_path(&Host::here(), "a/"));
    assert!(!is_absolute_path(&Host::here(), ""));
}

#[test]
fn empty_rundir_is_the_package() {
    assert_eq!(
        resolve_rundir(&Host::here(), "", "/exec", "/exec/pkg"),
        Ok("/exec/pkg".to_string())
    );
}

#[test]
fn relative_rundir_is_below_the_exec_root() {
    assert_eq!(
        resolve_rundir(&Host::here(), "a/b", "/exec", "/exec/pkg"),
        Ok("/exec/a/b".to_string())
    );
    assert_eq!(
        resolve_rundir(&Host::here(), "a..b/..c", "/exec", "/exec/pkg"),
        Ok("/exec/a..b/..c".to_string())
    );
}

#[test]
fn absolute_rundir_is_refused() {
    assert_eq!(
        resolve_rundir(&Host::here(), "/tmp", "/exec", "/exec/pkg"),
        Err("rundir must be empty (to run in manifest path) or relative path (relative to exec root), but was \"/tmp\"".to_string())
    );
}

#[test]
fn climbing_rundir_is_refused() {
    assert_eq!(
        resolve_rundir(&Host::here(), "a/../b", "/exec", "/exec/pkg"),
        Err("rundir must not contain .. but was \"a/../b\"".to_string())
    );
    assert_eq!(
        resolve_rundir(&Host::here(), "..\n", "/exec", "/exec/pkg"),
        Ok("/exec/..\n".to_string())
    );
    assert_eq!(
        resolve_rundir(&Host::here(), "..\t/..", "/exec", "/exec/pkg"),
        Err("rundir must not contain .. but was \"..\\t/..\"".to_string())
    );
}

#[test]
fn refusals_show_the_quoted_rundir() {
    assert_eq!(
        resolve_rundir_quoted(&Host::here(), "..", "/exec", "/exec/pkg", "<dots>"),
        Err("rundir must not contain .. but was <dots>".to_string())
    );
}

#[test]
fn way_up_from_a_relative_package() {
    assert_eq!(up_prefix(&Host::here(), "external/crate", "/exec"), "../../");
    assert_eq!(up_prefix(&Host::here(), "external//crate/", "/exec"), "../../");
    assert_eq!(up_prefix(&Host::here(), "", "/exec"), "");
    assert_eq!(up_prefix(&Host::here(), "a/./b", "/exec"), "../../../");
}

#[test]
fn way_up_from_an_absolute_package() {
    assert_eq!(up_prefix(&Host::here(), "/exec/external/crate", "/exec"), "../../");
    assert_eq!(up_prefix(&Host::here(), "/exec/external/crate", "/exec/"), "../../");
    assert_eq!(up_prefix(&Host::here(), "/exec", "/exec"), "");
    assert_eq!(up_prefix(&Host::here(), "/elsewhere/crate", "/exec"), "");
    assert_eq!(up_prefix(&Host::here(), "/executive/crate", "/exec"), "");
    assert_eq!(up_prefix(&Host::here(), "/exec/crate", "exec"), "");
}

#[test]
fn depth_agrees_with_the_standard_library() {
    for root in ["/e", "/e/", "/e/./f", "/", "/e//f/."] {
        for dir in [
            "/e/a", "/e/f/a/b", "/e/./f/./a/./b/.", "/e", "/x/y", "/", "/e/f/.", "/e//f//a/..", "/./e/f/g",
        ] {
            let expected = std::path::Path::new(dir).strip_prefix(root).ok().map(|p| {
                p.to_str()
                    .unwrap()
                    .split('/')
                    .filter(|s| !s.is_empty())
                    .count()
            });
            assert_eq!(depth_below_exec_root(&Host::here(), dir, root), expected, "{} {}", dir, root);
        }
    }
}

#[test]
fn way_up_leads_back_to_the_exec_root() {
    let package = join_path(&Host::here(), "/exec", "external/crate");
    let up = up_prefix(&Host::here(), "external/crate", "/exec");
    let back = join_path(&Host::here(), &package, &up);
    assert_eq!(back, "/exec/external/crate/../../");
}

#[test]
fn parent_segments_are_whole_segments() {
    let host = Host::here();
    assert!(has_parent_segment(&host, "a/.."));
    assert!(has_parent_segment(&host, "../a"));
    assert!(!has_parent_segment(&host, "a../..b"));
}

#[test]
fn the_host_follows_the_standard_library() {
    assert_eq!(
        Host::here().has_unix_paths(),
        std::path::MAIN_SEPARATOR == '/' && !std::path::is_separator('\\')
    );
}
