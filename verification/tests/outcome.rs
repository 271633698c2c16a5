use build_script_runner::outcome::{
    script_failure, should_symlink_exec_root, swallow_already_exists, symlink_if_not_exists,
    IoError, IoErrorKind,
};

fn error(kind: IoErrorKind) -> IoError {
    IoError {
        kind,
        message: "File exists (os error 17)".to_string(),
    }
}

#[test]
fn only_already_exists_is_swallowed() {
    assert_eq!(swallow_already_exists(error(IoErrorKind::AlreadyExists)), Ok(()));
    assert_eq!(
        swallow_already_exists(error(IoErrorKind::Other)),
        Err(error(IoErrorKind::Other))
    );
}

#[test]
fn links_that_are_there_are_fine() {
    assert_eq!(symlink_if_not_exists(Ok(())), Ok(()));
    assert_eq!(
        symlink_if_not_exists(Err(error(IoErrorKind::AlreadyExists))),
        Ok(())
    );
    assert_eq!(
        symlink_if_not_exists(Err(error(IoErrorKind::Other))),
        Err("Failed to create symlink: File exists (os error 17)".to_string())
    );
}

#[test]
fn the_exec_root_is_linked_on_request() {
    assert!(should_symlink_exec_root(Some("1")));
    assert!(!should_symlink_exec_root(Some("0")));
    assert!(!should_symlink_exec_root(Some("11")));
    assert!(!should_symlink_exec_root(Some("")));
    assert!(!should_symlink_exec_root(None));
}

#[test]
fn failures_are_reported() {
    assert_eq!(
        script_failure(Some(101), "out", "err"),
        "Build script process failed with exit code 101\n--stdout:\nout\n--stderr:\nerr"
    );
    assert_eq!(
        script_failure(None, "", ""),
        "Build script process failed\n--stdout:\n\n--stderr:\n"
    );
}

#[test]
fn exit_codes_are_decimal() {
    for code in [0, 7, 10, 255, -1, -1073741819, i32::MAX, i32::MIN] {
        assert_eq!(
            script_failure(Some(code), "o", "e"),
            format!(
                "Build script process failed with exit code {}\n--stdout:\no\n--stderr:\ne",
                code
            )
        );
    }
}
