//! What holds of what is reported.

use vstd::prelude::*;

#[allow(unused_imports)]
use crate::outcome::{failure_report, script_failure, should_symlink_exec_root, swallow_already_exists, symlink_if_not_exists, IoError, IoErrorKind};
#[allow(unused_imports)]
use crate::rustc_cfg::{non_utf8_output, rustc_args, rustc_failure, target_env_vars, RustcRun};
#[allow(unused_imports)]
use crate::env_vars::EnvVars;
#[allow(unused_imports)]
use crate::text::{decimal, utf8_fault};
#[allow(unused_imports)]
use crate::text_laws::{is_number, law_decimal, number};

verus! {

/// What is already there is no failure, and every other error is handed back
/// as it is.
pub proof fn law_already_there_is_no_failure(
    err: IoError,
    created: Result<(), IoError>,
    r: Result<(), IoError>,
    linked: Result<(), String>,
)
    requires
        call_ensures(swallow_already_exists, (err,), r),
        call_ensures(symlink_if_not_exists, (created,), linked),
    ensures
        r is Err <==> err.kind == IoErrorKind::Other,
        r is Err ==> r->Err_0 == err,
        created is Ok ==> linked is Ok,
        created == Err::<(), IoError>(err) ==> (linked is Ok <==> r is Ok),
        created == Err::<(), IoError>(err) && linked is Err ==> linked->Err_0@
            == "Failed to create symlink: "@ + err.message@,
{
}

/// Links are made where the setting is the one character `1`, and in no other
/// case.
pub proof fn law_links_are_asked_for(setting: Option<&str>, r: bool)
    requires
        call_ensures(should_symlink_exec_root, (setting,), r),
    ensures
        r <==> setting is Some && setting->0@.len() == 1 && setting->0@[0] == '1',
{
    reveal_strlit("1");
    assert("1"@ =~= seq!['1']);
    if setting is Some && setting->0@.len() == 1 && setting->0@[0] == '1' {
        assert(setting->0@ =~= "1"@);
    }
}

/// The report of a script that failed holds what it wrote, each under its own
/// heading, and before that the exit code where there is one, as a number that
/// reads as that code.
pub proof fn law_failure_report(exit_code: Option<i32>, stdout: &str, stderr: &str, r: String)
    requires
        call_ensures(script_failure, (exit_code, stdout, stderr), r),
    ensures
        exit_code is None ==> r@ == "Build script process failed\n--stdout:\n"@ + stdout@
            + "\n--stderr:\n"@ + stderr@,
        exit_code is Some ==> exists|code: Seq<char>|
            r@ == "Build script process failed with exit code "@ + #[trigger] (code
                + "\n--stdout:\n"@) + stdout@ + "\n--stderr:\n"@ + stderr@ && (if exit_code->0 < 0 {
                code.len() > 0 && code[0] == '-' && is_number(code.skip(1)) && number(code.skip(1))
                    == -(exit_code->0 as int)
            } else {
                is_number(code) && number(code) == exit_code->0
            }),
{
    reveal_strlit("Build script process failed");
    reveal_strlit(" with exit code ");
    reveal_strlit("\n--stdout:\n");
    reveal_strlit("Build script process failed\n--stdout:\n");
    reveal_strlit("Build script process failed with exit code ");
    match exit_code {
        None => {
            assert("Build script process failed"@ + Seq::<char>::empty() + "\n--stdout:\n"@
                =~= "Build script process failed\n--stdout:\n"@);
        },
        Some(n) => {
            law_decimal(n as int);
            let code = decimal(n as int);
            assert("Build script process failed"@ + " with exit code "@
                =~= "Build script process failed with exit code "@);
            assert(r@ =~= "Build script process failed with exit code "@ + (code
                + "\n--stdout:\n"@) + stdout@ + "\n--stderr:\n"@ + stderr@);
        },
    }
}

/// The compiler is asked for the configuration of the target, and a run of it
/// that gives none is reported with what it left.
pub proof fn law_compiler_run(
    target: &str,
    asked: Vec<String>,
    run: &RustcRun,
    r: Result<EnvVars, String>,
)
    requires
        call_ensures(rustc_args, (target,), asked),
        call_ensures(target_env_vars, (run,), r),
    ensures
        asked@.len() == 2,
        asked@[0]@ == "--print=cfg"@,
        asked@[1]@ == "--target="@ + target@,
        r is Err ==> r->Err_0@ == (match *run {
            RustcRun::NotStarted { error } => "Error running rustc to get target information: "@
                + error@,
            RustcRun::Failed { output } => "Error running rustc to get target information: "@
                + output@,
            RustcRun::Succeeded { stdout } => "Non-UTF8 stdout from rustc: "@ + utf8_fault(stdout@),
        }),
{
    let shown = crate::text::texts(asked@);
    assert(shown.len() == asked@.len());
    assert(shown[0] == asked@[0]@);
    assert(shown[1] == asked@[1]@);
}

} // verus!
