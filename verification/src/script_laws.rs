//! What holds of the environment that a script gets.

use vstd::prelude::*;

#[allow(unused_imports)]
use crate::env_vars::mapping;
#[allow(unused_imports)]
use crate::args::Args;
#[allow(unused_imports)]
use crate::paths::{file_name_on, joined_on, resolve_rundir, result_text};
#[allow(unused_imports)]
use crate::script::{ar_changes, assign_all, base_pairs, change_texts, changes_for, decoded_flags, dep_pairs, flags_changes, plan_script, script_changes, script_flags, tool_changes, with_pwd, Change, EnvChange, ScriptPlan, Surroundings, SurroundingsView};
#[allow(unused_imports)]
use crate::text::{occurs, opt_text};

verus! {

/// What changes make of a variable: `None` where they leave it alone,
/// `Some(None)` where it is gone, else its value.
pub open spec fn effect(changes: Seq<Change>, name: Seq<char>) -> Option<Option<Seq<char>>>
    decreases changes.len(),
{
    if changes.len() == 0 {
        None
    } else {
        match changes.last() {
            Change::Assign(n, value) if n == name => Some(Some(value)),
            Change::Remove(n) if n == name => Some(None),
            _ => effect(changes.drop_last(), name),
        }
    }
}

/// Later changes count before earlier ones.
proof fn lemma_effect_concat(a: Seq<Change>, b: Seq<Change>, name: Seq<char>)
    ensures
        effect(a + b, name) == (if effect(b, name) is Some {
            effect(b, name)
        } else {
            effect(a, name)
        }),
    decreases b.len(),
{
    if b.len() == 0 {
        assert(a + b =~= a);
    } else {
        assert((a + b).drop_last() =~= a + b.drop_last());
        lemma_effect_concat(a, b.drop_last(), name);
    }
}

/// Pairs that are assigned one after the other have the effect of the mapping
/// that they stand for.
proof fn lemma_effect_pairs(pairs: Seq<(Seq<char>, Seq<char>)>, name: Seq<char>)
    ensures
        effect(assign_all(pairs), name) == (if mapping(pairs).contains_key(name) {
            Some(Some(mapping(pairs)[name]))
        } else {
            None
        }),
    decreases pairs.len(),
{
    if pairs.len() > 0 {
        assert(assign_all(pairs).drop_last() =~= assign_all(pairs.drop_last()));
        lemma_effect_pairs(pairs.drop_last(), name);
    }
}

/// The effect of all the changes, from the last group of them to the first.
proof fn lemma_effect_of_all(here: SurroundingsView, out_dir: Seq<char>, name: Seq<char>)
    requires
        changes_for(here, out_dir) is Ok,
    ensures
        ({
            let whole = effect(changes_for(here, out_dir)->Ok_0, name);
            let root = here.exec_root;
            let flags = effect(flags_changes(here.encoded_rustflags, here.exec_root), name);
            let ar = effect(ar_changes(here.host, here.ar, root)->Ok_0, name);
            let ld = effect(tool_changes(here.host, "LD"@, here.ld, root), name);
            let cxx = effect(tool_changes(here.host, "CXX"@, here.cxx, root), name);
            let cc = effect(tool_changes(here.host, "CC"@, here.cc, root), name);
            let deps = effect(assign_all(dep_pairs(here.dep_envs, root)->Ok_0), name);
            let base = effect(
                assign_all(base_pairs(here.host, out_dir, here.manifest_dir, here.rustc, root)),
                name,
            );
            whole == (if flags is Some {
                flags
            } else if ar is Some {
                ar
            } else if ld is Some {
                ld
            } else if cxx is Some {
                cxx
            } else if cc is Some {
                cc
            } else if deps is Some {
                deps
            } else if base is Some {
                base
            } else {
                effect(assign_all(here.target_vars), name)
            })
        }),
{
    let root = here.exec_root;
    let target = assign_all(here.target_vars);
    let base = assign_all(base_pairs(here.host, out_dir, here.manifest_dir, here.rustc, root));
    let deps = assign_all(dep_pairs(here.dep_envs, root)->Ok_0);
    let cc = tool_changes(here.host, "CC"@, here.cc, root);
    let cxx = tool_changes(here.host, "CXX"@, here.cxx, root);
    let ld = tool_changes(here.host, "LD"@, here.ld, root);
    let ar = ar_changes(here.host, here.ar, root)->Ok_0;
    let flags = flags_changes(here.encoded_rustflags, here.exec_root);
    lemma_effect_concat(target, base, name);
    lemma_effect_concat(target + base, deps, name);
    lemma_effect_concat(target + base + deps, cc, name);
    lemma_effect_concat(target + base + deps + cc, cxx, name);
    lemma_effect_concat(target + base + deps + cc + cxx, ld, name);
    lemma_effect_concat(target + base + deps + cc + cxx + ld, ar, name);
    lemma_effect_concat(target + base + deps + cc + cxx + ld + ar, flags, name);
}

/// What the tools and the flags make of a variable by themselves.
proof fn lemma_effect_of_tools(here: SurroundingsView, name: Seq<char>)
    requires
        ar_changes(here.host, here.ar, here.exec_root) is Ok,
    ensures
        effect(flags_changes(here.encoded_rustflags, here.exec_root), name) == (if name
            == "CARGO_ENCODED_RUSTFLAGS"@ && here.encoded_rustflags is Some {
            Some(Some(script_flags(here.encoded_rustflags->0, here.exec_root)))
        } else {
            None
        }),
        effect(tool_changes(here.host, "LD"@, here.ld, here.exec_root), name) == (if name == "LD"@
            && here.ld is Some {
            Some(Some(joined_on(here.host, here.exec_root, here.ld->0)))
        } else {
            None
        }),
        effect(tool_changes(here.host, "CXX"@, here.cxx, here.exec_root), name) == (if name == "CXX"@
            && here.cxx is Some {
            Some(Some(joined_on(here.host, here.exec_root, here.cxx->0)))
        } else {
            None
        }),
        effect(tool_changes(here.host, "CC"@, here.cc, here.exec_root), name) == (if name == "CC"@
            && here.cc is Some {
            Some(Some(joined_on(here.host, here.exec_root, here.cc->0)))
        } else {
            None
        }),
        effect(ar_changes(here.host, here.ar, here.exec_root)->Ok_0, name) == (if here.ar is None {
            None
        } else if occurs(file_name_on(here.host, here.ar->0)->0, "libtool"@) {
            if name == "AR"@ || name == "ARFLAGS"@ {
                Some(None)
            } else {
                None
            }
        } else if name == "AR"@ {
            Some(Some(joined_on(here.host, here.exec_root, here.ar->0)))
        } else {
            None
        }),
{
    reveal_with_fuel(effect, 3);
    let ar = ar_changes(here.host, here.ar, here.exec_root)->Ok_0;
    if here.ar is Some && occurs(file_name_on(here.host, here.ar->0)->0, "libtool"@) {
        assert(ar.drop_last() =~= seq![Change::Remove("AR"@)]);
        assert(ar.drop_last().drop_last() =~= Seq::empty());
    }
}

/// The names of the variables that the runner itself decides last differ from
/// each other.
proof fn lemma_names_differ()
    ensures
        "CC"@ != "CXX"@,
        "CC"@ != "LD"@,
        "CC"@ != "AR"@,
        "CC"@ != "ARFLAGS"@,
        "CC"@ != "CARGO_ENCODED_RUSTFLAGS"@,
        "CXX"@ != "LD"@,
        "CXX"@ != "AR"@,
        "CXX"@ != "ARFLAGS"@,
        "CXX"@ != "CARGO_ENCODED_RUSTFLAGS"@,
        "LD"@ != "AR"@,
        "LD"@ != "ARFLAGS"@,
        "LD"@ != "CARGO_ENCODED_RUSTFLAGS"@,
        "AR"@ != "ARFLAGS"@,
        "AR"@ != "CARGO_ENCODED_RUSTFLAGS"@,
        "ARFLAGS"@ != "CARGO_ENCODED_RUSTFLAGS"@,
{
    reveal_strlit("CC");
    reveal_strlit("CXX");
    reveal_strlit("LD");
    reveal_strlit("AR");
    reveal_strlit("ARFLAGS");
    reveal_strlit("CARGO_ENCODED_RUSTFLAGS");
    assert("CC"@.len() == 2 && "CXX"@.len() == 3 && "LD"@.len() == 2 && "AR"@.len() == 2);
    assert("ARFLAGS"@.len() == 7 && "CARGO_ENCODED_RUSTFLAGS"@.len() == 23);
    assert("CC"@[0] == 'C' && "LD"@[0] == 'L' && "AR"@[0] == 'A');
}

/// A tool that the environment names reaches the script as a path seen from
/// the execution root, whatever dependencies set.
pub proof fn law_tools_are_rooted(here: SurroundingsView, out_dir: Seq<char>)
    requires
        changes_for(here, out_dir) is Ok,
    ensures
        ({
            let changes = changes_for(here, out_dir)->Ok_0;
            &&& here.cc is Some ==> effect(changes, "CC"@) == Some(
                Some(joined_on(here.host, here.exec_root, here.cc->0)),
            )
            &&& here.cxx is Some ==> effect(changes, "CXX"@) == Some(
                Some(joined_on(here.host, here.exec_root, here.cxx->0)),
            )
            &&& here.ld is Some ==> effect(changes, "LD"@) == Some(
                Some(joined_on(here.host, here.exec_root, here.ld->0)),
            )
        }),
{
    lemma_names_differ();
    lemma_effect_of_all(here, out_dir, "CC"@);
    lemma_effect_of_all(here, out_dir, "CXX"@);
    lemma_effect_of_all(here, out_dir, "LD"@);
    lemma_effect_of_tools(here, "CC"@);
    lemma_effect_of_tools(here, "CXX"@);
    lemma_effect_of_tools(here, "LD"@);
}

/// An `AR` that is a libtool never reaches the script, nor do its flags, not
/// even where a dependency sets them; any other `AR` reaches it as a path seen
/// from the execution root.
pub proof fn law_libtool_is_not_handed_on(here: SurroundingsView, out_dir: Seq<char>)
    requires
        changes_for(here, out_dir) is Ok,
        here.ar is Some,
    ensures
        ({
            let changes = changes_for(here, out_dir)->Ok_0;
            if occurs(file_name_on(here.host, here.ar->0)->0, "libtool"@) {
                &&& effect(changes, "AR"@) == Some(None::<Seq<char>>)
                &&& effect(changes, "ARFLAGS"@) == Some(None::<Seq<char>>)
            } else {
                effect(changes, "AR"@) == Some(Some(joined_on(here.host, here.exec_root, here.ar->0)))
            }
        }),
{
    lemma_names_differ();
    lemma_effect_of_all(here, out_dir, "AR"@);
    lemma_effect_of_all(here, out_dir, "ARFLAGS"@);
    lemma_effect_of_tools(here, "AR"@);
    lemma_effect_of_tools(here, "ARFLAGS"@);
}

/// The compiler's flags reach the script with `${pwd}` replaced first and the
/// separators decoded afterwards, whatever dependencies set.
pub proof fn law_flags_are_expanded_then_decoded(here: SurroundingsView, out_dir: Seq<char>)
    requires
        changes_for(here, out_dir) is Ok,
        here.encoded_rustflags is Some,
    ensures
        effect(changes_for(here, out_dir)->Ok_0, "CARGO_ENCODED_RUSTFLAGS"@) == Some(
            Some(decoded_flags(with_pwd(here.encoded_rustflags->0, here.exec_root))),
        ),
{
    lemma_effect_of_all(here, out_dir, "CARGO_ENCODED_RUSTFLAGS"@);
    lemma_effect_of_tools(here, "CARGO_ENCODED_RUSTFLAGS"@);
}

/// A variable that a dependency sets reaches the script, with the value that
/// was set last, unless the runner decides it from its own environment.
pub proof fn law_dependencies_reach_the_script(
    here: SurroundingsView,
    out_dir: Seq<char>,
    name: Seq<char>,
)
    requires
        changes_for(here, out_dir) is Ok,
        mapping(dep_pairs(here.dep_envs, here.exec_root)->Ok_0).contains_key(name),
        !(name == "CC"@ && here.cc is Some),
        !(name == "CXX"@ && here.cxx is Some),
        !(name == "LD"@ && here.ld is Some),
        !(name == "AR"@ && here.ar is Some),
        !(name == "ARFLAGS"@ && here.ar is Some && occurs(file_name_on(here.host, here.ar->0)->0, "libtool"@)),
        !(name == "CARGO_ENCODED_RUSTFLAGS"@ && here.encoded_rustflags is Some),
    ensures
        effect(changes_for(here, out_dir)->Ok_0, name) == Some(
            Some(mapping(dep_pairs(here.dep_envs, here.exec_root)->Ok_0)[name]),
        ),
{
    lemma_effect_of_all(here, out_dir, name);
    lemma_effect_of_tools(here, name);
    lemma_effect_pairs(dep_pairs(here.dep_envs, here.exec_root)->Ok_0, name);
}

/// Where no dependency says otherwise, the script's own directories and its
/// compiler are paths seen from the execution root and it is asked for full
/// backtraces, whatever the target's variables are.
pub proof fn law_own_directories_are_rooted(here: SurroundingsView, out_dir: Seq<char>)
    requires
        changes_for(here, out_dir) is Ok,
    ensures
        ({
            let deps = mapping(dep_pairs(here.dep_envs, here.exec_root)->Ok_0);
            let changes = changes_for(here, out_dir)->Ok_0;
            let root = here.exec_root;
            &&& !deps.contains_key("OUT_DIR"@) ==> effect(changes, "OUT_DIR"@) == Some(
                Some(joined_on(here.host, root, out_dir)),
            )
            &&& !deps.contains_key("CARGO_MANIFEST_DIR"@) ==> effect(
                changes,
                "CARGO_MANIFEST_DIR"@,
            ) == Some(Some(joined_on(here.host, root, here.manifest_dir)))
            &&& !deps.contains_key("RUSTC"@) ==> effect(changes, "RUSTC"@) == Some(
                Some(joined_on(here.host, root, here.rustc)),
            )
            &&& !deps.contains_key("RUST_BACKTRACE"@) ==> effect(changes, "RUST_BACKTRACE"@)
                == Some(Some("full"@))
        }),
{
    reveal_strlit("CC");
    reveal_strlit("CXX");
    reveal_strlit("LD");
    reveal_strlit("AR");
    reveal_strlit("ARFLAGS");
    reveal_strlit("CARGO_ENCODED_RUSTFLAGS");
    reveal_strlit("OUT_DIR");
    reveal_strlit("CARGO_MANIFEST_DIR");
    reveal_strlit("RUSTC");
    reveal_strlit("RUST_BACKTRACE");
    assert("CC"@.len() == 2 && "CXX"@.len() == 3 && "LD"@.len() == 2 && "AR"@.len() == 2);
    assert("ARFLAGS"@.len() == 7 && "CARGO_ENCODED_RUSTFLAGS"@.len() == 23);
    assert("OUT_DIR"@.len() == 7 && "CARGO_MANIFEST_DIR"@.len() == 18 && "RUSTC"@.len() == 5);
    assert("RUST_BACKTRACE"@.len() == 14);
    assert("OUT_DIR"@[0] == 'O' && "ARFLAGS"@[0] == 'A');
    let root = here.exec_root;
    let own = base_pairs(here.host, out_dir, here.manifest_dir, here.rustc, root);
    let deps = dep_pairs(here.dep_envs, root)->Ok_0;
    reveal_with_fuel(mapping, 5);
    assert(own.drop_last() =~= own.take(3));
    assert(own.take(3).drop_last() =~= own.take(2));
    assert(own.take(2).drop_last() =~= own.take(1));
    assert(own.take(1).drop_last() =~= Seq::empty());
    lemma_effect_of_all(here, out_dir, "OUT_DIR"@);
    lemma_effect_of_all(here, out_dir, "CARGO_MANIFEST_DIR"@);
    lemma_effect_of_all(here, out_dir, "RUSTC"@);
    lemma_effect_of_all(here, out_dir, "RUST_BACKTRACE"@);
    lemma_effect_of_tools(here, "OUT_DIR"@);
    lemma_effect_of_tools(here, "CARGO_MANIFEST_DIR"@);
    lemma_effect_of_tools(here, "RUSTC"@);
    lemma_effect_of_tools(here, "RUST_BACKTRACE"@);
    lemma_effect_pairs(own, "OUT_DIR"@);
    lemma_effect_pairs(own, "CARGO_MANIFEST_DIR"@);
    lemma_effect_pairs(own, "RUSTC"@);
    lemma_effect_pairs(own, "RUST_BACKTRACE"@);
    lemma_effect_pairs(deps, "OUT_DIR"@);
    lemma_effect_pairs(deps, "CARGO_MANIFEST_DIR"@);
    lemma_effect_pairs(deps, "RUSTC"@);
    lemma_effect_pairs(deps, "RUST_BACKTRACE"@);
}

/// What changes make of a variable, the last one for its name counting: `None`
/// where they leave it alone, `Some(None)` where it is gone, else its value.
pub open spec fn left_by(changes: Seq<EnvChange>, name: Seq<char>) -> Option<Option<Seq<char>>>
    decreases changes.len(),
{
    if changes.len() == 0 {
        None
    } else {
        match changes.last() {
            EnvChange::Assign { name: n, value } if n@ == name => Some(Some(value@)),
            EnvChange::Remove { name: n } if n@ == name => Some(None),
            _ => left_by(changes.drop_last(), name),
        }
    }
}

proof fn lemma_left_by(changes: Seq<EnvChange>, name: Seq<char>)
    ensures
        left_by(changes, name) == effect(change_texts(changes), name),
    decreases changes.len(),
{
    if changes.len() > 0 {
        assert(change_texts(changes).drop_last() =~= change_texts(changes.drop_last()));
        lemma_left_by(changes.drop_last(), name);
    }
}

/// The texts of the environment files of the dependencies.
pub open spec fn dep_files(here: Surroundings) -> Seq<Option<Seq<char>>> {
    Seq::new(here.dep_envs@.len(), |i: int| opt_text(here.dep_envs@[i]))
}

/// The variables that dependencies set, the value that was set last counting.
pub open spec fn dep_variables(here: Surroundings) -> Map<Seq<char>, Seq<char>> {
    mapping(dep_pairs(dep_files(here), here.exec_root@)->Ok_0)
}

/// The runner decides the variable itself, from its own environment.
pub open spec fn is_decided(here: Surroundings, name: Seq<char>) -> bool {
    ||| name == "CC"@ && here.cc is Some
    ||| name == "CXX"@ && here.cxx is Some
    ||| name == "LD"@ && here.ld is Some
    ||| name == "AR"@ && here.ar is Some
    ||| name == "ARFLAGS"@ && here.ar is Some && occurs(
        file_name_on(here.host, here.ar->0@)->0,
        "libtool"@,
    )
    ||| name == "CARGO_ENCODED_RUSTFLAGS"@ && here.encoded_rustflags is Some
}

/// The variable is one that every script gets.
pub open spec fn is_own(name: Seq<char>) -> bool {
    ||| name == "OUT_DIR"@
    ||| name == "CARGO_MANIFEST_DIR"@
    ||| name == "RUSTC"@
    ||| name == "RUST_BACKTRACE"@
}

/// A script can be given its environment exactly where every environment file
/// can be read and is right and the archiver, if there is one, has a name. What
/// is wrong with the files is reported first.
pub proof fn law_when_there_is_an_environment(
    here: &Surroundings,
    out_dir: &str,
    r: Result<Vec<EnvChange>, String>,
)
    requires
        call_ensures(script_changes, (here, out_dir), r),
    ensures
        r is Ok <==> dep_pairs(dep_files(*here), here.exec_root@) is Ok && (here.ar is None
            || file_name_on(here.host, here.ar->0@) is Some),
        dep_pairs(dep_files(*here), here.exec_root@) is Err ==> r is Err && r->Err_0@ == dep_pairs(
            dep_files(*here),
            here.exec_root@,
        )->Err_0,
        r is Err && dep_pairs(dep_files(*here), here.exec_root@) is Ok ==> r->Err_0@
            == "Failed while getting file name"@,
{
    assert(here@.dep_envs =~= dep_files(*here));
}

/// The tools, the archiver and the flags of the runner's own environment reach
/// the script, whatever dependencies and target say: tools as paths seen from
/// the execution root, flags with `${pwd}` replaced and then decoded. An
/// archiver that is a libtool does not, nor do its flags.
pub proof fn law_script_gets_tools(here: &Surroundings, out_dir: &str, changes: Vec<EnvChange>)
    requires
        call_ensures(script_changes, (here, out_dir), Ok::<Vec<EnvChange>, String>(changes)),
    ensures
        here.cc is Some ==> left_by(changes@, "CC"@) == Some(
            Some(joined_on(here.host, here.exec_root@, here.cc->0@)),
        ),
        here.cxx is Some ==> left_by(changes@, "CXX"@) == Some(
            Some(joined_on(here.host, here.exec_root@, here.cxx->0@)),
        ),
        here.ld is Some ==> left_by(changes@, "LD"@) == Some(
            Some(joined_on(here.host, here.exec_root@, here.ld->0@)),
        ),
        here.ar is Some && occurs(file_name_on(here.host, here.ar->0@)->0, "libtool"@) ==> left_by(
            changes@,
            "AR"@,
        ) == Some(None::<Seq<char>>) && left_by(changes@, "ARFLAGS"@) == Some(None::<Seq<char>>),
        here.ar is Some && !occurs(file_name_on(here.host, here.ar->0@)->0, "libtool"@) ==> left_by(
            changes@,
            "AR"@,
        ) == Some(Some(joined_on(here.host, here.exec_root@, here.ar->0@))),
        here.encoded_rustflags is Some ==> left_by(changes@, "CARGO_ENCODED_RUSTFLAGS"@) == Some(
            Some(decoded_flags(with_pwd(here.encoded_rustflags->0@, here.exec_root@))),
        ),
{
    lemma_left_by(changes@, "CC"@);
    lemma_left_by(changes@, "CXX"@);
    lemma_left_by(changes@, "LD"@);
    lemma_left_by(changes@, "AR"@);
    lemma_left_by(changes@, "ARFLAGS"@);
    lemma_left_by(changes@, "CARGO_ENCODED_RUSTFLAGS"@);
    law_tools_are_rooted(here@, out_dir@);
    if here.ar is Some {
        law_libtool_is_not_handed_on(here@, out_dir@);
    }
    if here.encoded_rustflags is Some {
        law_flags_are_expanded_then_decoded(here@, out_dir@);
    }
}

/// A variable that a dependency sets reaches the script, with the value that
/// was set last, unless the runner decides it from its own environment.
pub proof fn law_script_gets_what_dependencies_set(
    here: &Surroundings,
    out_dir: &str,
    changes: Vec<EnvChange>,
    name: Seq<char>,
)
    requires
        call_ensures(script_changes, (here, out_dir), Ok::<Vec<EnvChange>, String>(changes)),
        dep_variables(*here).contains_key(name),
        !is_decided(*here, name),
    ensures
        left_by(changes@, name) == Some(Some(dep_variables(*here)[name])),
{
    lemma_left_by(changes@, name);
    assert(here@.dep_envs =~= dep_files(*here));
    law_dependencies_reach_the_script(here@, out_dir@, name);
}

/// Where no dependency says otherwise, the script finds its output directory,
/// its package and its compiler as paths seen from the execution root, and is
/// asked for full backtraces.
pub proof fn law_script_gets_its_directories(
    here: &Surroundings,
    out_dir: &str,
    changes: Vec<EnvChange>,
)
    requires
        call_ensures(script_changes, (here, out_dir), Ok::<Vec<EnvChange>, String>(changes)),
    ensures
        !dep_variables(*here).contains_key("OUT_DIR"@) ==> left_by(changes@, "OUT_DIR"@) == Some(
            Some(joined_on(here.host, here.exec_root@, out_dir@)),
        ),
        !dep_variables(*here).contains_key("CARGO_MANIFEST_DIR"@) ==> left_by(
            changes@,
            "CARGO_MANIFEST_DIR"@,
        ) == Some(Some(joined_on(here.host, here.exec_root@, here.manifest_dir@))),
        !dep_variables(*here).contains_key("RUSTC"@) ==> left_by(changes@, "RUSTC"@) == Some(
            Some(joined_on(here.host, here.exec_root@, here.rustc@)),
        ),
        !dep_variables(*here).contains_key("RUST_BACKTRACE"@) ==> left_by(
            changes@,
            "RUST_BACKTRACE"@,
        ) == Some(Some("full"@)),
{
    lemma_left_by(changes@, "OUT_DIR"@);
    lemma_left_by(changes@, "CARGO_MANIFEST_DIR"@);
    lemma_left_by(changes@, "RUSTC"@);
    lemma_left_by(changes@, "RUST_BACKTRACE"@);
    assert(here@.dep_envs =~= dep_files(*here));
    law_own_directories_are_rooted(here@, out_dir@);
}

/// The variables that describe the target reach the script where neither the
/// runner nor a dependency says otherwise, and a variable that nobody speaks of
/// stays as the script inherits it.
pub proof fn law_script_gets_what_describes_the_target(
    here: &Surroundings,
    out_dir: &str,
    changes: Vec<EnvChange>,
    name: Seq<char>,
)
    requires
        call_ensures(script_changes, (here, out_dir), Ok::<Vec<EnvChange>, String>(changes)),
        !dep_variables(*here).contains_key(name),
        !is_decided(*here, name),
        !is_own(name),
    ensures
        here.target_vars@.contains_key(name) ==> left_by(changes@, name) == Some(
            Some(here.target_vars@[name]),
        ),
        !here.target_vars@.contains_key(name) ==> left_by(changes@, name) is None,
{
    lemma_left_by(changes@, name);
    let view = here@;
    assert(view.dep_envs =~= dep_files(*here));
    let root = view.exec_root;
    let own = base_pairs(view.host, out_dir@, view.manifest_dir, view.rustc, root);
    lemma_effect_of_all(view, out_dir@, name);
    lemma_effect_of_tools(view, name);
    lemma_effect_pairs(own, name);
    lemma_effect_pairs(dep_pairs(view.dep_envs, root)->Ok_0, name);
    lemma_effect_pairs(view.target_vars, name);
    crate::env_vars::lemma_mapping(own);
}

/// The plan of a run: the program is seen from the execution root, the working
/// directory is the one that `rundir` names, and the environment is that of the
/// surroundings. Where there is no working directory, that is reported, and
/// only then what is wrong with the environment.
pub proof fn law_plan(
    args: &Args,
    here: &Surroundings,
    rundir: &str,
    exec_root: &str,
    manifest_dir: &str,
    out_dir: &str,
    directory: Result<String, String>,
    changes: Result<Vec<EnvChange>, String>,
    r: Result<ScriptPlan, String>,
    name: Seq<char>,
)
    requires
        call_ensures(plan_script, (args, here), r),
        call_ensures(resolve_rundir, (&here.host, rundir, exec_root, manifest_dir), directory),
        call_ensures(script_changes, (here, out_dir), changes),
        rundir@ == args.rundir@,
        exec_root@ == here.exec_root@,
        manifest_dir@ == joined_on(here.host, here.exec_root@, here.manifest_dir@),
        out_dir@ == args.out_dir@,
    ensures
        r is Ok <==> directory is Ok && changes is Ok,
        r is Ok ==> r->Ok_0.program@ == joined_on(here.host, here.exec_root@, args.progname@),
        r is Ok ==> r->Ok_0.working_directory@ == directory->Ok_0@,
        r is Ok ==> left_by(r->Ok_0.changes@, name) == left_by(changes->Ok_0@, name),
        directory is Err ==> r is Err && r->Err_0@ == directory->Err_0@,
        directory is Ok && changes is Err ==> r is Err && r->Err_0@ == changes->Err_0@,
{
    assert(result_text(directory) == crate::paths::run_directory(
        here@.host,
        args@.rundir,
        here@.exec_root,
        joined_on(here@.host, here@.exec_root, here@.manifest_dir),
        crate::paths::debug_form(args@.rundir),
    ));
    if r is Ok {
        lemma_left_by(r->Ok_0.changes@, name);
        lemma_left_by(changes->Ok_0@, name);
    }
}

} // verus!
