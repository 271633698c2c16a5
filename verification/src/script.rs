//! The run of a build script: its program, its working directory and the
//! changes to the environment that it inherits.

use vstd::prelude::*;

use crate::args::Args;
use crate::env_vars::EnvVars;
use crate::host::Host;
use crate::paths::{join_path, path_file_name, resolve_rundir};
use crate::text::{chars_of, contains, replace_text, split_text, text_of};
#[allow(unused_imports)]
use crate::args::ArgsView;
#[allow(unused_imports)]
use crate::paths::{debug_form, file_name_on, joined_on, result_text, run_directory};
#[allow(unused_imports)]
use crate::text::{find, lemma_find, occurs, opt_text, replace_all, split, texts};

verus! {

/// A change to the environment.
pub enum EnvChange {
    Assign { name: String, value: String },
    Remove { name: String },
}

/// The text of a change to the environment.
pub enum Change {
    Assign(Seq<char>, Seq<char>),
    Remove(Seq<char>),
}

impl View for EnvChange {
    type V = Change;

    open spec fn view(&self) -> Change {
        match self {
            EnvChange::Assign { name, value } => Change::Assign(name@, value@),
            EnvChange::Remove { name } => Change::Remove(name@),
        }
    }
}

/// The texts of a list of changes.
pub open spec fn change_texts(changes: Seq<EnvChange>) -> Seq<Change> {
    Seq::new(changes.len(), |i: int| changes[i]@)
}

/// The texts of a list of pairs.
pub open spec fn pair_texts(pairs: Seq<(String, String)>) -> Seq<(Seq<char>, Seq<char>)> {
    Seq::new(pairs.len(), |i: int| (pairs[i].0@, pairs[i].1@))
}

/// One change for each pair, which sets it.
pub open spec fn assign_all(pairs: Seq<(Seq<char>, Seq<char>)>) -> Seq<Change> {
    Seq::new(pairs.len(), |i: int| Change::Assign(pairs[i].0, pairs[i].1))
}

/// A value with the execution root in place of each `${pwd}`.
pub open spec fn with_pwd(value: Seq<char>, exec_root: Seq<char>) -> Seq<char> {
    replace_all(value, "${pwd}"@, exec_root)
}

/// The variable that a line `name=value` of an environment file sets.
pub open spec fn line_pair(line: Seq<char>, exec_root: Seq<char>) -> (Seq<char>, Seq<char>) {
    let i = find(line, '=') as int;
    (line.take(i), with_pwd(line.skip(i + 1), exec_root))
}

/// The variables that the lines of an environment file set, or `None` where a
/// line that is not empty holds no `=`.
pub open spec fn line_pairs(lines: Seq<Seq<char>>, exec_root: Seq<char>) -> Option<
    Seq<(Seq<char>, Seq<char>)>,
>
    decreases lines.len(),
{
    if lines.len() == 0 {
        Some(Seq::empty())
    } else {
        match line_pairs(lines.drop_last(), exec_root) {
            None => None,
            Some(earlier) => if lines.last().len() == 0 {
                Some(earlier)
            } else if lines.last().contains('=') {
                Some(earlier.push(line_pair(lines.last(), exec_root)))
            } else {
                None
            },
        }
    }
}

/// The variables that an environment file sets.
pub open spec fn file_pairs(contents: Seq<char>, exec_root: Seq<char>) -> Option<
    Seq<(Seq<char>, Seq<char>)>,
> {
    line_pairs(split(contents, '\n'), exec_root)
}

/// Once a line is wrong, no further line mends the file.
proof fn lemma_wrong_line(lines: Seq<Seq<char>>, exec_root: Seq<char>, n: int)
    requires
        0 <= n <= lines.len(),
        line_pairs(lines.take(n), exec_root) is None,
    ensures
        line_pairs(lines, exec_root) is None,
    decreases lines.len() - n,
{
    if n < lines.len() {
        assert(lines.take(n + 1).drop_last() =~= lines.take(n));
        lemma_wrong_line(lines, exec_root, n + 1);
    } else {
        assert(lines.take(n) =~= lines);
    }
}

/// Reads an environment file: one `name=value` per line, with `${pwd}` for the
/// execution root in values.
pub fn parse_dep_env(contents: &str, exec_root: &str) -> (r: Result<
    Vec<(String, String)>,
    String,
>)
    ensures
        match file_pairs(contents@, exec_root@) {
            Some(pairs) => r is Ok && pair_texts(r->Ok_0@) == pairs,
            None => r is Err && r->Err_0@
                == "error: Wrong environment file format, should not happen"@,
        },
{
    let all = split_text(contents, '\n');
    let ghost ls = split(contents@, '\n');
    let mut out: Vec<(String, String)> = Vec::new();
    let mut i: usize = 0;
    assert(ls.take(0) =~= Seq::empty());
    assert(pair_texts(out@) =~= Seq::empty());
    while i < all.len()
        invariant
            i <= all@.len(),
            texts(all@) == ls,
            ls == split(contents@, '\n'),
            line_pairs(ls.take(i as int), exec_root@) == Some(pair_texts(out@)),
        decreases all@.len() - i,
    {
        let ghost line = ls[i as int];
        assert(line == all@[i as int]@);
        assert(ls.take(i + 1).drop_last() =~= ls.take(i as int));
        let chars = chars_of(all[i].as_str());
        if chars.len() > 0 {
            let mut k: usize = 0;
            assert(line.skip(0) =~= line);
            while k < chars.len() && chars[k] != '='
                invariant
                    k <= chars@.len(),
                    chars@ == line,
                    find(line, '=') == k + find(line.skip(k as int), '='),
                decreases chars@.len() - k,
            {
                assert(line.skip(k as int)[0] != '=');
                assert(line.skip(k as int).skip(1) =~= line.skip(k + 1));
                k = k + 1;
            }
            proof {
                lemma_find(line, '=');
                assert(find(line, '=') == k);
            }
            if k == chars.len() {
                proof {
                    lemma_wrong_line(ls, exec_root@, i + 1);
                }
                return Err("error: Wrong environment file format, should not happen".to_owned());
            }
            let name = text_of(&chars, 0, k);
            let raw = text_of(&chars, k + 1, chars.len());
            let value = replace_text(raw.as_str(), "${pwd}", exec_root);
            let ghost so_far = pair_texts(out@);
            let ghost pair = (name@, value@);
            assert(raw@ =~= line.skip(k + 1));
            assert(name@ =~= line.take(k as int));
            out.push((name, value));
            assert(pair_texts(out@) =~= so_far.push(pair));
        }
        i = i + 1;
    }
    assert(ls.take(i as int) =~= ls);
    Ok(out)
}

/// The variables that the environment files set, in order, or what is reported
/// of the first file that is wrong. `None` stands for a file that could not be
/// read.
pub open spec fn dep_pairs(files: Seq<Option<Seq<char>>>, exec_root: Seq<char>) -> Result<
    Seq<(Seq<char>, Seq<char>)>,
    Seq<char>,
>
    decreases files.len(),
{
    if files.len() == 0 {
        Ok(Seq::empty())
    } else {
        match dep_pairs(files.drop_last(), exec_root) {
            Err(message) => Err(message),
            Ok(earlier) => match files.last() {
                None => Err("error: Dependency environment file unreadable"@),
                Some(contents) => match file_pairs(contents, exec_root) {
                    Some(pairs) => Ok(earlier + pairs),
                    None => Err("error: Wrong environment file format, should not happen"@),
                },
            },
        }
    }
}

/// A tool's variable, as a path seen from the execution root.
pub open spec fn tool_changes(
    host: Host,
    name: Seq<char>,
    path: Option<Seq<char>>,
    exec_root: Seq<char>,
) -> Seq<Change> {
    match path {
        Some(path) => seq![Change::Assign(name, joined_on(host, exec_root, path))],
        None => Seq::empty(),
    }
}

/// What happens to `AR`. It is a path seen from the execution root; but a
/// `libtool` is no archiver in the sense of `AR`, and then neither `AR` nor
/// `ARFLAGS` is handed on.
pub open spec fn ar_changes(
    host: Host,
    path: Option<Seq<char>>,
    exec_root: Seq<char>,
) -> Result<Seq<Change>, Seq<char>> {
    match path {
        None => Ok(Seq::empty()),
        Some(path) => match file_name_on(host, path) {
            None => Err("Failed while getting file name"@),
            Some(name) => if occurs(name, "libtool"@) {
                Ok(seq![Change::Remove("AR"@), Change::Remove("ARFLAGS"@)])
            } else {
                Ok(seq![Change::Assign("AR"@, joined_on(host, exec_root, path))])
            },
        },
    }
}

/// Flags with the character U+001F in place of each `\x1f` spelled out.
pub open spec fn decoded_flags(encoded: Seq<char>) -> Seq<char> {
    replace_all(encoded, "\\x1f"@, seq!['\x1f'])
}

/// The flags of the compiler as the script gets them: first the execution root
/// takes the place of each `${pwd}`, then the separators are decoded.
pub open spec fn script_flags(encoded: Seq<char>, exec_root: Seq<char>) -> Seq<char> {
    decoded_flags(with_pwd(encoded, exec_root))
}

/// What happens to the encoded flags of the compiler.
pub open spec fn flags_changes(encoded: Option<Seq<char>>, exec_root: Seq<char>) -> Seq<Change> {
    match encoded {
        Some(encoded) => seq![
            Change::Assign("CARGO_ENCODED_RUSTFLAGS"@, script_flags(encoded, exec_root)),
        ],
        None => Seq::empty(),
    }
}

/// The variables that every script has.
pub open spec fn base_pairs(
    host: Host,
    out_dir: Seq<char>,
    manifest_dir: Seq<char>,
    rustc: Seq<char>,
    exec_root: Seq<char>,
) -> Seq<(Seq<char>, Seq<char>)> {
    seq![
        ("OUT_DIR"@, joined_on(host, exec_root, out_dir)),
        ("CARGO_MANIFEST_DIR"@, joined_on(host, exec_root, manifest_dir)),
        ("RUSTC"@, joined_on(host, exec_root, rustc)),
        ("RUST_BACKTRACE"@, "full"@),
    ]
}

/// What the runner has found out before it starts a script.
pub struct Surroundings {
    pub host: Host,
    /// The directory in which the runner was started.
    pub exec_root: String,
    /// The package's directory, as the environment names it.
    pub manifest_dir: String,
    /// The compiler, as the environment names it.
    pub rustc: String,
    /// The variables that describe the target.
    pub target_vars: EnvVars,
    /// The contents of the environment files of the dependencies, in order.
    /// `None` stands for a file that could not be read.
    pub dep_envs: Vec<Option<String>>,
    /// The tools that the environment names.
    pub cc: Option<String>,
    pub cxx: Option<String>,
    pub ld: Option<String>,
    pub ar: Option<String>,
    /// The encoded flags of the compiler, as the environment has them, with
    /// `${pwd}` not yet replaced.
    pub encoded_rustflags: Option<String>,
}

/// The text of what the runner has found out.
pub struct SurroundingsView {
    pub host: Host,
    pub exec_root: Seq<char>,
    pub manifest_dir: Seq<char>,
    pub rustc: Seq<char>,
    pub target_vars: Seq<(Seq<char>, Seq<char>)>,
    pub dep_envs: Seq<Option<Seq<char>>>,
    pub cc: Option<Seq<char>>,
    pub cxx: Option<Seq<char>>,
    pub ld: Option<Seq<char>>,
    pub ar: Option<Seq<char>>,
    pub encoded_rustflags: Option<Seq<char>>,
}

impl View for Surroundings {
    type V = SurroundingsView;

    open spec fn view(&self) -> SurroundingsView {
        SurroundingsView {
            host: self.host,
            exec_root: self.exec_root@,
            manifest_dir: self.manifest_dir@,
            rustc: self.rustc@,
            target_vars: self.target_vars.pairs(),
            dep_envs: Seq::new(self.dep_envs@.len(), |i: int| opt_text(self.dep_envs@[i])),
            cc: opt_text(self.cc),
            cxx: opt_text(self.cxx),
            ld: opt_text(self.ld),
            ar: opt_text(self.ar),
            encoded_rustflags: opt_text(self.encoded_rustflags),
        }
    }
}

/// The changes to the environment that a script inherits, in the order in
/// which they are made, or what is reported of the surroundings.
pub open spec fn changes_for(here: SurroundingsView, out_dir: Seq<char>) -> Result<
    Seq<Change>,
    Seq<char>,
> {
    match dep_pairs(here.dep_envs, here.exec_root) {
        Err(message) => Err(message),
        Ok(deps) => match ar_changes(here.host, here.ar, here.exec_root) {
            Err(message) => Err(message),
            Ok(ar) => Ok(
                assign_all(here.target_vars) + assign_all(
                    base_pairs(
                        here.host,
                        out_dir,
                        here.manifest_dir,
                        here.rustc,
                        here.exec_root,
                    ),
                ) + assign_all(deps) + tool_changes(here.host, "CC"@, here.cc, here.exec_root)
                    + tool_changes(here.host, "CXX"@, here.cxx, here.exec_root) + tool_changes(
                    here.host,
                    "LD"@,
                    here.ld,
                    here.exec_root,
                ) + ar + flags_changes(here.encoded_rustflags, here.exec_root),
            ),
        },
    }
}

/// The value with the execution root in place of each `${pwd}`, where it holds
/// one.
pub fn expand_pwd(value: &str, exec_root: &str) -> (r: Option<String>)
    ensures
        r is Some <==> occurs(value@, "${pwd}"@),
        r matches Some(expanded) ==> expanded@ == with_pwd(value@, exec_root@),
{
    if contains(value, "${pwd}") {
        Some(replace_text(value, "${pwd}", exec_root))
    } else {
        None
    }
}

/// The flags with the character U+001F in place of each `\x1f` spelled out.
pub fn decode_rustflags(encoded: &str) -> (r: String)
    ensures
        r@ == decoded_flags(encoded@),
{
    let mut separator = String::new();
    separator.push('\x1f');
    assert(separator@ =~= seq!['\x1f']);
    replace_text(encoded, "\\x1f", separator.as_str())
}

/// The flags of the compiler as the script gets them, given those that the
/// environment has.
pub fn encoded_flags(encoded: &str, exec_root: &str) -> (r: String)
    ensures
        r@ == script_flags(encoded@, exec_root@),
{
    let expanded = replace_text(encoded, "${pwd}", exec_root);
    decode_rustflags(expanded.as_str())
}

/// Appends one change that gives a variable its value.
fn push_assign(changes: &mut Vec<EnvChange>, name: &str, value: String)
    ensures
        change_texts(final(changes)@) == change_texts(old(changes)@) + seq![
            Change::Assign(name@, value@),
        ],
{
    let change = EnvChange::Assign { name: name.to_owned(), value };
    changes.push(change);
    assert(change_texts(changes@) =~= change_texts(old(changes)@) + seq![change@]);
}

/// Appends what happens to a tool's variable.
fn push_tool(
    changes: &mut Vec<EnvChange>,
    host: &Host,
    name: &str,
    path: &Option<String>,
    exec_root: &str,
)
    ensures
        change_texts(final(changes)@) == change_texts(old(changes)@) + tool_changes(
            *host,
            name@,
            opt_text(*path),
            exec_root@,
        ),
{
    match path {
        Some(path) => push_assign(changes, name, join_path(host, exec_root, path.as_str())),
        None => {
            assert(change_texts(changes@) =~= change_texts(changes@) + Seq::<Change>::empty());
        },
    }
}

/// Appends what happens to `AR`, or says why it cannot be told.
fn push_ar(
    changes: &mut Vec<EnvChange>,
    host: &Host,
    path: &Option<String>,
    exec_root: &str,
) -> (r: Result<(), String>)
    ensures
        match ar_changes(*host, opt_text(*path), exec_root@) {
            Ok(ar) => r is Ok && change_texts(final(changes)@) == change_texts(old(changes)@) + ar,
            Err(message) => r is Err && r->Err_0@ == message,
        },
{
    if let Some(path) = path {
        match path_file_name(host, path.as_str()) {
            None => {
                return Err("Failed while getting file name".to_owned());
            },
            Some(name) => if contains(name.as_str(), "libtool") {
                let ar = EnvChange::Remove { name: "AR".to_owned() };
                let flags = EnvChange::Remove { name: "ARFLAGS".to_owned() };
                let ghost added = seq![ar@, flags@];
                changes.push(ar);
                changes.push(flags);
                assert(change_texts(changes@) =~= change_texts(old(changes)@) + added);
            } else {
                push_assign(changes, "AR", join_path(host, exec_root, path.as_str()));
            },
        }
    } else {
        assert(change_texts(changes@) =~= change_texts(changes@) + Seq::<Change>::empty());
    }
    Ok(())
}

/// Appends the variables that the environment files set, or says which is
/// wrong.
fn push_deps(changes: &mut Vec<EnvChange>, files: &Vec<Option<String>>, exec_root: &str) -> (r:
    Result<(), String>)
    ensures
        match dep_pairs(
            Seq::new(files@.len(), |i: int| opt_text(files@[i])),
            exec_root@,
        ) {
            Ok(deps) => r is Ok && change_texts(final(changes)@) == change_texts(old(changes)@)
                + assign_all(deps),
            Err(message) => r is Err && r->Err_0@ == message,
        },
{
    let ghost all = Seq::new(files@.len(), |i: int| opt_text(files@[i]));
    let ghost start = change_texts(changes@);
    let ghost mut deps: Seq<(Seq<char>, Seq<char>)> = Seq::empty();
    let mut i: usize = 0;
    assert(all.take(0) =~= Seq::empty());
    assert(start =~= start + assign_all(deps));
    while i < files.len()
        invariant
            i <= files@.len(),
            all == Seq::new(files@.len(), |i: int| opt_text(files@[i])),
            dep_pairs(all.take(i as int), exec_root@) == Ok::<_, Seq<char>>(deps),
            change_texts(changes@) == start + assign_all(deps),
        decreases files@.len() - i,
    {
        assert(all.take(i + 1).drop_last() =~= all.take(i as int));
        assert(all.take(i + 1).last() == opt_text(files@[i as int]));
        match &files[i] {
            None => {
                proof {
                    lemma_wrong_file(all, exec_root@, i + 1);
                }
                return Err("error: Dependency environment file unreadable".to_owned());
            },
            Some(contents) => match parse_dep_env(contents.as_str(), exec_root) {
                Err(message) => {
                    proof {
                        lemma_wrong_file(all, exec_root@, i + 1);
                    }
                    return Err(message);
                },
                Ok(pairs) => {
                    let ghost added = pair_texts(pairs@);
                    push_pairs(changes, &pairs);
                    proof {
                        assert(start + assign_all(deps) + assign_all(added) =~= start + assign_all(
                            deps + added,
                        ));
                        deps = deps + added;
                    }
                },
            },
        }
        i = i + 1;
    }
    assert(all.take(i as int) =~= all);
    Ok(())
}

/// Once a file is wrong, what is reported is what is reported of it.
proof fn lemma_wrong_file(files: Seq<Option<Seq<char>>>, exec_root: Seq<char>, n: int)
    requires
        0 <= n <= files.len(),
        dep_pairs(files.take(n), exec_root) is Err,
    ensures
        dep_pairs(files, exec_root) == dep_pairs(files.take(n), exec_root),
    decreases files.len() - n,
{
    if n < files.len() {
        assert(files.take(n + 1).drop_last() =~= files.take(n));
        lemma_wrong_file(files, exec_root, n + 1);
    } else {
        assert(files.take(n) =~= files);
    }
}

/// Appends one change for each pair.
fn push_pairs(changes: &mut Vec<EnvChange>, pairs: &Vec<(String, String)>)
    ensures
        change_texts(final(changes)@) == change_texts(old(changes)@) + assign_all(
            pair_texts(pairs@),
        ),
{
    let ghost start = change_texts(changes@);
    let ghost all = assign_all(pair_texts(pairs@));
    let mut i: usize = 0;
    assert(start =~= start + all.take(0));
    while i < pairs.len()
        invariant
            i <= pairs@.len(),
            all == assign_all(pair_texts(pairs@)),
            change_texts(changes@) == start + all.take(i as int),
        decreases pairs@.len() - i,
    {
        push_assign(changes, pairs[i].0.as_str(), pairs[i].1.clone());
        assert(all[i as int] == Change::Assign(pairs@[i as int].0@, pairs@[i as int].1@));
        assert(start + all.take(i as int) + seq![all[i as int]] =~= start + all.take(i + 1));
        i = i + 1;
    }
    assert(all.take(i as int) =~= all);
}

/// Appends one change for each variable.
fn push_vars(changes: &mut Vec<EnvChange>, vars: &EnvVars)
    ensures
        change_texts(final(changes)@) == change_texts(old(changes)@) + assign_all(vars.pairs()),
{
    let ghost start = change_texts(changes@);
    let ghost all = assign_all(vars.pairs());
    let mut i: usize = 0;
    assert(start =~= start + all.take(0));
    while i < vars.len()
        invariant
            i <= vars.pairs().len(),
            all == assign_all(vars.pairs()),
            change_texts(changes@) == start + all.take(i as int),
        decreases vars.pairs().len() - i,
    {
        let (name, value) = vars.pair(i);
        push_assign(changes, name, value.to_owned());
        assert(start + all.take(i as int) + seq![all[i as int]] =~= start + all.take(i + 1));
        i = i + 1;
    }
    assert(all.take(i as int) =~= all);
}

/// The changes to the environment that a script inherits.
pub fn script_changes(here: &Surroundings, out_dir: &str) -> (r: Result<Vec<EnvChange>, String>)
    ensures
        match r {
            Ok(changes) => changes_for(here@, out_dir@) == Ok::<Seq<Change>, Seq<char>>(
                change_texts(changes@),
            ),
            Err(message) => changes_for(here@, out_dir@) == Err::<Seq<Change>, Seq<char>>(
                message@,
            ),
        },
{
    let host = &here.host;
    let exec_root = here.exec_root.as_str();
    let mut changes: Vec<EnvChange> = Vec::new();
    let ghost none = change_texts(changes@);
    push_vars(&mut changes, &here.target_vars);
    let ghost target = change_texts(changes@);
    assert(none + assign_all(here.target_vars.pairs()) =~= assign_all(here.target_vars.pairs()));
    push_assign(&mut changes, "OUT_DIR", join_path(host, exec_root, out_dir));
    push_assign(
        &mut changes,
        "CARGO_MANIFEST_DIR",
        join_path(host, exec_root, here.manifest_dir.as_str()),
    );
    push_assign(&mut changes, "RUSTC", join_path(host, exec_root, here.rustc.as_str()));
    push_assign(&mut changes, "RUST_BACKTRACE", "full".to_owned());
    assert(change_texts(changes@) =~= target + assign_all(
        base_pairs(here.host, out_dir@, here.manifest_dir@, here.rustc@, here.exec_root@),
    ));
    match push_deps(&mut changes, &here.dep_envs, exec_root) {
        Ok(()) => {},
        Err(message) => {
            return Err(message);
        },
    }
    push_tool(&mut changes, host, "CC", &here.cc, exec_root);
    push_tool(&mut changes, host, "CXX", &here.cxx, exec_root);
    push_tool(&mut changes, host, "LD", &here.ld, exec_root);
    match push_ar(&mut changes, host, &here.ar, exec_root) {
        Ok(()) => {},
        Err(message) => {
            return Err(message);
        },
    }
    match &here.encoded_rustflags {
        Some(encoded) => push_assign(
            &mut changes,
            "CARGO_ENCODED_RUSTFLAGS",
            encoded_flags(encoded.as_str(), exec_root),
        ),
        None => {
            assert(change_texts(changes@) =~= change_texts(changes@) + Seq::<Change>::empty());
        },
    }
    Ok(changes)
}

/// How a script is run.
pub struct ScriptPlan {
    pub program: String,
    pub working_directory: String,
    pub changes: Vec<EnvChange>,
}

/// Plans the run of a script: the program and the package's directory are seen
/// from the execution root, the working directory is the one that `rundir`
/// names.
pub fn plan_script(args: &Args, here: &Surroundings) -> (r: Result<ScriptPlan, String>)
    ensures
        match run_directory(
            here@.host,
            args@.rundir,
            here@.exec_root,
            joined_on(here@.host, here@.exec_root, here@.manifest_dir),
            debug_form(args@.rundir),
        ) {
            Err(message) => r is Err && r->Err_0@ == message,
            Ok(directory) => match changes_for(here@, args@.out_dir) {
                Err(message) => r is Err && r->Err_0@ == message,
                Ok(changes) => {
                    &&& r is Ok
                    &&& r->Ok_0.program@ == joined_on(here@.host, here@.exec_root, args@.progname)
                    &&& r->Ok_0.working_directory@ == directory
                    &&& change_texts(r->Ok_0.changes@) == changes
                },
            },
        },
{
    let host = &here.host;
    let exec_root = here.exec_root.as_str();
    let manifest_dir = join_path(host, exec_root, here.manifest_dir.as_str());
    let working_directory = match resolve_rundir(
        host,
        args.rundir.as_str(),
        exec_root,
        manifest_dir.as_str(),
    ) {
        Ok(directory) => directory,
        Err(message) => {
            return Err(message);
        },
    };
    match script_changes(here, args.out_dir.as_str()) {
        Ok(changes) => Ok(
            ScriptPlan {
                program: join_path(host, exec_root, args.progname.as_str()),
                working_directory,
                changes,
            },
        ),
        Err(message) => Err(message),
    }
}

} // verus!
