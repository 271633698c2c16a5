//! The runner's command line.

use vstd::prelude::*;

use crate::text::strip_start;
#[allow(unused_imports)]
use crate::text::{find, lemma_find, opt_text, texts};

verus! {

/// The values that the arguments give to a flag, in order. A flag ends in `=`,
/// and its value is all that follows.
pub open spec fn flag_values(args: Seq<Seq<char>>, flag: Seq<char>) -> Seq<Seq<char>>
    decreases args.len(),
{
    if args.len() == 0 {
        Seq::empty()
    } else {
        let earlier = flag_values(args.drop_last(), flag);
        if flag.is_prefix_of(args.last()) {
            earlier.push(args.last().skip(flag.len() as int))
        } else {
            earlier
        }
    }
}

/// The last value that the arguments give to a flag.
pub open spec fn last_value(args: Seq<Seq<char>>, flag: Seq<char>) -> Option<Seq<char>> {
    let values = flag_values(args, flag);
    if values.len() == 0 {
        None
    } else {
        Some(values.last())
    }
}

/// The arguments after the name of the program.
pub open spec fn after_program(args: Seq<Seq<char>>) -> Seq<Seq<char>> {
    if args.len() == 0 {
        args
    } else {
        args.skip(1)
    }
}

/// What the command line says.
pub struct Args {
    pub progname: String,
    pub crate_links: String,
    pub out_dir: String,
    pub env_file: String,
    pub compile_flags_file: String,
    pub link_flags_file: String,
    pub link_search_paths_file: String,
    pub output_dep_env_path: String,
    pub stdout_path: Option<String>,
    pub stderr_path: Option<String>,
    pub rundir: String,
    pub input_dep_env_paths: Vec<String>,
    /// The parameter files of the package's runfiles. The last one counts.
    pub cargo_manifest_args: Vec<String>,
}

/// The arguments that have to be given, each with its flag, in the order in
/// which they are asked for.
pub open spec fn required() -> Seq<(Seq<char>, Seq<char>)> {
    seq![
        ("progname"@, "--script="@),
        ("crate_links"@, "--links="@),
        ("out_dir"@, "--out_dir="@),
        ("env_file"@, "--env_out="@),
        ("compile_flags_file"@, "--flags_out="@),
        ("link_flags_file"@, "--link_flags="@),
        ("link_search_paths_file"@, "--link_search_paths="@),
        ("output_dep_env_path"@, "--dep_env_out="@),
        ("rundir"@, "--rundir="@),
        ("cargo_manifest_args"@, "--cargo_manifest_args="@),
    ]
}

/// The first of the listed arguments that is not given.
pub open spec fn first_missing(
    args: Seq<Seq<char>>,
    wanted: Seq<(Seq<char>, Seq<char>)>,
) -> Option<Seq<char>>
    decreases wanted.len(),
{
    if wanted.len() == 0 {
        None
    } else if last_value(args, wanted[0].1) is None {
        Some(wanted[0].0)
    } else {
        first_missing(args, wanted.skip(1))
    }
}

/// What is reported of an argument that is not given.
pub open spec fn not_provided(name: Seq<char>) -> Seq<char> {
    "Argument `"@ + name + "` not provided"@
}

/// A flag as the command line has them: one `=`, at the end.
spec fn is_flag(flag: Seq<char>) -> bool {
    &&& flag.len() > 0
    &&& flag.last() == '='
    &&& forall|i: int| 0 <= i < flag.len() - 1 ==> flag[i] != '='
}

/// An argument up to its first `=`, the `=` included.
spec fn head(arg: Seq<char>) -> Seq<char> {
    arg.take(find(arg, '=') as int + 1)
}

/// The flag that an argument starts with is the argument up to its first `=`.
proof fn lemma_head(arg: Seq<char>, flag: Seq<char>)
    requires
        is_flag(flag),
    ensures
        flag.is_prefix_of(arg) <==> find(arg, '=') < arg.len() && head(arg) == flag,
{
    lemma_find(arg, '=');
    let i = find(arg, '=') as int;
    if flag.is_prefix_of(arg) {
        let n = flag.len() as int;
        assert(arg.subrange(0, n)[n - 1] == flag[n - 1]);
        assert(arg[n - 1] == '=');
        assert(arg.contains('='));
        if i < n - 1 {
            assert(arg.subrange(0, n)[i] == flag[i]);
        }
        assert(i == n - 1);
        assert(head(arg) =~= flag);
    }
    if i < arg.len() && head(arg) == flag {
        assert(arg.subrange(0, flag.len() as int) =~= flag);
    }
}

/// The text of what the command line says.
pub struct ArgsView {
    pub progname: Seq<char>,
    pub crate_links: Seq<char>,
    pub out_dir: Seq<char>,
    pub env_file: Seq<char>,
    pub compile_flags_file: Seq<char>,
    pub link_flags_file: Seq<char>,
    pub link_search_paths_file: Seq<char>,
    pub output_dep_env_path: Seq<char>,
    pub stdout_path: Option<Seq<char>>,
    pub stderr_path: Option<Seq<char>>,
    pub rundir: Seq<char>,
    pub input_dep_env_paths: Seq<Seq<char>>,
    pub cargo_manifest_args: Seq<Seq<char>>,
}

impl View for Args {
    type V = ArgsView;

    open spec fn view(&self) -> ArgsView {
        ArgsView {
            progname: self.progname@,
            crate_links: self.crate_links@,
            out_dir: self.out_dir@,
            env_file: self.env_file@,
            compile_flags_file: self.compile_flags_file@,
            link_flags_file: self.link_flags_file@,
            link_search_paths_file: self.link_search_paths_file@,
            output_dep_env_path: self.output_dep_env_path@,
            stdout_path: opt_text(self.stdout_path),
            stderr_path: opt_text(self.stderr_path),
            rundir: self.rundir@,
            input_dep_env_paths: texts(self.input_dep_env_paths@),
            cargo_manifest_args: texts(self.cargo_manifest_args@),
        }
    }
}

/// What a command line says, or what is reported of it. The last value given
/// to a flag counts; of the flags for input variables and parameter files
/// every value does. Other arguments are ignored.
pub open spec fn parsed(args: Seq<Seq<char>>) -> Result<ArgsView, Seq<char>> {
    outcome(after_program(args))
}

/// What the arguments after the name of the program say.
pub open spec fn outcome(given: Seq<Seq<char>>) -> Result<ArgsView, Seq<char>> {
    match first_missing(given, required()) {
        Some(name) => Err(not_provided(name)),
        None => Ok(
            ArgsView {
                progname: last_value(given, "--script="@)->0,
                crate_links: last_value(given, "--links="@)->0,
                out_dir: last_value(given, "--out_dir="@)->0,
                env_file: last_value(given, "--env_out="@)->0,
                compile_flags_file: last_value(given, "--flags_out="@)->0,
                link_flags_file: last_value(given, "--link_flags="@)->0,
                link_search_paths_file: last_value(given, "--link_search_paths="@)->0,
                output_dep_env_path: last_value(given, "--dep_env_out="@)->0,
                stdout_path: last_value(given, "--stdout="@),
                stderr_path: last_value(given, "--stderr="@),
                rundir: last_value(given, "--rundir="@)->0,
                input_dep_env_paths: flag_values(given, "--input_dep_env_path="@),
                cargo_manifest_args: flag_values(given, "--cargo_manifest_args="@),
            },
        ),
    }
}

/// Which of the flags, by number, an argument starts with.
pub(crate) open spec fn flag_number(arg: Seq<char>) -> int {
    if "--script="@.is_prefix_of(arg) {
        0
    } else if "--links="@.is_prefix_of(arg) {
        1
    } else if "--out_dir="@.is_prefix_of(arg) {
        2
    } else if "--env_out="@.is_prefix_of(arg) {
        3
    } else if "--flags_out="@.is_prefix_of(arg) {
        4
    } else if "--link_flags="@.is_prefix_of(arg) {
        5
    } else if "--link_search_paths="@.is_prefix_of(arg) {
        6
    } else if "--dep_env_out="@.is_prefix_of(arg) {
        7
    } else if "--stdout="@.is_prefix_of(arg) {
        8
    } else if "--stderr="@.is_prefix_of(arg) {
        9
    } else if "--rundir="@.is_prefix_of(arg) {
        10
    } else if "--input_dep_env_path="@.is_prefix_of(arg) {
        11
    } else if "--cargo_manifest_args="@.is_prefix_of(arg) {
        12
    } else {
        -1
    }
}

/// An argument starts with one of the flags at most.
pub(crate) proof fn lemma_one_flag(arg: Seq<char>)
    ensures
        "--script="@.is_prefix_of(arg) <==> flag_number(arg) == 0,
        "--links="@.is_prefix_of(arg) <==> flag_number(arg) == 1,
        "--out_dir="@.is_prefix_of(arg) <==> flag_number(arg) == 2,
        "--env_out="@.is_prefix_of(arg) <==> flag_number(arg) == 3,
        "--flags_out="@.is_prefix_of(arg) <==> flag_number(arg) == 4,
        "--link_flags="@.is_prefix_of(arg) <==> flag_number(arg) == 5,
        "--link_search_paths="@.is_prefix_of(arg) <==> flag_number(arg) == 6,
        "--dep_env_out="@.is_prefix_of(arg) <==> flag_number(arg) == 7,
        "--stdout="@.is_prefix_of(arg) <==> flag_number(arg) == 8,
        "--stderr="@.is_prefix_of(arg) <==> flag_number(arg) == 9,
        "--rundir="@.is_prefix_of(arg) <==> flag_number(arg) == 10,
        "--input_dep_env_path="@.is_prefix_of(arg) <==> flag_number(arg) == 11,
        "--cargo_manifest_args="@.is_prefix_of(arg) <==> flag_number(arg) == 12,
{
    reveal_strlit("--script=");
    reveal_strlit("--links=");
    reveal_strlit("--out_dir=");
    reveal_strlit("--env_out=");
    reveal_strlit("--flags_out=");
    reveal_strlit("--link_flags=");
    reveal_strlit("--link_search_paths=");
    reveal_strlit("--dep_env_out=");
    reveal_strlit("--stdout=");
    reveal_strlit("--stderr=");
    reveal_strlit("--rundir=");
    reveal_strlit("--input_dep_env_path=");
    reveal_strlit("--cargo_manifest_args=");
    lemma_head(arg, "--script="@);
    lemma_head(arg, "--links="@);
    lemma_head(arg, "--out_dir="@);
    lemma_head(arg, "--env_out="@);
    lemma_head(arg, "--flags_out="@);
    lemma_head(arg, "--link_flags="@);
    lemma_head(arg, "--link_search_paths="@);
    lemma_head(arg, "--dep_env_out="@);
    lemma_head(arg, "--stdout="@);
    lemma_head(arg, "--stderr="@);
    lemma_head(arg, "--rundir="@);
    lemma_head(arg, "--input_dep_env_path="@);
    lemma_head(arg, "--cargo_manifest_args="@);
    // Flags of one length differ in a character.
    assert("--script="@[3] == 'c' && "--stdout="@[3] == 't' && "--stderr="@[3] == 't'
        && "--rundir="@[3] == 'u');
    assert("--stdout="@[5] == 'o' && "--stderr="@[5] == 'e');
    assert("--out_dir="@[2] == 'o' && "--env_out="@[2] == 'e');
}

/// What the arguments seen so far give.
struct Given {
    progname: Option<String>,
    crate_links: Option<String>,
    out_dir: Option<String>,
    env_file: Option<String>,
    compile_flags_file: Option<String>,
    link_flags_file: Option<String>,
    link_search_paths_file: Option<String>,
    output_dep_env_path: Option<String>,
    stdout_path: Option<String>,
    stderr_path: Option<String>,
    rundir: Option<String>,
    input_dep_env_paths: Vec<String>,
    cargo_manifest_args: Vec<String>,
}

impl Given {
    spec fn holds(&self, seen: Seq<Seq<char>>) -> bool {
        &&& opt_text(self.progname) == last_value(seen, "--script="@)
        &&& opt_text(self.crate_links) == last_value(seen, "--links="@)
        &&& opt_text(self.out_dir) == last_value(seen, "--out_dir="@)
        &&& opt_text(self.env_file) == last_value(seen, "--env_out="@)
        &&& opt_text(self.compile_flags_file) == last_value(seen, "--flags_out="@)
        &&& opt_text(self.link_flags_file) == last_value(seen, "--link_flags="@)
        &&& opt_text(self.link_search_paths_file) == last_value(seen, "--link_search_paths="@)
        &&& opt_text(self.output_dep_env_path) == last_value(seen, "--dep_env_out="@)
        &&& opt_text(self.stdout_path) == last_value(seen, "--stdout="@)
        &&& opt_text(self.stderr_path) == last_value(seen, "--stderr="@)
        &&& opt_text(self.rundir) == last_value(seen, "--rundir="@)
        &&& texts(self.input_dep_env_paths@) == flag_values(seen, "--input_dep_env_path="@)
        &&& texts(self.cargo_manifest_args@) == flag_values(seen, "--cargo_manifest_args="@)
    }

    /// Nothing yet.
    fn nothing() -> (r: Self)
        ensures
            r.holds(Seq::empty()),
    {
        let r = Given {
            progname: None,
            crate_links: None,
            out_dir: None,
            env_file: None,
            compile_flags_file: None,
            link_flags_file: None,
            link_search_paths_file: None,
            output_dep_env_path: None,
            stdout_path: None,
            stderr_path: None,
            rundir: None,
            input_dep_env_paths: Vec::new(),
            cargo_manifest_args: Vec::new(),
        };
        assert(texts(r.input_dep_env_paths@) =~= Seq::empty());
        assert(texts(r.cargo_manifest_args@) =~= Seq::empty());
        r
    }

    /// Adds what one more argument gives.
    fn take(&mut self, arg: &str, Ghost(seen): Ghost<Seq<Seq<char>>>)
        requires
            old(self).holds(seen),
        ensures
            final(self).holds(seen.push(arg@)),
    {
        proof {
            lemma_one_flag(arg@);
            assert(seen.push(arg@).drop_last() =~= seen);
        }

        if let Some(value) = strip_start(arg, "--script=") {
            self.progname = Some(value);
        } else if let Some(value) = strip_start(arg, "--links=") {
            self.crate_links = Some(value);
        } else if let Some(value) = strip_start(arg, "--out_dir=") {
            self.out_dir = Some(value);
        } else if let Some(value) = strip_start(arg, "--env_out=") {
            self.env_file = Some(value);
        } else if let Some(value) = strip_start(arg, "--flags_out=") {
            self.compile_flags_file = Some(value);
        } else if let Some(value) = strip_start(arg, "--link_flags=") {
            self.link_flags_file = Some(value);
        } else if let Some(value) = strip_start(arg, "--link_search_paths=") {
            self.link_search_paths_file = Some(value);
        } else if let Some(value) = strip_start(arg, "--dep_env_out=") {
            self.output_dep_env_path = Some(value);
        } else if let Some(value) = strip_start(arg, "--stdout=") {
            self.stdout_path = Some(value);
        } else if let Some(value) = strip_start(arg, "--stderr=") {
            self.stderr_path = Some(value);
        } else if let Some(value) = strip_start(arg, "--rundir=") {
            self.rundir = Some(value);
        } else if let Some(value) = strip_start(arg, "--input_dep_env_path=") {
            let ghost list = texts(self.input_dep_env_paths@);
            let ghost added = value@;
            self.input_dep_env_paths.push(value);
            assert(texts(self.input_dep_env_paths@) =~= list.push(added));
        } else if let Some(value) = strip_start(arg, "--cargo_manifest_args=") {
            let ghost list = texts(self.cargo_manifest_args@);
            let ghost added = value@;
            self.cargo_manifest_args.push(value);
            assert(texts(self.cargo_manifest_args@) =~= list.push(added));
        }
    }

    /// What has been given, where nothing is missing.
    fn finish(self, Ghost(seen): Ghost<Seq<Seq<char>>>) -> (r: Result<Args, String>)
        requires
            self.holds(seen),
        ensures
            match r {
                Ok(said) => outcome(seen) == Ok::<ArgsView, Seq<char>>(said@),
                Err(message) => outcome(seen) == Err::<ArgsView, Seq<char>>(message@),
            },
    {
        proof {
            lemma_first_missing(seen);
        }

        let progname = match self.progname {
            Some(text) => text,
            None => {
                return Err(missing("progname"));
            },
        };
        let crate_links = match self.crate_links {
            Some(text) => text,
            None => {
                return Err(missing("crate_links"));
            },
        };
        let out_dir = match self.out_dir {
            Some(text) => text,
            None => {
                return Err(missing("out_dir"));
            },
        };
        let env_file = match self.env_file {
            Some(text) => text,
            None => {
                return Err(missing("env_file"));
            },
        };
        let compile_flags_file = match self.compile_flags_file {
            Some(text) => text,
            None => {
                return Err(missing("compile_flags_file"));
            },
        };
        let link_flags_file = match self.link_flags_file {
            Some(text) => text,
            None => {
                return Err(missing("link_flags_file"));
            },
        };
        let link_search_paths_file = match self.link_search_paths_file {
            Some(text) => text,
            None => {
                return Err(missing("link_search_paths_file"));
            },
        };
        let output_dep_env_path = match self.output_dep_env_path {
            Some(text) => text,
            None => {
                return Err(missing("output_dep_env_path"));
            },
        };
        let rundir = match self.rundir {
            Some(text) => text,
            None => {
                return Err(missing("rundir"));
            },
        };
        if self.cargo_manifest_args.len() == 0 {
            return Err(missing("cargo_manifest_args"));
        }
        Ok(
            Args {
                progname,
                crate_links,
                out_dir,
                env_file,
                compile_flags_file,
                link_flags_file,
                link_search_paths_file,
                output_dep_env_path,
                stdout_path: self.stdout_path,
                stderr_path: self.stderr_path,
                rundir,
                input_dep_env_paths: self.input_dep_env_paths,
                cargo_manifest_args: self.cargo_manifest_args,
            },
        )
    }
}

/// The first argument that is missing, one question after the other.
pub proof fn lemma_first_missing(given: Seq<Seq<char>>)
    ensures
        first_missing(given, required()) == (
        if last_value(given, "--script="@) is None {
            Some("progname"@)
        } else if last_value(given, "--links="@) is None {
            Some("crate_links"@)
        } else if last_value(given, "--out_dir="@) is None {
            Some("out_dir"@)
        } else if last_value(given, "--env_out="@) is None {
            Some("env_file"@)
        } else if last_value(given, "--flags_out="@) is None {
            Some("compile_flags_file"@)
        } else if last_value(given, "--link_flags="@) is None {
            Some("link_flags_file"@)
        } else if last_value(given, "--link_search_paths="@) is None {
            Some("link_search_paths_file"@)
        } else if last_value(given, "--dep_env_out="@) is None {
            Some("output_dep_env_path"@)
        } else if last_value(given, "--rundir="@) is None {
            Some("rundir"@)
        } else if last_value(given, "--cargo_manifest_args="@) is None {
            Some("cargo_manifest_args"@)
        } else {
            None
        }),
{
    reveal_with_fuel(first_missing, 11);
    let all = required();
    assert forall|i: int| 0 <= i < 10 implies #[trigger] all.skip(i).skip(1) == all.skip(i + 1) by {
        assert(all.skip(i).skip(1) =~= all.skip(i + 1));
    }
    assert(all.skip(0) =~= all);
    assert(all.skip(0).skip(1) == all.skip(1) && all.skip(0)[0] == all[0]);
    assert(all.skip(1).skip(1) == all.skip(2) && all.skip(1)[0] == all[1]);
    assert(all.skip(2).skip(1) == all.skip(3) && all.skip(2)[0] == all[2]);
    assert(all.skip(3).skip(1) == all.skip(4) && all.skip(3)[0] == all[3]);
    assert(all.skip(4).skip(1) == all.skip(5) && all.skip(4)[0] == all[4]);
    assert(all.skip(5).skip(1) == all.skip(6) && all.skip(5)[0] == all[5]);
    assert(all.skip(6).skip(1) == all.skip(7) && all.skip(6)[0] == all[6]);
    assert(all.skip(7).skip(1) == all.skip(8) && all.skip(7)[0] == all[7]);
    assert(all.skip(8).skip(1) == all.skip(9) && all.skip(8)[0] == all[8]);
    assert(all.skip(9).skip(1) == all.skip(10) && all.skip(9)[0] == all[9]);
}

/// Reports an argument that is not given.
fn missing(name: &str) -> (r: String)
    ensures
        r@ == not_provided(name@),
{
    let mut message = String::new();
    message.append("Argument `");
    message.append(name);
    message.append("` not provided");
    assert(message@ =~= not_provided(name@));
    message
}

/// The parameter files that a command line names, in order, whatever else it
/// says.
pub fn manifest_param_files(args: &Vec<String>) -> (r: Vec<String>)
    ensures
        texts(r@) == flag_values(after_program(texts(args@)), "--cargo_manifest_args="@),
{
    read_given(args).cargo_manifest_args
}

/// What the arguments after the name of the program give.
fn read_given(args: &Vec<String>) -> (r: Given)
    ensures
        r.holds(after_program(texts(args@))),
{
    let ghost all = after_program(texts(args@));
    let mut given = Given::nothing();
    let mut i: usize = 1;
    assert(all.take(0) =~= Seq::empty());
    while i < args.len()
        invariant
            1 <= i,
            all == after_program(texts(args@)),
            args@.len() > 0 ==> i <= args@.len(),
            args@.len() == 0 ==> i == 1,
            given.holds(all.take(i - 1)),
        decreases args@.len() - i,
    {
        given.take(args[i].as_str(), Ghost(all.take(i - 1)));
        assert(all.take(i - 1).push(args@[i as int]@) =~= all.take(i as int));
        i = i + 1;
    }
    assert(all.take(i - 1) =~= all);
    given
}

impl Args {
    /// Reads a command line, the name of the program first.
    pub fn parse(args: &Vec<String>) -> (r: Result<Args, String>)
        ensures
            match r {
                Ok(said) => parsed(texts(args@)) == Ok::<ArgsView, Seq<char>>(said@),
                Err(message) => parsed(texts(args@)) == Err::<ArgsView, Seq<char>>(message@),
            },
    {
        read_given(args).finish(Ghost(after_program(texts(args@))))
    }
}

/// The flags that the command line knows.
pub open spec fn flags() -> Seq<Seq<char>> {
    seq![
        "--script="@,
        "--links="@,
        "--out_dir="@,
        "--env_out="@,
        "--flags_out="@,
        "--link_flags="@,
        "--link_search_paths="@,
        "--dep_env_out="@,
        "--stdout="@,
        "--stderr="@,
        "--rundir="@,
        "--input_dep_env_path="@,
        "--cargo_manifest_args="@,
    ]
}

/// Arguments one after the other give a flag their values one after the other.
pub proof fn lemma_values_concat(a: Seq<Seq<char>>, b: Seq<Seq<char>>, flag: Seq<char>)
    ensures
        flag_values(a + b, flag) == flag_values(a, flag) + flag_values(b, flag),
    decreases b.len(),
{
    if b.len() == 0 {
        assert(a + b =~= a);
        assert(flag_values(a, flag) + flag_values(b, flag) =~= flag_values(a, flag));
    } else {
        assert((a + b).drop_last() =~= a + b.drop_last());
        assert((a + b).last() == b.last());
        lemma_values_concat(a, b.drop_last(), flag);
        assert(flag_values(a + b, flag) =~= flag_values(a, flag) + flag_values(b, flag));
    }
}

/// Arguments that give every flag the same values say the same.
proof fn lemma_same_outcome(a: Seq<Seq<char>>, b: Seq<Seq<char>>)
    requires
        forall|i: int|
            0 <= i < flags().len() ==> flag_values(a, #[trigger] flags()[i]) == flag_values(
                b,
                flags()[i],
            ),
    ensures
        outcome(a) == outcome(b),
{
    assert(flags()[0] == "--script="@);
    assert(flags()[1] == "--links="@);
    assert(flags()[2] == "--out_dir="@);
    assert(flags()[3] == "--env_out="@);
    assert(flags()[4] == "--flags_out="@);
    assert(flags()[5] == "--link_flags="@);
    assert(flags()[6] == "--link_search_paths="@);
    assert(flags()[7] == "--dep_env_out="@);
    assert(flags()[8] == "--stdout="@);
    assert(flags()[9] == "--stderr="@);
    assert(flags()[10] == "--rundir="@);
    assert(flags()[11] == "--input_dep_env_path="@);
    assert(flags()[12] == "--cargo_manifest_args="@);
    lemma_first_missing(a);
    lemma_first_missing(b);
}

/// No argument is read for two flags.
pub proof fn law_one_flag_at_most(arg: Seq<char>, i: int, j: int)
    requires
        0 <= i < j < flags().len(),
    ensures
        !(flags()[i].is_prefix_of(arg) && flags()[j].is_prefix_of(arg)),
{
    lemma_one_flag(arg);
}

/// An argument that starts with none of the flags changes nothing, wherever it
/// stands.
pub proof fn law_other_arguments_are_ignored(
    earlier: Seq<Seq<char>>,
    other: Seq<char>,
    later: Seq<Seq<char>>,
)
    requires
        forall|i: int| 0 <= i < flags().len() ==> !(#[trigger] flags()[i]).is_prefix_of(other),
    ensures
        outcome(earlier + seq![other] + later) == outcome(earlier + later),
{
    assert forall|i: int| 0 <= i < flags().len() implies flag_values(
        earlier + seq![other] + later,
        #[trigger] flags()[i],
    ) == flag_values(earlier + later, flags()[i]) by {
        let flag = flags()[i];
        lemma_values_concat(earlier + seq![other], later, flag);
        lemma_values_concat(earlier, seq![other], flag);
        lemma_values_concat(earlier, later, flag);
        lemma_one_argument(other, flag);
        assert(flag_values(earlier, flag) + Seq::<Seq<char>>::empty() =~= flag_values(earlier, flag));
    }
    lemma_same_outcome(earlier + seq![other] + later, earlier + later);
}

/// The order of arguments for different flags does not matter.
pub proof fn law_flags_in_any_order(
    earlier: Seq<Seq<char>>,
    first: Seq<char>,
    second: Seq<char>,
    later: Seq<Seq<char>>,
)
    requires
        forall|i: int|
            0 <= i < flags().len() ==> !((#[trigger] flags()[i]).is_prefix_of(first)
                && flags()[i].is_prefix_of(second)),
    ensures
        outcome(earlier + seq![first] + seq![second] + later) == outcome(
            earlier + seq![second] + seq![first] + later,
        ),
{
    let one = earlier + seq![first] + seq![second] + later;
    let two = earlier + seq![second] + seq![first] + later;
    assert forall|i: int| 0 <= i < flags().len() implies flag_values(one, #[trigger] flags()[i])
        == flag_values(two, flags()[i]) by {
        let flag = flags()[i];
        lemma_values_concat(earlier + seq![first] + seq![second], later, flag);
        lemma_values_concat(earlier + seq![second] + seq![first], later, flag);
        lemma_values_concat(earlier + seq![first], seq![second], flag);
        lemma_values_concat(earlier + seq![second], seq![first], flag);
        lemma_values_concat(earlier, seq![first], flag);
        lemma_values_concat(earlier, seq![second], flag);
        lemma_one_argument(first, flag);
        lemma_one_argument(second, flag);
        assert(flag_values(one, flag) =~= flag_values(two, flag));
    }
    lemma_same_outcome(one, two);
}

/// What one argument by itself gives.
pub proof fn lemma_one_argument(arg: Seq<char>, flag: Seq<char>)
    ensures
        flag_values(seq![arg], flag) == (if flag.is_prefix_of(arg) {
            seq![arg.skip(flag.len() as int)]
        } else {
            Seq::<Seq<char>>::empty()
        }),
{
    reveal_with_fuel(flag_values, 2);
    assert(seq![arg].drop_last() =~= Seq::empty());
    assert(flag_values(seq![arg], flag) =~= (if flag.is_prefix_of(arg) {
        seq![arg.skip(flag.len() as int)]
    } else {
        Seq::<Seq<char>>::empty()
    }));
}

} // verus!
