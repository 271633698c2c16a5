//! What holds of a command line that is read.

use vstd::prelude::*;

#[allow(unused_imports)]
use crate::args::{after_program, flag_number, flag_values, flags, last_value, law_flags_in_any_order, law_other_arguments_are_ignored, lemma_first_missing, lemma_one_argument, lemma_one_flag, lemma_values_concat, manifest_param_files, not_provided, outcome, Args};
#[allow(unused_imports)]
use crate::text::{opt_text, texts};

verus! {

/// Some argument after the name of the program starts with the flag.
pub open spec fn is_given(args: Seq<String>, flag: Seq<char>) -> bool {
    exists|i: int| 1 <= i < args.len() && flag.is_prefix_of(#[trigger] args[i]@)
}

/// The argument at a position is the flag with the value behind it, and no
/// later argument starts with the flag.
pub open spec fn is_given_last(
    args: Seq<String>,
    flag: Seq<char>,
    value: Seq<char>,
    at: int,
) -> bool {
    &&& 1 <= at < args.len()
    &&& args[at]@ == flag + value
    &&& forall|j: int| at < j < args.len() ==> !flag.is_prefix_of(#[trigger] args[j]@)
}

/// The flag is one that the command line knows.
pub open spec fn is_known(flag: Seq<char>) -> bool {
    ||| flag == "--script="@
    ||| flag == "--links="@
    ||| flag == "--out_dir="@
    ||| flag == "--env_out="@
    ||| flag == "--flags_out="@
    ||| flag == "--link_flags="@
    ||| flag == "--link_search_paths="@
    ||| flag == "--dep_env_out="@
    ||| flag == "--stdout="@
    ||| flag == "--stderr="@
    ||| flag == "--rundir="@
    ||| flag == "--input_dep_env_path="@
    ||| flag == "--cargo_manifest_args="@
}

/// Behind a flag stands its value.
proof fn lemma_behind_flag(flag: Seq<char>, value: Seq<char>)
    ensures
        flag.is_prefix_of(flag + value),
        (flag + value).skip(flag.len() as int) == value,
{
    let arg = flag + value;
    assert(arg.subrange(0, flag.len() as int) =~= flag);
    assert(arg.skip(flag.len() as int) =~= value);
}

/// The last argument that starts with a flag gives its last value.
proof fn lemma_last_of_flag(given: Seq<Seq<char>>, flag: Seq<char>, at: int)
    requires
        0 <= at < given.len(),
        flag.is_prefix_of(given[at]),
        forall|j: int| at < j < given.len() ==> !flag.is_prefix_of(#[trigger] given[j]),
    ensures
        last_value(given, flag) == Some(given[at].skip(flag.len() as int)),
    decreases given.len(),
{
    if at < given.len() - 1 {
        let rest = given.drop_last();
        assert(!flag.is_prefix_of(given[given.len() - 1]));
        assert forall|j: int| at < j < rest.len() implies !flag.is_prefix_of(#[trigger] rest[j]) by {
            assert(rest[j] == given[j]);
        }
        lemma_last_of_flag(rest, flag, at);
    }
}

/// Without an argument that starts with it, a flag has no value.
proof fn lemma_none_of_flag(given: Seq<Seq<char>>, flag: Seq<char>)
    requires
        forall|j: int| 0 <= j < given.len() ==> !flag.is_prefix_of(#[trigger] given[j]),
    ensures
        flag_values(given, flag).len() == 0,
    decreases given.len(),
{
    if given.len() > 0 {
        let rest = given.drop_last();
        assert(!flag.is_prefix_of(given[given.len() - 1]));
        assert forall|j: int| 0 <= j < rest.len() implies !flag.is_prefix_of(#[trigger] rest[j]) by {
            assert(rest[j] == given[j]);
        }
        lemma_none_of_flag(rest, flag);
    }
}

/// With an argument that starts with it, a flag has a value.
proof fn lemma_some_of_flag(given: Seq<Seq<char>>, flag: Seq<char>, at: int)
    requires
        0 <= at < given.len(),
        flag.is_prefix_of(given[at]),
    ensures
        flag_values(given, flag).len() > 0,
    decreases given.len(),
{
    if at < given.len() - 1 {
        lemma_some_of_flag(given.drop_last(), flag, at);
    }
}

/// What the arguments after the name of the program give to a flag.
proof fn lemma_given(args: Seq<String>, flag: Seq<char>)
    ensures
        last_value(after_program(texts(args)), flag) is Some <==> is_given(args, flag),
        !is_given(args, flag) ==> flag_values(after_program(texts(args)), flag) == Seq::<
            Seq<char>,
        >::empty(),
{
    let given = after_program(texts(args));
    if is_given(args, flag) {
        let i = choose|i: int| 1 <= i < args.len() && flag.is_prefix_of(#[trigger] args[i]@);
        assert(given[i - 1] == args[i]@);
        lemma_some_of_flag(given, flag, i - 1);
    } else {
        assert forall|j: int| 0 <= j < given.len() implies !flag.is_prefix_of(#[trigger] given[j]) by {
            assert(given[j] == args[j + 1]@);
        }
        lemma_none_of_flag(given, flag);
        assert(flag_values(given, flag) =~= Seq::empty());
    }
}

/// What the last argument for a flag gives.
proof fn lemma_given_last(args: Seq<String>, flag: Seq<char>, value: Seq<char>, at: int)
    ensures
        is_given_last(args, flag, value, at) ==> last_value(after_program(texts(args)), flag) == Some(
            value,
        ),
{
    if is_given_last(args, flag, value, at) {
        let given = after_program(texts(args));
        assert(given[at - 1] == args[at]@);
        lemma_behind_flag(flag, value);
        assert forall|j: int| at - 1 < j < given.len() implies !flag.is_prefix_of(
            #[trigger] given[j],
        ) by {
            assert(given[j] == args[j + 1]@);
        }
        lemma_last_of_flag(given, flag, at - 1);
    }
}

/// A command line is accepted exactly where every flag that has to be given is.
pub proof fn law_accepted_where_nothing_is_missing(args: &Vec<String>, r: Result<Args, String>)
    requires
        call_ensures(Args::parse, (args,), r),
    ensures
        r is Ok <==> {
            &&& is_given(args@, "--script="@)
            &&& is_given(args@, "--links="@)
            &&& is_given(args@, "--out_dir="@)
            &&& is_given(args@, "--env_out="@)
            &&& is_given(args@, "--flags_out="@)
            &&& is_given(args@, "--link_flags="@)
            &&& is_given(args@, "--link_search_paths="@)
            &&& is_given(args@, "--dep_env_out="@)
            &&& is_given(args@, "--rundir="@)
            &&& is_given(args@, "--cargo_manifest_args="@)
        },
{
    lemma_given(args@, "--script="@);
    lemma_given(args@, "--links="@);
    lemma_given(args@, "--out_dir="@);
    lemma_given(args@, "--env_out="@);
    lemma_given(args@, "--flags_out="@);
    lemma_given(args@, "--link_flags="@);
    lemma_given(args@, "--link_search_paths="@);
    lemma_given(args@, "--dep_env_out="@);
    lemma_given(args@, "--rundir="@);
    lemma_given(args@, "--cargo_manifest_args="@);
    lemma_first_missing(after_program(texts(args@)));
}

/// The first flag that is missing, in the order of the fields, is reported by
/// the name of its field.
pub proof fn law_first_missing_is_reported(args: &Vec<String>, message: String)
    requires
        call_ensures(Args::parse, (args,), Err::<Args, String>(message)),
    ensures
        message@ == (
        if !is_given(args@, "--script="@) {
            "Argument `progname` not provided"@
        } else if !is_given(args@, "--links="@) {
            "Argument `crate_links` not provided"@
        } else if !is_given(args@, "--out_dir="@) {
            "Argument `out_dir` not provided"@
        } else if !is_given(args@, "--env_out="@) {
            "Argument `env_file` not provided"@
        } else if !is_given(args@, "--flags_out="@) {
            "Argument `compile_flags_file` not provided"@
        } else if !is_given(args@, "--link_flags="@) {
            "Argument `link_flags_file` not provided"@
        } else if !is_given(args@, "--link_search_paths="@) {
            "Argument `link_search_paths_file` not provided"@
        } else if !is_given(args@, "--dep_env_out="@) {
            "Argument `output_dep_env_path` not provided"@
        } else if !is_given(args@, "--rundir="@) {
            "Argument `rundir` not provided"@
        } else {
            "Argument `cargo_manifest_args` not provided"@
        }),
{
    reveal_strlit("Argument `");
    reveal_strlit("` not provided");
    reveal_strlit("progname");
    reveal_strlit("Argument `progname` not provided");
    assert(not_provided("progname"@) =~= "Argument `progname` not provided"@);
    lemma_given(args@, "--script="@);
    reveal_strlit("crate_links");
    reveal_strlit("Argument `crate_links` not provided");
    assert(not_provided("crate_links"@) =~= "Argument `crate_links` not provided"@);
    lemma_given(args@, "--links="@);
    reveal_strlit("out_dir");
    reveal_strlit("Argument `out_dir` not provided");
    assert(not_provided("out_dir"@) =~= "Argument `out_dir` not provided"@);
    lemma_given(args@, "--out_dir="@);
    reveal_strlit("env_file");
    reveal_strlit("Argument `env_file` not provided");
    assert(not_provided("env_file"@) =~= "Argument `env_file` not provided"@);
    lemma_given(args@, "--env_out="@);
    reveal_strlit("compile_flags_file");
    reveal_strlit("Argument `compile_flags_file` not provided");
    assert(not_provided("compile_flags_file"@) =~= "Argument `compile_flags_file` not provided"@);
    lemma_given(args@, "--flags_out="@);
    reveal_strlit("link_flags_file");
    reveal_strlit("Argument `link_flags_file` not provided");
    assert(not_provided("link_flags_file"@) =~= "Argument `link_flags_file` not provided"@);
    lemma_given(args@, "--link_flags="@);
    reveal_strlit("link_search_paths_file");
    reveal_strlit("Argument `link_search_paths_file` not provided");
    assert(not_provided("link_search_paths_file"@) =~= "Argument `link_search_paths_file` not provided"@);
    lemma_given(args@, "--link_search_paths="@);
    reveal_strlit("output_dep_env_path");
    reveal_strlit("Argument `output_dep_env_path` not provided");
    assert(not_provided("output_dep_env_path"@) =~= "Argument `output_dep_env_path` not provided"@);
    lemma_given(args@, "--dep_env_out="@);
    reveal_strlit("rundir");
    reveal_strlit("Argument `rundir` not provided");
    assert(not_provided("rundir"@) =~= "Argument `rundir` not provided"@);
    lemma_given(args@, "--rundir="@);
    reveal_strlit("cargo_manifest_args");
    reveal_strlit("Argument `cargo_manifest_args` not provided");
    assert(not_provided("cargo_manifest_args"@) =~= "Argument `cargo_manifest_args` not provided"@);
    lemma_given(args@, "--cargo_manifest_args="@);
    lemma_first_missing(after_program(texts(args@)));
}

/// What the last argument for a flag says is what the flag's own field holds.
pub proof fn law_last_value_counts(args: &Vec<String>, said: Args, value: Seq<char>, at: int)
    requires
        call_ensures(Args::parse, (args,), Ok::<Args, String>(said)),
    ensures
        is_given_last(args@, "--script="@, value, at) ==> said.progname@ == value,
        is_given_last(args@, "--links="@, value, at) ==> said.crate_links@ == value,
        is_given_last(args@, "--out_dir="@, value, at) ==> said.out_dir@ == value,
        is_given_last(args@, "--env_out="@, value, at) ==> said.env_file@ == value,
        is_given_last(args@, "--flags_out="@, value, at) ==> said.compile_flags_file@ == value,
        is_given_last(args@, "--link_flags="@, value, at) ==> said.link_flags_file@ == value,
        is_given_last(args@, "--link_search_paths="@, value, at) ==> said.link_search_paths_file@ == value,
        is_given_last(args@, "--dep_env_out="@, value, at) ==> said.output_dep_env_path@ == value,
        is_given_last(args@, "--stdout="@, value, at) ==> said.stdout_path is Some && said.stdout_path->0@ == value,
        is_given_last(args@, "--stderr="@, value, at) ==> said.stderr_path is Some && said.stderr_path->0@ == value,
        is_given_last(args@, "--rundir="@, value, at) ==> said.rundir@ == value,
        is_given_last(args@, "--input_dep_env_path="@, value, at) ==> said.input_dep_env_paths@.len() > 0 && said.input_dep_env_paths@.last()@ == value,
        is_given_last(args@, "--cargo_manifest_args="@, value, at) ==> said.cargo_manifest_args@.len() > 0 && said.cargo_manifest_args@.last()@ == value,
{
    lemma_given_last(args@, "--script="@, value, at);
    lemma_given_last(args@, "--links="@, value, at);
    lemma_given_last(args@, "--out_dir="@, value, at);
    lemma_given_last(args@, "--env_out="@, value, at);
    lemma_given_last(args@, "--flags_out="@, value, at);
    lemma_given_last(args@, "--link_flags="@, value, at);
    lemma_given_last(args@, "--link_search_paths="@, value, at);
    lemma_given_last(args@, "--dep_env_out="@, value, at);
    lemma_given_last(args@, "--stdout="@, value, at);
    lemma_given_last(args@, "--stderr="@, value, at);
    lemma_given_last(args@, "--rundir="@, value, at);
    lemma_given_last(args@, "--input_dep_env_path="@, value, at);
    lemma_given_last(args@, "--cargo_manifest_args="@, value, at);
    assert(said@.input_dep_env_paths == texts(said.input_dep_env_paths@));
    assert(said@.cargo_manifest_args == texts(said.cargo_manifest_args@));
}

/// What is not given is not there.
pub proof fn law_what_is_not_given(args: &Vec<String>, said: Args)
    requires
        call_ensures(Args::parse, (args,), Ok::<Args, String>(said)),
    ensures
        said.stdout_path is Some <==> is_given(args@, "--stdout="@),
        said.stderr_path is Some <==> is_given(args@, "--stderr="@),
        !is_given(args@, "--input_dep_env_path="@) ==> said.input_dep_env_paths@.len() == 0,
{
    lemma_given(args@, "--stdout="@);
    lemma_given(args@, "--stderr="@);
    lemma_given(args@, "--input_dep_env_path="@);
    assert(said@.input_dep_env_paths == texts(said.input_dep_env_paths@));
}

/// One more argument for a flag, behind a command line that is accepted, is
/// accepted, changes the flag's own field and no other: a list gets one value
/// more, at its end, and any other field gets the new value.
pub proof fn law_one_more_argument(
    args: &Vec<String>,
    more: &Vec<String>,
    said: Args,
    r: Result<Args, String>,
    flag: Seq<char>,
    value: Seq<char>,
)
    requires
        call_ensures(Args::parse, (args,), Ok::<Args, String>(said)),
        call_ensures(Args::parse, (more,), r),
        args@.len() > 0,
        texts(more@) == texts(args@).push(flag + value),
        is_known(flag),
    ensures
        r is Ok,
        r->Ok_0.progname@ == (if flag == "--script="@ {
            value
        } else {
            said.progname@
        }),
        r->Ok_0.crate_links@ == (if flag == "--links="@ {
            value
        } else {
            said.crate_links@
        }),
        r->Ok_0.out_dir@ == (if flag == "--out_dir="@ {
            value
        } else {
            said.out_dir@
        }),
        r->Ok_0.env_file@ == (if flag == "--env_out="@ {
            value
        } else {
            said.env_file@
        }),
        r->Ok_0.compile_flags_file@ == (if flag == "--flags_out="@ {
            value
        } else {
            said.compile_flags_file@
        }),
        r->Ok_0.link_flags_file@ == (if flag == "--link_flags="@ {
            value
        } else {
            said.link_flags_file@
        }),
        r->Ok_0.link_search_paths_file@ == (if flag == "--link_search_paths="@ {
            value
        } else {
            said.link_search_paths_file@
        }),
        r->Ok_0.output_dep_env_path@ == (if flag == "--dep_env_out="@ {
            value
        } else {
            said.output_dep_env_path@
        }),
        opt_text(r->Ok_0.stdout_path) == (if flag == "--stdout="@ {
            Some(value)
        } else {
            opt_text(said.stdout_path)
        }),
        opt_text(r->Ok_0.stderr_path) == (if flag == "--stderr="@ {
            Some(value)
        } else {
            opt_text(said.stderr_path)
        }),
        r->Ok_0.rundir@ == (if flag == "--rundir="@ {
            value
        } else {
            said.rundir@
        }),
        texts(r->Ok_0.input_dep_env_paths@) == (if flag == "--input_dep_env_path="@ {
            texts(said.input_dep_env_paths@).push(value)
        } else {
            texts(said.input_dep_env_paths@)
        }),
        texts(r->Ok_0.cargo_manifest_args@) == (if flag == "--cargo_manifest_args="@ {
            texts(said.cargo_manifest_args@).push(value)
        } else {
            texts(said.cargo_manifest_args@)
        }),
{
    let given = after_program(texts(args@));
    let arg = flag + value;
    let then = given.push(arg);
    assert(after_program(texts(more@)) =~= then);
    assert(then.drop_last() =~= given);
    lemma_behind_flag(flag, value);
    lemma_one_flag(arg);
    lemma_first_missing(given);
    lemma_first_missing(then);
    assert(outcome(given) == Ok::<crate::args::ArgsView, Seq<char>>(said@));
    assert(outcome(then) is Ok);
    assert(outcome(then) == Ok::<crate::args::ArgsView, Seq<char>>(r->Ok_0@));
}

/// The values of a flag are those of the arguments that start with it, in
/// order: arguments one after the other give theirs one after the other.
pub proof fn law_flag_values(
    a: Seq<Seq<char>>,
    b: Seq<Seq<char>>,
    flag: Seq<char>,
    value: Seq<char>,
    other: Seq<char>,
)
    requires
        !flag.is_prefix_of(other),
    ensures
        flag_values(a + b, flag) == flag_values(a, flag) + flag_values(b, flag),
        flag_values(seq![flag + value], flag) == seq![value],
        flag_values(seq![other], flag) == Seq::<Seq<char>>::empty(),
        flag_values(Seq::empty(), flag) == Seq::<Seq<char>>::empty(),
{
    lemma_values_concat(a, b, flag);
    lemma_behind_flag(flag, value);
    lemma_one_argument(flag + value, flag);
    lemma_one_argument(other, flag);
}

/// The fields that hold lists hold every value of their flags, in order, and
/// the parameter files are the same whether or not the rest is accepted.
pub proof fn law_lists_hold_every_value(
    program: Seq<char>,
    given: Seq<Seq<char>>,
    args: &Vec<String>,
    said: Args,
    files: Vec<String>,
)
    requires
        texts(args@) == seq![program] + given,
    ensures
        call_ensures(Args::parse, (args,), Ok::<Args, String>(said)) ==> texts(
            said.input_dep_env_paths@,
        ) == flag_values(given, "--input_dep_env_path="@),
        call_ensures(Args::parse, (args,), Ok::<Args, String>(said)) ==> texts(
            said.cargo_manifest_args@,
        ) == flag_values(given, "--cargo_manifest_args="@),
        call_ensures(manifest_param_files, (args,), files) ==> texts(files@) == flag_values(
            given,
            "--cargo_manifest_args="@,
        ),
{
    assert(after_program(texts(args@)) =~= given);
    if call_ensures(Args::parse, (args,), Ok::<Args, String>(said)) {
        assert(said@.input_dep_env_paths == texts(said.input_dep_env_paths@));
        assert(said@.cargo_manifest_args == texts(said.cargo_manifest_args@));
    }
}

/// The results of reading two command lines are the same.
pub open spec fn same_result(a: Result<Args, String>, b: Result<Args, String>) -> bool {
    match (a, b) {
        (Ok(x), Ok(y)) => {
            &&& x.progname@ == y.progname@
            &&& x.crate_links@ == y.crate_links@
            &&& x.out_dir@ == y.out_dir@
            &&& x.env_file@ == y.env_file@
            &&& x.compile_flags_file@ == y.compile_flags_file@
            &&& x.link_flags_file@ == y.link_flags_file@
            &&& x.link_search_paths_file@ == y.link_search_paths_file@
            &&& x.output_dep_env_path@ == y.output_dep_env_path@
            &&& opt_text(x.stdout_path) == opt_text(y.stdout_path)
            &&& opt_text(x.stderr_path) == opt_text(y.stderr_path)
            &&& x.rundir@ == y.rundir@
            &&& texts(x.input_dep_env_paths@) == texts(y.input_dep_env_paths@)
            &&& texts(x.cargo_manifest_args@) == texts(y.cargo_manifest_args@)
        },
        (Err(x), Err(y)) => x@ == y@,
        _ => false,
    }
}

proof fn lemma_same_result(a: Result<Args, String>, b: Result<Args, String>)
    requires
        match (a, b) {
            (Ok(x), Ok(y)) => x@ == y@,
            (Err(x), Err(y)) => x@ == y@,
            _ => false,
        },
    ensures
        same_result(a, b),
{
    if let (Ok(x), Ok(y)) = (a, b) {
        assert(x@.progname == x.progname@ && y@.progname == y.progname@);
        assert(x@.crate_links == x.crate_links@ && y@.crate_links == y.crate_links@);
        assert(x@.stdout_path == opt_text(x.stdout_path));
        assert(x@.input_dep_env_paths == texts(x.input_dep_env_paths@));
        assert(x@.cargo_manifest_args == texts(x.cargo_manifest_args@));
    }
}

/// The name of the program does not matter, nor does an argument that starts
/// with none of the flags, wherever it stands.
pub proof fn law_what_is_ignored(
    args: &Vec<String>,
    more: &Vec<String>,
    r: Result<Args, String>,
    then: Result<Args, String>,
    program: Seq<char>,
    other_program: Seq<char>,
    earlier: Seq<Seq<char>>,
    other: Seq<char>,
    later: Seq<Seq<char>>,
)
    requires
        call_ensures(Args::parse, (args,), r),
        call_ensures(Args::parse, (more,), then),
        texts(args@) == seq![program] + earlier + later,
        texts(more@) == seq![other_program] + earlier + seq![other] + later || texts(more@) == seq![
            other_program,
        ] + earlier + later,
        forall|flag: Seq<char>| #[trigger] is_known(flag) ==> !flag.is_prefix_of(other),
    ensures
        same_result(r, then),
{
    assert forall|i: int| 0 <= i < flags().len() implies !(#[trigger] flags()[i]).is_prefix_of(
        other,
    ) by {
        assert(is_known(flags()[i]));
    }
    law_other_arguments_are_ignored(earlier, other, later);
    assert(after_program(texts(args@)) =~= earlier + later);
    if texts(more@) == seq![other_program] + earlier + seq![other] + later {
        assert(after_program(texts(more@)) =~= earlier + seq![other] + later);
    } else {
        assert(after_program(texts(more@)) =~= earlier + later);
    }
    lemma_same_result(r, then);
}

/// Two neighbours that do not start with the same flag can change places.
pub proof fn law_neighbours_change_places(
    args: &Vec<String>,
    swapped: &Vec<String>,
    r: Result<Args, String>,
    then: Result<Args, String>,
    program: Seq<char>,
    earlier: Seq<Seq<char>>,
    first: Seq<char>,
    second: Seq<char>,
    later: Seq<Seq<char>>,
)
    requires
        call_ensures(Args::parse, (args,), r),
        call_ensures(Args::parse, (swapped,), then),
        texts(args@) == seq![program] + earlier + seq![first] + seq![second] + later,
        texts(swapped@) == seq![program] + earlier + seq![second] + seq![first] + later,
        forall|flag: Seq<char>| #[trigger]
            is_known(flag) ==> !(flag.is_prefix_of(first) && flag.is_prefix_of(second)),
    ensures
        same_result(r, then),
{
    assert forall|i: int| 0 <= i < flags().len() implies !((#[trigger] flags()[i]).is_prefix_of(
        first,
    ) && flags()[i].is_prefix_of(second)) by {
        assert(is_known(flags()[i]));
    }
    law_flags_in_any_order(earlier, first, second, later);
    assert(after_program(texts(args@)) =~= earlier + seq![first] + seq![second] + later);
    assert(after_program(texts(swapped@)) =~= earlier + seq![second] + seq![first] + later);
    lemma_same_result(r, then);
}

} // verus!
