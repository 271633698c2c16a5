//! What holds of the environment files of dependencies, of `${pwd}` in values
//! and of encoded flags.

use vstd::prelude::*;

#[allow(unused_imports)]
use crate::script::{decode_rustflags, decoded_flags, dep_pairs, encoded_flags, expand_pwd, file_pairs, line_pair, line_pairs, pair_texts, parse_dep_env, with_pwd};
#[allow(unused_imports)]
use crate::text::{find, lemma_find, lemma_find_concat, lemma_split_concat, occurs, opt_text, replace_all, split};
#[allow(unused_imports)]
use crate::text_laws::{ends_like_start, law_escape_gives_way, law_no_pwd_is_left, law_occurs, law_pwd_gives_way, law_replace_without_occurrence, law_split};

verus! {

/// The variables of lines one after the other.
proof fn lemma_line_pairs_concat(a: Seq<Seq<char>>, b: Seq<Seq<char>>, exec_root: Seq<char>)
    ensures
        line_pairs(a + b, exec_root) == (match (line_pairs(a, exec_root), line_pairs(b, exec_root)) {
            (Some(x), Some(y)) => Some(x + y),
            _ => None,
        }),
    decreases b.len(),
{
    if b.len() == 0 {
        assert(a + b =~= a);
        if let Some(x) = line_pairs(a, exec_root) {
            assert(x + Seq::<(Seq<char>, Seq<char>)>::empty() =~= x);
        }
    } else {
        let fewer = b.drop_last();
        assert((a + b).drop_last() =~= a + fewer);
        assert((a + b).last() == b.last());
        lemma_line_pairs_concat(a, fewer, exec_root);
        match (line_pairs(a, exec_root), line_pairs(fewer, exec_root)) {
            (Some(x), Some(y)) => {
                let pair = line_pair(b.last(), exec_root);
                assert((x + y).push(pair) =~= x + y.push(pair));
            },
            _ => {},
        }
    }
}

/// What a file of one line sets.
proof fn lemma_one_line(line: Seq<char>, exec_root: Seq<char>)
    requires
        !line.contains('\n'),
    ensures
        file_pairs(line, exec_root) == (if line.len() == 0 {
            Some(Seq::<(Seq<char>, Seq<char>)>::empty())
        } else if line.contains('=') {
            Some(seq![line_pair(line, exec_root)])
        } else {
            None
        }),
{
    reveal_with_fuel(line_pairs, 2);
    law_split(line, '\n', line);
    assert(seq![line].drop_last() =~= Seq::empty());
    if line.len() > 0 && line.contains('=') {
        assert(Seq::<(Seq<char>, Seq<char>)>::empty().push(line_pair(line, exec_root)) =~= seq![
            line_pair(line, exec_root),
        ]);
    }
}

/// A file of one line `name=value` sets that variable, and only that one, to
/// the value with the execution root for each `${pwd}`, wherever in the value
/// it stands.
pub proof fn law_line_sets_its_variable(
    contents: &str,
    exec_root: &str,
    r: Result<Vec<(String, String)>, String>,
    name: Seq<char>,
    raw: Seq<char>,
    before: Seq<char>,
    after: Seq<char>,
)
    requires
        call_ensures(parse_dep_env, (contents, exec_root), r),
        contents@ == name + seq!['='] + raw,
        !name.contains('='),
        !name.contains('\n'),
        !raw.contains('\n'),
    ensures
        r is Ok,
        r->Ok_0@.len() == 1,
        r->Ok_0@[0].0@ == name,
        r->Ok_0@[0].1@ == replace_all(raw, "${pwd}"@, exec_root@),
        !occurs(raw, "${pwd}"@) ==> r->Ok_0@[0].1@ == raw,
        raw == before + "${pwd}"@ + after && !occurs(before, "${pwd}"@) ==> r->Ok_0@[0].1@ == before
            + exec_root@ + replace_all(after, "${pwd}"@, exec_root@),
{
    let line = contents@;
    let tail = seq!['='] + raw;
    assert(line =~= name + tail);
    assert(find(tail, '=') == 0);
    lemma_find(name, '=');
    lemma_find_concat(name, tail, '=');
    lemma_find(line, '=');
    assert(line.take(name.len() as int) =~= name);
    assert(line.skip(name.len() as int + 1) =~= raw);
    assert(!line.contains('\n')) by {
        if line.contains('\n') {
            let k = choose|k: int| 0 <= k < line.len() && line[k] == '\n';
            if k < name.len() {
                assert(name[k] == '\n');
            } else if k > name.len() {
                assert(raw[k - name.len() - 1] == '\n');
            }
        }
    }
    lemma_one_line(line, exec_root@);
    let pairs = pair_texts(r->Ok_0@);
    assert(pairs == seq![(name, with_pwd(raw, exec_root@))]);
    assert(pairs.len() == r->Ok_0@.len());
    assert(pairs[0] == (r->Ok_0@[0].0@, r->Ok_0@[0].1@));
    if !occurs(raw, "${pwd}"@) {
        law_pwd_gives_way(raw, after, exec_root@);
    }
    if raw == before + "${pwd}"@ + after && !occurs(before, "${pwd}"@) {
        law_pwd_gives_way(before, after, exec_root@);
    }
}

/// An empty file, or an empty line, sets nothing; a line that is not empty and
/// holds no `=` is an error.
pub proof fn law_lines_that_set_nothing(
    contents: &str,
    exec_root: &str,
    r: Result<Vec<(String, String)>, String>,
)
    requires
        call_ensures(parse_dep_env, (contents, exec_root), r),
        !contents@.contains('\n'),
        !contents@.contains('='),
    ensures
        contents@.len() == 0 ==> r is Ok && r->Ok_0@.len() == 0,
        contents@.len() > 0 ==> r is Err && r->Err_0@
            == "error: Wrong environment file format, should not happen"@,
{
    lemma_one_line(contents@, exec_root@);
    if contents@.len() == 0 {
        assert(pair_texts(r->Ok_0@).len() == r->Ok_0@.len());
    }
}

/// Two files with a line ending in between set what the first sets and then
/// what the second sets, and are wrong where one of them is.
pub proof fn law_files_line_by_line(
    a: &str,
    b: &str,
    both: &str,
    exec_root: &str,
    of_a: Result<Vec<(String, String)>, String>,
    of_b: Result<Vec<(String, String)>, String>,
    r: Result<Vec<(String, String)>, String>,
)
    requires
        call_ensures(parse_dep_env, (a, exec_root), of_a),
        call_ensures(parse_dep_env, (b, exec_root), of_b),
        call_ensures(parse_dep_env, (both, exec_root), r),
        both@ == a@ + seq!['\n'] + b@,
    ensures
        r is Ok <==> of_a is Ok && of_b is Ok,
        r is Ok ==> r->Ok_0@.len() == of_a->Ok_0@.len() + of_b->Ok_0@.len(),
        r is Ok ==> forall|i: int|
            0 <= i < of_a->Ok_0@.len() ==> (#[trigger] r->Ok_0@[i]).0@ == of_a->Ok_0@[i].0@
                && r->Ok_0@[i].1@ == of_a->Ok_0@[i].1@,
        r is Ok ==> forall|i: int|
            0 <= i < of_b->Ok_0@.len() ==> (#[trigger] of_b->Ok_0@[i]).0@ == r->Ok_0@[i
                + of_a->Ok_0@.len()].0@ && of_b->Ok_0@[i].1@ == r->Ok_0@[i + of_a->Ok_0@.len()].1@,
        r is Err ==> r->Err_0@ == "error: Wrong environment file format, should not happen"@,
{
    lemma_split_concat(a@, b@, '\n');
    lemma_line_pairs_concat(split(a@, '\n'), split(b@, '\n'), exec_root@);
    if r is Ok {
        let x = pair_texts(of_a->Ok_0@);
        let y = pair_texts(of_b->Ok_0@);
        let all = pair_texts(r->Ok_0@);
        assert(all == x + y);
        assert(all.len() == r->Ok_0@.len());
        assert(x.len() == of_a->Ok_0@.len());
        assert(y.len() == of_b->Ok_0@.len());
        assert forall|i: int| 0 <= i < of_a->Ok_0@.len() implies (#[trigger] r->Ok_0@[i]).0@
            == of_a->Ok_0@[i].0@ && r->Ok_0@[i].1@ == of_a->Ok_0@[i].1@ by {
            assert(all[i] == x[i]);
        }
        assert forall|i: int| 0 <= i < of_b->Ok_0@.len() implies (#[trigger] of_b->Ok_0@[i]).0@
            == r->Ok_0@[i + of_a->Ok_0@.len()].0@ && of_b->Ok_0@[i].1@ == r->Ok_0@[i
            + of_a->Ok_0@.len()].1@ by {
            assert(all[i + x.len()] == y[i]);
        }
    }
}

/// Every value of an environment file is some text with `${pwd}` replaced.
proof fn lemma_values_are_expanded(lines: Seq<Seq<char>>, exec_root: Seq<char>, i: int)
    requires
        line_pairs(lines, exec_root) is Some,
        0 <= i < line_pairs(lines, exec_root)->0.len(),
    ensures
        exists|raw: Seq<char>|
            line_pairs(lines, exec_root)->0[i].1 == #[trigger] with_pwd(raw, exec_root),
    decreases lines.len(),
{
    let earlier = line_pairs(lines.drop_last(), exec_root)->0;
    if i < earlier.len() {
        lemma_values_are_expanded(lines.drop_last(), exec_root, i);
    } else {
        let line = lines.last();
        let raw = line.skip(find(line, '=') as int + 1);
        assert(line_pairs(lines, exec_root)->0[i].1 == with_pwd(raw, exec_root));
    }
}

/// No value that is read from an environment file holds `${pwd}`, for every
/// execution root that does not hold it itself, start with a character of it or
/// end in the start of it.
pub proof fn law_no_pwd_is_read(
    contents: &str,
    exec_root: &str,
    pairs: Vec<(String, String)>,
    i: int,
)
    requires
        call_ensures(
            parse_dep_env,
            (contents, exec_root),
            Ok::<Vec<(String, String)>, String>(pairs),
        ),
        0 <= i < pairs@.len(),
        exec_root@.len() > 0,
        !"${pwd}"@.contains(exec_root@[0]),
        !occurs(exec_root@, "${pwd}"@),
        !ends_like_start(exec_root@, "${pwd}"@),
    ensures
        !occurs(pairs@[i].1@, "${pwd}"@),
{
    let all = pair_texts(pairs@);
    assert(all[i].1 == pairs@[i].1@);
    lemma_values_are_expanded(split(contents@, '\n'), exec_root@, i);
    let raw = choose|raw: Seq<char>| all[i].1 == #[trigger] with_pwd(raw, exec_root@);
    law_no_pwd_is_left(raw, exec_root@);
}

/// Files one after the other set what each sets, in order; the first that is
/// wrong or cannot be read is reported.
pub proof fn law_files_in_order(
    a: Seq<Option<Seq<char>>>,
    b: Seq<Option<Seq<char>>>,
    exec_root: Seq<char>,
)
    ensures
        dep_pairs(Seq::empty(), exec_root) == Ok::<Seq<(Seq<char>, Seq<char>)>, Seq<char>>(
            Seq::empty(),
        ),
        dep_pairs(a + b, exec_root) == (match (dep_pairs(a, exec_root), dep_pairs(b, exec_root)) {
            (Err(message), _) => Err(message),
            (Ok(_), Err(message)) => Err(message),
            (Ok(x), Ok(y)) => Ok(x + y),
        }),
    decreases b.len(),
{
    if b.len() == 0 {
        assert(a + b =~= a);
        if let Ok(x) = dep_pairs(a, exec_root) {
            assert(x + Seq::<(Seq<char>, Seq<char>)>::empty() =~= x);
        }
    } else {
        let fewer = b.drop_last();
        assert((a + b).drop_last() =~= a + fewer);
        assert((a + b).last() == b.last());
        law_files_in_order(a, fewer, exec_root);
        match (dep_pairs(a, exec_root), dep_pairs(fewer, exec_root), b.last()) {
            (Ok(x), Ok(y), Some(contents)) => {
                if let Some(z) = file_pairs(contents, exec_root) {
                    assert(x + y + z =~= x + (y + z));
                }
            },
            _ => {},
        }
    }
}

/// One file by itself: what is read from it, and an error where it cannot be
/// read.
pub proof fn law_one_file(
    contents: &str,
    exec_root: &str,
    r: Result<Vec<(String, String)>, String>,
)
    requires
        call_ensures(parse_dep_env, (contents, exec_root), r),
    ensures
        dep_pairs(seq![None::<Seq<char>>], exec_root@) == Err::<
            Seq<(Seq<char>, Seq<char>)>,
            Seq<char>,
        >("error: Dependency environment file unreadable"@),
        r is Err ==> dep_pairs(seq![Some(contents@)], exec_root@) == Err::<
            Seq<(Seq<char>, Seq<char>)>,
            Seq<char>,
        >(r->Err_0@),
        r is Ok ==> dep_pairs(seq![Some(contents@)], exec_root@) is Ok && dep_pairs(
            seq![Some(contents@)],
            exec_root@,
        )->Ok_0 == Seq::new(
            r->Ok_0@.len(),
            |i: int| (r->Ok_0@[i].0@, r->Ok_0@[i].1@),
        ),
{
    reveal_with_fuel(dep_pairs, 2);
    assert(seq![Some(contents@)].drop_last() =~= Seq::empty());
    assert(seq![None::<Seq<char>>].drop_last() =~= Seq::empty());
    if r is Ok {
        assert(dep_pairs(seq![Some(contents@)], exec_root@)->Ok_0 =~= pair_texts(r->Ok_0@));
    }
}

/// A value is given anew exactly where it holds `${pwd}`. The first then gives
/// way to the execution root, what stands before it stays, and what follows is
/// treated in the same way.
pub proof fn law_expanded_value(
    value: &str,
    exec_root: &str,
    r: Option<String>,
    before: Seq<char>,
    after: &str,
    of_after: Option<String>,
)
    requires
        call_ensures(expand_pwd, (value, exec_root), r),
        call_ensures(expand_pwd, (after, exec_root), of_after),
    ensures
        r is Some <==> exists|a: Seq<char>, b: Seq<char>| value@ == #[trigger] (a + "${pwd}"@ + b),
        value@ == before + "${pwd}"@ + after@ && !occurs(before, "${pwd}"@) ==> r is Some && r->0@
            == before + exec_root@ + (match of_after {
            Some(text) => text@,
            None => after@,
        }),
{
    law_occurs(value@, "${pwd}"@);
    if value@ == before + "${pwd}"@ + after@ && !occurs(before, "${pwd}"@) {
        law_pwd_gives_way(before, after@, exec_root@);
        if of_after is None {
            law_pwd_gives_way(after@, after@, exec_root@);
        }
    }
}

/// Flags without `\x1f` spelled out stay as they are. The first gives way to
/// that character, what stands before it stays, and what follows is treated in
/// the same way.
pub proof fn law_decoded_flags(
    encoded: &str,
    r: String,
    before: Seq<char>,
    after: &str,
    of_after: String,
)
    requires
        call_ensures(decode_rustflags, (encoded,), r),
        call_ensures(decode_rustflags, (after,), of_after),
    ensures
        !occurs(encoded@, seq!['\\', 'x', '1', 'f']) ==> r@ == encoded@,
        encoded@ == before + seq!['\\', 'x', '1', 'f'] + after@ && !occurs(
            before,
            seq!['\\', 'x', '1', 'f'],
        ) ==> r@ == before + seq!['\x1f'] + of_after@,
{
    reveal_strlit("\\x1f");
    assert("\\x1f"@ =~= seq!['\\', 'x', '1', 'f']);
    if !occurs(encoded@, "\\x1f"@) {
        law_escape_gives_way(encoded@, after@);
    }
    if !occurs(before, "\\x1f"@) {
        law_escape_gives_way(before, after@);
    }
}

/// The flags that the script gets are what decoding makes of them once `${pwd}`
/// has given way, in this order.
pub proof fn law_flags_expanded_first(
    encoded: &str,
    exec_root: &str,
    expanded: Option<String>,
    between: &str,
    decoded: String,
    r: String,
)
    requires
        call_ensures(expand_pwd, (encoded, exec_root), expanded),
        call_ensures(decode_rustflags, (between,), decoded),
        call_ensures(encoded_flags, (encoded, exec_root), r),
        between@ == (match expanded {
            Some(text) => text@,
            None => encoded@,
        }),
    ensures
        r@ == decoded@,
{
    if expanded is None {
        law_replace_without_occurrence(encoded@, "${pwd}"@, exec_root@);
    }
}

} // verus!
