//! What `rustc --print=cfg` says about the target, as the `CARGO_CFG_*`
//! variables that a build script reads.

use vstd::prelude::*;

use crate::env_vars::EnvVars;
use crate::text::{before, chars_of, join_texts, read_utf8, same_text, strip_start, text_lines, text_of, upper_text};
#[allow(unused_imports)]
use vstd::utf8::{decode_utf8, valid_utf8};
#[allow(unused_imports)]
use crate::env_vars::{is_last, lemma_last, lemma_mapping, mapping};
#[allow(unused_imports)]
use crate::text::{comes_before, find, join, lemma_before_irreflexive, lemma_before_total, lemma_before_transitive, lemma_find, lines, texts, upper, utf8_fault};

verus! {

/// What one line of the output sets: a key with a value, or a key alone.
pub struct CfgSetting {
    pub key: Seq<char>,
    pub value: Option<Seq<char>>,
}

/// The text between double quotes, where `value` is in double quotes.
pub open spec fn unquoted(value: Seq<char>) -> Option<Seq<char>> {
    if value.len() >= 2 && value[0] == '"' && value.last() == '"' {
        Some(value.subrange(1, value.len() - 1))
    } else {
        None
    }
}

/// What a line sets. A line `target_key="value"` sets a value of its key; the
/// lines `windows` and `unix` are keys by themselves; all others are ignored.
pub open spec fn setting(line: Seq<char>) -> Option<CfgSetting> {
    if "target_"@.is_prefix_of(line) && line.contains('=') {
        let i = find(line, '=') as int;
        match unquoted(line.skip(i + 1)) {
            Some(value) => Some(CfgSetting { key: line.take(i), value: Some(value) }),
            None => None,
        }
    } else if line == "windows"@ || line == "unix"@ {
        Some(CfgSetting { key: line, value: None })
    } else {
        None
    }
}

/// The line sets the key, to a value or by itself.
pub open spec fn sets(line: Seq<char>, key: Seq<char>) -> bool {
    setting(line) is Some && setting(line)->0.key == key
}

/// Some line sets the key.
pub open spec fn is_set(lines: Seq<Seq<char>>, key: Seq<char>) -> bool {
    exists|i: int| 0 <= i < lines.len() && sets(#[trigger] lines[i], key)
}

/// The values that the lines set for a key, in their order.
pub open spec fn values_of(lines: Seq<Seq<char>>, key: Seq<char>) -> Seq<Seq<char>>
    decreases lines.len(),
{
    if lines.len() == 0 {
        Seq::empty()
    } else {
        let earlier = values_of(lines.drop_last(), key);
        if sets(lines.last(), key) && setting(lines.last())->0.value is Some {
            earlier.push(setting(lines.last())->0.value->0)
        } else {
            earlier
        }
    }
}

/// A key and its values.
pub struct CfgGroup {
    pub key: String,
    pub values: Vec<String>,
}

/// Each key comes before those of the groups that follow.
pub open spec fn keys_ascend(groups: Seq<CfgGroup>) -> bool {
    forall|i: int, j: int|
        0 <= i < j < groups.len() ==> comes_before(groups[i].key@, groups[j].key@)
}

/// Some group has the key.
pub open spec fn has_key(groups: Seq<CfgGroup>, key: Seq<char>) -> bool {
    exists|i: int| 0 <= i < groups.len() && #[trigger] groups[i].key@ == key
}

/// The groups hold exactly what the lines set: every key that is set, once and
/// in order, with its values in the order of the lines.
pub open spec fn grouped(groups: Seq<CfgGroup>, lines: Seq<Seq<char>>) -> bool {
    &&& keys_ascend(groups)
    &&& forall|key: Seq<char>| #[trigger] has_key(groups, key) <==> is_set(lines, key)
    &&& forall|i: int|
        0 <= i < groups.len() ==> texts(#[trigger] groups[i].values@) == values_of(
            lines,
            groups[i].key@,
        )
}

/// What a line sets.
fn read_line(line: &str) -> (r: Option<(String, Option<String>)>)
    ensures
        r is Some <==> setting(line@) is Some,
        r matches Some((key, value)) ==> {
            &&& key@ == setting(line@)->0.key
            &&& value is Some <==> setting(line@)->0.value is Some
            &&& value matches Some(v) ==> v@ == setting(line@)->0.value->0
        },
{
    let chars = chars_of(line);
    let mut i: usize = 0;
    assert(line@.skip(0) =~= line@);
    while i < chars.len() && chars[i] != '='
        invariant
            i <= chars@.len(),
            chars@ == line@,
            find(line@, '=') == i + find(line@.skip(i as int), '='),
        decreases chars@.len() - i,
    {
        assert(line@.skip(i as int)[0] != '=');
        assert(line@.skip(i as int).skip(1) =~= line@.skip(i + 1));
        i = i + 1;
    }
    assert(find(line@, '=') == i);
    proof {
        lemma_find(line@, '=');
    }
    let n: usize = chars.len();
    if strip_start(line, "target_").is_some() && i < n {
        let ghost value = line@.skip(i + 1);
        if n - i >= 3 && chars[i + 1] == '"' && chars[n - 1] == '"' {
            let key = text_of(&chars, 0, i);
            let inner = text_of(&chars, i + 2, n - 1);
            assert(key@ =~= line@.take(i as int));
            assert(inner@ =~= value.subrange(1, value.len() - 1));
            Some((key, Some(inner)))
        } else {
            None
        }
    } else if same_text(line, "windows") || same_text(line, "unix") {
        let key = text_of(&chars, 0, n);
        assert(key@ =~= line@);
        Some((key, None))
    } else {
        None
    }
}

/// Adds what one more line sets to the groups of the lines before it.
fn add_line(groups: &mut Vec<CfgGroup>, line: &str, Ghost(seen): Ghost<Seq<Seq<char>>>)
    requires
        grouped(old(groups)@, seen),
    ensures
        grouped(final(groups)@, seen.push(line@)),
{
    let ghost before_it = groups@;
    let ghost all = seen.push(line@);
    assert(all.drop_last() =~= seen);
    match read_line(line) {
        None => {
            proof {
                assert forall|key: Seq<char>| is_set(all, key) == is_set(seen, key) by {
                    lemma_is_set_push(seen, line@, key);
                }
            }
        },
        Some((key, value)) => {
            let mut i: usize = 0;
            while i < groups.len() && before(groups[i].key.as_str(), key.as_str())
                invariant
                    i <= groups@.len(),
                    groups@ == before_it,
                    forall|k: int| 0 <= k < i ==> comes_before(#[trigger] groups@[k].key@, key@),
                decreases groups@.len() - i,
            {
                i = i + 1;
            }
            let ghost k0 = key@;
            if !(i < groups.len() && same_text(groups[i].key.as_str(), key.as_str())) {
                groups.insert(i, CfgGroup { key, values: Vec::new() });
                proof {
                    lemma_new_group(before_it, groups@, seen, i as int, k0);
                }
            }
            proof {
                assert forall|key: Seq<char>| is_set(all, key) <==> is_set(seen, key) || key == k0 by {
                    lemma_is_set_push(seen, line@, key);
                }
            }
            let ghost middle = groups@;
            if let Some(v) = value {
                let ghost v0 = v@;
                groups[i].values.push(v);
                proof {
                    assert(texts(groups@[i as int].values@) =~= texts(middle[i as int].values@).push(v0));
                }
            }
            proof {
                assert forall|key: Seq<char>| #[trigger] has_key(groups@, key) <==> is_set(all, key) by {
                    assert(has_key(middle, key) <==> is_set(seen, key) || key == k0);
                    if has_key(middle, key) {
                        let j = choose|j: int| 0 <= j < middle.len() && #[trigger] middle[j].key@ == key;
                        assert(groups@[j].key@ == key);
                    }
                    if has_key(groups@, key) {
                        let j = choose|j: int| 0 <= j < groups@.len() && #[trigger] groups@[j].key@ == key;
                        assert(middle[j].key@ == key);
                    }
                }
                assert forall|j: int| 0 <= j < groups@.len() implies texts(
                    #[trigger] groups@[j].values@,
                ) == values_of(all, groups@[j].key@) by {
                    assert(texts(middle[j].values@) == values_of(seen, middle[j].key@));
                    if j != i {
                        lemma_before_irreflexive(k0);
                        if j < i {
                            assert(comes_before(middle[j].key@, middle[i as int].key@));
                        } else {
                            assert(comes_before(middle[i as int].key@, middle[j].key@));
                        }
                    }
                }
                assert forall|a: int, b: int| 0 <= a < b < groups@.len() implies comes_before(
                    groups@[a].key@,
                    groups@[b].key@,
                ) by {
                    assert(comes_before(middle[a].key@, middle[b].key@));
                }
            }
        },
    }
}

/// One more line sets a key where it sets the key itself or an earlier line
/// does.
pub proof fn lemma_is_set_push(seen: Seq<Seq<char>>, line: Seq<char>, key: Seq<char>)
    ensures
        is_set(seen.push(line), key) <==> is_set(seen, key) || sets(line, key),
{
    let all = seen.push(line);
    if is_set(seen, key) {
        let i = choose|i: int| 0 <= i < seen.len() && sets(#[trigger] seen[i], key);
        assert(all[i] == seen[i]);
    }
    if sets(line, key) {
        assert(all[seen.len() as int] == line);
    }
    if is_set(all, key) {
        let i = choose|i: int| 0 <= i < all.len() && sets(#[trigger] all[i], key);
        if i < seen.len() {
            assert(seen[i] == all[i]);
        }
    }
}

/// A key that is not set has no values.
pub proof fn lemma_no_values(lines: Seq<Seq<char>>, key: Seq<char>)
    requires
        !is_set(lines, key),
    ensures
        values_of(lines, key).len() == 0,
    decreases lines.len(),
{
    if lines.len() > 0 {
        let rest = lines.drop_last();
        lemma_is_set_push(rest, lines.last(), key);
        assert(lines =~= rest.push(lines.last()));
        lemma_no_values(rest, key);
    }
}

/// A group without values, put where its key belongs, keeps the groups in
/// order.
proof fn lemma_new_group(
    old_groups: Seq<CfgGroup>,
    groups: Seq<CfgGroup>,
    seen: Seq<Seq<char>>,
    at: int,
    key: Seq<char>,
)
    requires
        grouped(old_groups, seen),
        0 <= at <= old_groups.len(),
        groups.len() == old_groups.len() + 1,
        groups[at].key@ == key,
        groups[at].values@.len() == 0,
        forall|i: int| 0 <= i < at ==> #[trigger] groups[i] == old_groups[i],
        forall|i: int| at < i < groups.len() ==> #[trigger] groups[i] == old_groups[i - 1],
        forall|i: int| 0 <= i < at ==> comes_before(#[trigger] old_groups[i].key@, key),
        at < old_groups.len() ==> !comes_before(old_groups[at].key@, key) && old_groups[at].key@ != key,
    ensures
        keys_ascend(groups),
        !is_set(seen, key),
        forall|k: Seq<char>| #[trigger] has_key(groups, k) <==> is_set(seen, k) || k == key,
        forall|i: int|
            0 <= i < groups.len() ==> texts(#[trigger] groups[i].values@) == values_of(
                seen,
                groups[i].key@,
            ),
{
    if at < old_groups.len() {
        lemma_before_total(old_groups[at].key@, key);
    }
    assert forall|j: int| at <= j < old_groups.len() implies comes_before(
        key,
        #[trigger] old_groups[j].key@,
    ) by {
        if j > at {
            assert(comes_before(old_groups[at].key@, old_groups[j].key@));
            lemma_before_transitive(key, old_groups[at].key@, old_groups[j].key@);
        }
    }
    assert forall|i: int, j: int| 0 <= i < j < groups.len() implies comes_before(
        groups[i].key@,
        groups[j].key@,
    ) by {
        if i < at && j > at {
            assert(comes_before(old_groups[i].key@, old_groups[j - 1].key@));
        } else if i > at {
            assert(comes_before(old_groups[i - 1].key@, old_groups[j - 1].key@));
        } else if j < at {
            assert(comes_before(old_groups[i].key@, old_groups[j].key@));
        } else if i == at {
            assert(comes_before(key, old_groups[j - 1].key@));
        } else {
            assert(comes_before(old_groups[i].key@, key));
        }
    }
    if has_key(old_groups, key) {
        let i = choose|i: int| 0 <= i < old_groups.len() && #[trigger] old_groups[i].key@ == key;
        lemma_before_irreflexive(key);
    }
    assert(!is_set(seen, key));
    lemma_no_values(seen, key);
    assert(texts(groups[at].values@) =~= values_of(seen, key));
    assert forall|k: Seq<char>| #[trigger] has_key(groups, k) <==> is_set(seen, k) || k == key by {
        if is_set(seen, k) {
            assert(has_key(old_groups, k));
            let i = choose|i: int| 0 <= i < old_groups.len() && #[trigger] old_groups[i].key@ == k;
            let j = if i < at { i } else { i + 1 };
            assert(groups[j] == old_groups[i]);
            assert(groups[j].key@ == k);
        }
        if k == key {
            assert(groups[at].key@ == k);
        }
        if has_key(groups, k) && k != key {
            let j = choose|j: int| 0 <= j < groups.len() && #[trigger] groups[j].key@ == k;
            let i = if j < at { j } else { j - 1 };
            assert(groups[j] == old_groups[i]);
            assert(old_groups[i].key@ == k);
            assert(has_key(old_groups, k));
        }
    }
}

/// Groups what the lines of the output set.
pub fn group_settings(stdout: &str) -> (r: Vec<CfgGroup>)
    ensures
        grouped(r@, lines(stdout@)),
{
    let all = text_lines(stdout);
    let mut groups: Vec<CfgGroup> = Vec::new();
    let mut i: usize = 0;
    assert(texts(all@).take(0) =~= Seq::empty());
    while i < all.len()
        invariant
            i <= all@.len(),
            texts(all@) == lines(stdout@),
            grouped(groups@, texts(all@).take(i as int)),
        decreases all@.len() - i,
    {
        add_line(&mut groups, all[i].as_str(), Ghost(texts(all@).take(i as int)));
        assert(texts(all@).take(i as int).push(all@[i as int]@) =~= texts(all@).take(i + 1));
        i = i + 1;
    }
    assert(texts(all@).take(i as int) =~= texts(all@));
    groups
}

/// The variable of a key.
pub open spec fn cfg_name(key: Seq<char>) -> Seq<char> {
    "CARGO_CFG_"@ + upper(key)
}

/// The value of a variable: the values of its key, with commas between them.
pub open spec fn cfg_value(lines: Seq<Seq<char>>, key: Seq<char>) -> Seq<char> {
    join(values_of(lines, key), ","@)
}

/// The key that decides the variable: of the keys that are set and share the
/// name of the variable, the last in order.
pub open spec fn decides(lines: Seq<Seq<char>>, key: Seq<char>, name: Seq<char>) -> bool {
    &&& is_set(lines, key)
    &&& cfg_name(key) == name
    &&& forall|other: Seq<char>| #[trigger]
        is_set(lines, other) && cfg_name(other) == name ==> !comes_before(key, other)
}

/// The output gives the variable the value.
pub open spec fn is_cfg_var(stdout: Seq<char>, name: Seq<char>, value: Seq<char>) -> bool {
    exists|key: Seq<char>| #[trigger]
        decides(lines(stdout), key, name) && value == cfg_value(lines(stdout), key)
}

/// The variables are exactly those that the output gives.
pub open spec fn are_cfg_vars(vars: Map<Seq<char>, Seq<char>>, stdout: Seq<char>) -> bool {
    forall|name: Seq<char>, value: Seq<char>| #[trigger]
        vars.contains_pair(name, value) <==> is_cfg_var(stdout, name, value)
}

/// The name and the value of each group's variable, given its key in upper
/// case.
pub open spec fn cfg_pairs(groups: Seq<CfgGroup>, upper_keys: Seq<String>) -> Seq<
    (Seq<char>, Seq<char>),
> {
    Seq::new(
        groups.len(),
        |i: int| ("CARGO_CFG_"@ + upper_keys[i]@, join(texts(groups[i].values@), ","@)),
    )
}

/// The variables of the groups, given the key of each in upper case. Where two
/// groups share a name, the later counts.
pub fn cfg_env_vars(groups: &Vec<CfgGroup>, upper_keys: &Vec<String>) -> (r: EnvVars)
    requires
        groups@.len() == upper_keys@.len(),
    ensures
        r@ == mapping(cfg_pairs(groups@, upper_keys@)),
{
    let mut vars = EnvVars::new();
    let mut i: usize = 0;
    let ghost pairs = cfg_pairs(groups@, upper_keys@);
    assert(pairs.take(0) =~= Seq::empty());
    while i < groups.len()
        invariant
            i <= groups@.len(),
            groups@.len() == upper_keys@.len(),
            pairs == cfg_pairs(groups@, upper_keys@),
            vars@ == mapping(pairs.take(i as int)),
        decreases groups@.len() - i,
    {
        let mut name = String::new();
        name.append("CARGO_CFG_");
        name.append(upper_keys[i].as_str());
        assert(name@ =~= pairs[i as int].0);
        let value = join_texts(&groups[i].values, ",");
        vars.insert(name, value);
        assert(pairs.take(i + 1).drop_last() =~= pairs.take(i as int));
        i = i + 1;
    }
    assert(pairs.take(i as int) =~= pairs);
    vars
}

/// The variables that the output of `rustc --print=cfg` gives.
pub fn parse_rustc_cfg_output(stdout: &str) -> (r: EnvVars)
    ensures
        are_cfg_vars(r@, stdout@),
{
    let groups = group_settings(stdout);
    let mut upper_keys: Vec<String> = Vec::new();
    let mut i: usize = 0;
    while i < groups.len()
        invariant
            i <= groups@.len(),
            upper_keys@.len() == i,
            forall|k: int| 0 <= k < i ==> #[trigger] upper_keys@[k]@ == upper(groups@[k].key@),
        decreases groups@.len() - i,
    {
        upper_keys.push(upper_text(groups[i].key.as_str()));
        i = i + 1;
    }
    let vars = cfg_env_vars(&groups, &upper_keys);
    proof {
        let pairs = cfg_pairs(groups@, upper_keys@);
        let ls = lines(stdout@);
        assert forall|k: int| 0 <= k < groups@.len() implies #[trigger] pairs[k] == (
            cfg_name(groups@[k].key@),
            cfg_value(ls, groups@[k].key@),
        ) by {
            assert(upper_keys@[k]@ == upper(groups@[k].key@));
            assert(texts(groups@[k].values@) == values_of(ls, groups@[k].key@));
        }
        assert forall|name: Seq<char>, value: Seq<char>| #[trigger]
            vars@.contains_pair(name, value) <==> is_cfg_var(stdout@, name, value) by {
            if vars@.contains_pair(name, value) {
                let k = lemma_last(pairs, name);
                let key = groups@[k].key@;
                lemma_last_decides(groups@, pairs, ls, k, name);
                assert(decides(ls, key, name));
            }
            if is_cfg_var(stdout@, name, value) {
                let key = choose|key: Seq<char>| #[trigger]
                    decides(ls, key, name) && value == cfg_value(ls, key);
                assert(has_key(groups@, key));
                let k = choose|k: int| 0 <= k < groups@.len() && #[trigger] groups@[k].key@ == key;
                assert(pairs[k].0 == name);
                lemma_mapping(pairs);
                let l = lemma_last(pairs, name);
                lemma_last_decides(groups@, pairs, ls, l, name);
                let winner = groups@[l].key@;
                lemma_before_total(key, winner);
                assert(is_set(ls, winner) && is_set(ls, key));
                assert(key == winner);
            }
        }
    }
    vars
}

/// The last group whose variable has a name decides it.
proof fn lemma_last_decides(
    groups: Seq<CfgGroup>,
    pairs: Seq<(Seq<char>, Seq<char>)>,
    lines: Seq<Seq<char>>,
    at: int,
    name: Seq<char>,
)
    requires
        grouped(groups, lines),
        pairs.len() == groups.len(),
        forall|k: int| 0 <= k < groups.len() ==> (#[trigger] pairs[k]).0 == cfg_name(groups[k].key@),
        is_last(pairs, at, name),
    ensures
        decides(lines, groups[at].key@, name),
{
    let key = groups[at].key@;
    assert(has_key(groups, key));
    assert(pairs[at].0 == cfg_name(key));
    assert forall|other: Seq<char>| #[trigger]
        is_set(lines, other) && cfg_name(other) == name implies !comes_before(key, other) by {
        assert(has_key(groups, other));
        let k = choose|k: int| 0 <= k < groups.len() && #[trigger] groups[k].key@ == other;
        assert(pairs[k].0 == name);
        assert(k <= at);
        lemma_before_irreflexive(key);
        if k < at {
            assert(comes_before(groups[k].key@, groups[at].key@));
            if comes_before(key, other) {
                lemma_before_transitive(key, other, key);
            }
        }
    }
}

/// The arguments that ask rustc for the configuration of a target.
pub fn rustc_args(target: &str) -> (r: Vec<String>)
    ensures
        texts(r@) == seq!["--print=cfg"@, "--target="@ + target@],
{
    let mut for_target = String::new();
    for_target.append("--target=");
    let ghost start = for_target@;
    for_target.append(target);
    assert(start =~= "--target="@);
    let mut r: Vec<String> = Vec::new();
    r.push("--print=cfg".to_owned());
    r.push(for_target);
    assert(texts(r@) =~= seq!["--print=cfg"@, "--target="@ + target@]);
    r
}

/// How a run of `rustc --print=cfg` ended.
pub enum RustcRun {
    /// It did not start, for the reason given.
    NotStarted { error: String },
    /// It ended without success; `output` describes what it left.
    Failed { output: String },
    /// It ended with success and wrote `stdout`.
    Succeeded { stdout: Vec<u8> },
}

/// What is reported of a run that did not end with success.
pub fn rustc_failure(detail: &str) -> (r: String)
    ensures
        r@ == "Error running rustc to get target information: "@ + detail@,
{
    let mut out = String::new();
    out.append("Error running rustc to get target information: ");
    out.append(detail);
    assert(out@ =~= "Error running rustc to get target information: "@ + detail@);
    out
}

/// What is reported of output that is not UTF-8.
pub fn non_utf8_output(fault: &str) -> (r: String)
    ensures
        r@ == "Non-UTF8 stdout from rustc: "@ + fault@,
{
    let mut out = String::new();
    out.append("Non-UTF8 stdout from rustc: ");
    out.append(fault);
    assert(out@ =~= "Non-UTF8 stdout from rustc: "@ + fault@);
    out
}

/// The variables that describe the target, or why there are none.
pub fn target_env_vars(run: &RustcRun) -> (r: Result<EnvVars, String>)
    ensures
        match (*run, r) {
            (RustcRun::Succeeded { stdout }, Ok(vars)) => valid_utf8(stdout@) && are_cfg_vars(
                vars@,
                decode_utf8(stdout@),
            ),
            (RustcRun::Succeeded { stdout }, Err(message)) => !valid_utf8(stdout@) && message@
                == "Non-UTF8 stdout from rustc: "@ + utf8_fault(stdout@),
            (RustcRun::Failed { output }, Err(message)) => message@
                == "Error running rustc to get target information: "@ + output@,
            (RustcRun::NotStarted { error }, Err(message)) => message@
                == "Error running rustc to get target information: "@ + error@,
            _ => false,
        },
{
    match run {
        RustcRun::NotStarted { error } => Err(rustc_failure(error.as_str())),
        RustcRun::Failed { output } => Err(rustc_failure(output.as_str())),
        RustcRun::Succeeded { stdout } => match read_utf8(stdout.as_slice()) {
            Ok(text) => Ok(parse_rustc_cfg_output(text.as_str())),
            Err(fault) => Err(non_utf8_output(fault.as_str())),
        },
    }
}

} // verus!
