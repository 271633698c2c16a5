//! What holds of the variables that describe the target.

use vstd::prelude::*;

#[allow(unused_imports)]
use crate::env_vars::{lemma_mapping, mapping, EnvVars};
#[allow(unused_imports)]
use crate::rustc_cfg::{are_cfg_vars, cfg_env_vars, cfg_name, cfg_pairs, cfg_value, decides, group_settings, grouped, has_key, is_cfg_var, is_set, keys_ascend, lemma_is_set_push, lemma_no_values, parse_rustc_cfg_output, rustc_args, setting, sets, target_env_vars, unquoted, values_of, CfgGroup, CfgSetting, RustcRun};
#[allow(unused_imports)]
use crate::text::{ascii_upper, comes_before, find, join, lemma_before_irreflexive, lemma_before_total, lemma_before_transitive, lemma_find, lemma_find_concat, lines, texts, upper, upper_char};
#[allow(unused_imports)]
use crate::text_laws::{law_lines, law_lines_of_appended_text};
#[allow(unused_imports)]
use vstd::utf8::{decode_utf8, valid_utf8};

verus! {

proof fn lemma_upper_concat(a: Seq<char>, b: Seq<char>)
    ensures
        upper(a + b) == upper(a) + upper(b),
    decreases b.len(),
{
    if b.len() == 0 {
        assert(a + b =~= a);
        assert(upper(a) + upper(b) =~= upper(a));
    } else {
        assert((a + b).drop_last() =~= a + b.drop_last());
        lemma_upper_concat(a, b.drop_last());
        assert(upper(a + b) =~= upper(a) + upper(b));
    }
}

/// In upper case, ASCII text is as long as before, and each of its characters
/// by itself in upper case.
proof fn lemma_upper_ascii(s: Seq<char>)
    requires
        forall|i: int| 0 <= i < s.len() ==> (#[trigger] s[i] as int) < 128,
    ensures
        upper(s) == Seq::new(s.len(), |i: int| ascii_upper(s[i])),
    decreases s.len(),
{
    let whole = Seq::new(s.len(), |i: int| ascii_upper(s[i]));
    if s.len() == 0 {
        assert(upper(s) =~= whole);
    } else {
        let rest = s.drop_last();
        assert forall|i: int| 0 <= i < rest.len() implies (#[trigger] rest[i] as int) < 128 by {
            assert(rest[i] == s[i]);
        }
        lemma_upper_ascii(rest);
        assert((s[s.len() - 1] as int) < 128);
        assert(upper(s) =~= whole);
    }
}

/// A key is `windows`, `unix`, or starts with `target_`.
proof fn lemma_keys(line: Seq<char>)
    requires
        setting(line) is Some,
    ensures
        ({
            let key = setting(line)->0.key;
            ||| key == "windows"@ && line == key && setting(line)->0.value is None
            ||| key == "unix"@ && line == key && setting(line)->0.value is None
            ||| "target_"@.is_prefix_of(key)
        }),
{
    if "target_"@.is_prefix_of(line) && line.contains('=') {
        reveal_strlit("target_");
        let i = find(line, '=') as int;
        lemma_find(line, '=');
        if i < 7 {
            assert(line.subrange(0, 7)[i] == "target_"@[i]);
        }
        assert(line.take(i).subrange(0, 7) =~= line.subrange(0, 7));
    }
}

/// The name of the variable tells `windows` and `unix` from each other and
/// from every key of the target.
proof fn lemma_flag_names(line: Seq<char>, flag: Seq<char>)
    requires
        setting(line) is Some,
        flag == "windows"@ || flag == "unix"@,
        cfg_name(setting(line)->0.key) == cfg_name(flag),
    ensures
        line == flag,
        setting(line)->0.key == flag,
        setting(line)->0.value is None,
{
    reveal_strlit("windows");
    reveal_strlit("unix");
    reveal_strlit("target_");
    let key = setting(line)->0.key;
    let prefix = "CARGO_CFG_"@;
    assert(upper(key) =~= cfg_name(key).skip(prefix.len() as int));
    assert(upper(flag) =~= cfg_name(flag).skip(prefix.len() as int));
    lemma_keys(line);
    lemma_upper_ascii("windows"@);
    lemma_upper_ascii("unix"@);
    assert(upper("windows"@).len() == 7);
    assert(upper("unix"@).len() == 4);
    assert("windows"@[0] == 'w' && "unix"@[0] == 'u');
    assert(upper("windows"@)[0] == 'W');
    assert(upper("unix"@)[0] == 'U');
    if "target_"@.is_prefix_of(key) {
        let rest = key.skip(7);
        assert(key =~= "target_"@ + rest);
        lemma_upper_concat("target_"@, rest);
        lemma_upper_ascii("target_"@);
        assert("target_"@[0] == 't');
        assert(upper(key)[0] == 'T');
    }
}

/// A flag by itself never has values.
proof fn lemma_flag_has_no_values(ls: Seq<Seq<char>>, flag: Seq<char>)
    requires
        flag == "windows"@ || flag == "unix"@,
    ensures
        values_of(ls, flag).len() == 0,
    decreases ls.len(),
{
    if ls.len() > 0 {
        lemma_flag_has_no_values(ls.drop_last(), flag);
        if sets(ls.last(), flag) {
            lemma_flag_names(ls.last(), flag);
        }
    }
}

/// The line `unix`, or `windows`, and nothing else sets the variable of that
/// name, and its value is empty.
proof fn lemma_flag_variable(stdout: Seq<char>, flag: Seq<char>, value: Seq<char>)
    requires
        flag == "windows"@ || flag == "unix"@,
    ensures
        is_cfg_var(stdout, cfg_name(flag), value) <==> lines(stdout).contains(flag) && value
            == Seq::<char>::empty(),
{
    let ls = lines(stdout);
    lemma_flag_has_no_values(ls, flag);
    assert(values_of(ls, flag) =~= Seq::empty());
    reveal_strlit("windows");
    reveal_strlit("unix");
    reveal_strlit("target_");
    assert(setting(flag) is Some && setting(flag)->0.key == flag) by {
        assert("windows"@[0] == 'w' && "unix"@[0] == 'u' && "target_"@[0] == 't');
        if "target_"@.is_prefix_of(flag) {
            assert(flag.subrange(0, 7)[0] == flag[0]);
        }
    }
    if ls.contains(flag) {
        let i = choose|i: int| 0 <= i < ls.len() && ls[i] == flag;
        assert(sets(ls[i], flag));
        assert(is_set(ls, flag));
        assert forall|other: Seq<char>| #[trigger]
            is_set(ls, other) && cfg_name(other) == cfg_name(flag) implies !comes_before(
            flag,
            other,
        ) by {
            let k = choose|k: int| 0 <= k < ls.len() && sets(#[trigger] ls[k], other);
            lemma_flag_names(ls[k], flag);
            lemma_before_irreflexive(flag);
        }
        assert(decides(ls, flag, cfg_name(flag)));
    }
    if is_cfg_var(stdout, cfg_name(flag), value) {
        let key = choose|key: Seq<char>| #[trigger]
            decides(ls, key, cfg_name(flag)) && value == cfg_value(ls, key);
        let k = choose|k: int| 0 <= k < ls.len() && sets(#[trigger] ls[k], key);
        lemma_flag_names(ls[k], flag);
        assert(ls[k] == flag);
    }
}

/// `CARGO_CFG_UNIX` is set, and empty, exactly where a line says `unix`.
pub proof fn law_unix_variable(stdout: Seq<char>, value: Seq<char>)
    ensures
        is_cfg_var(stdout, "CARGO_CFG_UNIX"@, value) <==> lines(stdout).contains("unix"@) && value
            == Seq::<char>::empty(),
{
    reveal_strlit("CARGO_CFG_UNIX");
    reveal_strlit("CARGO_CFG_");
    reveal_strlit("unix");
    lemma_upper_ascii("unix"@);
    assert(cfg_name("unix"@) =~= "CARGO_CFG_UNIX"@);
    lemma_flag_variable(stdout, "unix"@, value);
}

/// `CARGO_CFG_WINDOWS` is set, and empty, exactly where a line says `windows`.
pub proof fn law_windows_variable(stdout: Seq<char>, value: Seq<char>)
    ensures
        is_cfg_var(stdout, "CARGO_CFG_WINDOWS"@, value) <==> lines(stdout).contains("windows"@)
            && value == Seq::<char>::empty(),
{
    reveal_strlit("CARGO_CFG_WINDOWS");
    reveal_strlit("CARGO_CFG_");
    reveal_strlit("windows");
    lemma_upper_ascii("windows"@);
    assert(cfg_name("windows"@) =~= "CARGO_CFG_WINDOWS"@);
    lemma_flag_variable(stdout, "windows"@, value);
}

/// A key whose variable no other key shares gives it all of its values, in the
/// order of the lines and with commas in between, and no other value.
pub proof fn law_values_reach_the_variable(stdout: Seq<char>, key: Seq<char>, value: Seq<char>)
    requires
        is_set(lines(stdout), key),
        forall|other: Seq<char>| #[trigger]
            is_set(lines(stdout), other) && cfg_name(other) == cfg_name(key) ==> other == key,
    ensures
        is_cfg_var(stdout, cfg_name(key), value) <==> value == cfg_value(lines(stdout), key),
{
    let ls = lines(stdout);
    assert forall|other: Seq<char>| #[trigger]
        is_set(ls, other) && cfg_name(other) == cfg_name(key) implies !comes_before(key, other) by {
        lemma_before_irreflexive(key);
    }
    assert(decides(ls, key, cfg_name(key)));
    if is_cfg_var(stdout, cfg_name(key), value) {
        let k = choose|k: Seq<char>| #[trigger]
            decides(ls, k, cfg_name(key)) && value == cfg_value(ls, k);
        assert(is_set(ls, k));
    }
}

/// A variable has one value.
pub proof fn law_one_value_each(stdout: Seq<char>, name: Seq<char>, a: Seq<char>, b: Seq<char>)
    requires
        is_cfg_var(stdout, name, a),
        is_cfg_var(stdout, name, b),
    ensures
        a == b,
{
    let ls = lines(stdout);
    let j = choose|k: Seq<char>| #[trigger] decides(ls, k, name) && a == cfg_value(ls, k);
    let k = choose|k: Seq<char>| #[trigger] decides(ls, k, name) && b == cfg_value(ls, k);
    assert(is_set(ls, j) && is_set(ls, k));
    lemma_before_total(j, k);
}

/// The line that sets a key of the target to a value.
pub open spec fn target_line(key: Seq<char>, value: Seq<char>) -> Seq<char> {
    "target_"@ + key + "=\""@ + value + "\""@
}

/// Where the first `=` of such a line stands.
proof fn lemma_target_line(key: Seq<char>, value: Seq<char>)
    requires
        !key.contains('='),
    ensures
        ({
            let line = target_line(key, value);
            let whole = "target_"@ + key;
            &&& "target_"@.is_prefix_of(line)
            &&& line.contains('=')
            &&& find(line, '=') == whole.len()
            &&& line.take(whole.len() as int) == whole
            &&& unquoted(line.skip(whole.len() as int + 1)) == Some(value)
        }),
{
    reveal_strlit("target_");
    reveal_strlit("=\"");
    reveal_strlit("\"");
    let line = target_line(key, value);
    let whole = "target_"@ + key;
    let n = whole.len() as int;
    assert(line.subrange(0, 7) =~= "target_"@);
    assert(!whole.contains('=')) by {
        if whole.contains('=') {
            let k = choose|k: int| 0 <= k < whole.len() && whole[k] == '=';
            if k >= 7 {
                assert(key[k - 7] == '=');
            }
        }
    }
    let tail = "=\""@ + value + "\""@;
    assert(line =~= whole + tail);
    assert(tail[0] == '=');
    assert(find(tail, '=') == 0);
    lemma_find(whole, '=');
    lemma_find_concat(whole, tail, '=');
    lemma_find(line, '=');
    assert(line.take(n) =~= whole);
    let quoted = line.skip(n + 1);
    assert(quoted =~= seq!['"'] + value + seq!['"']);
    assert(quoted.subrange(1, quoted.len() - 1) =~= value);
}

/// A line `target_key="value"` sets that key, the prefix included, to exactly
/// that value, whatever else the key and the value hold.
pub proof fn law_target_line_sets_its_key(key: Seq<char>, value: Seq<char>)
    requires
        !key.contains('='),
    ensures
        setting(target_line(key, value)) == Some(
            (CfgSetting { key: "target_"@ + key, value: Some(value) }),
        ),
{
    lemma_target_line(key, value);
}

/// Nothing else sets a key but the lines `windows` and `unix`, which are keys
/// by themselves.
pub proof fn law_nothing_else_sets_a_key(line: Seq<char>)
    ensures
        setting(line) is Some ==> ({
            ||| line == "windows"@ && setting(line) == Some((CfgSetting { key: line, value: None }))
            ||| line == "unix"@ && setting(line) == Some((CfgSetting { key: line, value: None }))
            ||| exists|key: Seq<char>, value: Seq<char>|
                !key.contains('=') && line == #[trigger] target_line(key, value)
        }),
        line == "windows"@ || line == "unix"@ ==> setting(line) is Some,
{
    reveal_strlit("target_");
    reveal_strlit("windows");
    reveal_strlit("unix");
    reveal_strlit("=\"");
    reveal_strlit("\"");
    lemma_find(line, '=');
    assert("windows"@[0] == 'w' && "unix"@[0] == 'u' && "target_"@[0] == 't');
    if "target_"@.is_prefix_of(line) {
        assert(line.subrange(0, 7)[0] == line[0]);
    }
    if setting(line) is Some && "target_"@.is_prefix_of(line) && line.contains('=') {
        lemma_keys(line);
        let i = find(line, '=') as int;
        let whole = line.take(i);
        let key = whole.skip(7);
        let value = setting(line)->0.value->0;
        assert(whole.subrange(0, 7) =~= "target_"@);
        assert(whole =~= "target_"@ + key);
        assert(!key.contains('=')) by {
            if key.contains('=') {
                let k = choose|k: int| 0 <= k < key.len() && key[k] == '=';
                assert(line[k + 7] == '=');
            }
        }
        let quoted = line.skip(i + 1);
        assert(quoted =~= seq!['"'] + value + seq!['"']);
        assert(line =~= whole + seq!['='] + quoted);
        assert(line =~= target_line(key, value));
    }
}

/// Each line adds its value to those of its own key, at the end, and to no
/// other key's.
pub proof fn law_values_in_the_order_of_the_lines(
    a: Seq<Seq<char>>,
    b: Seq<Seq<char>>,
    line: Seq<char>,
    key: Seq<char>,
)
    ensures
        values_of(a + b, key) == values_of(a, key) + values_of(b, key),
        values_of(seq![line], key) == (match setting(line) {
            Some(CfgSetting { key: k, value: Some(v) }) => if k == key {
                seq![v]
            } else {
                Seq::<Seq<char>>::empty()
            },
            _ => Seq::<Seq<char>>::empty(),
        }),
        is_set(a + b, key) <==> is_set(a, key) || is_set(b, key),
        is_set(seq![line], key) <==> setting(line) is Some && setting(line)->0.key == key,
        !is_set(Seq::empty(), key),
    decreases b.len(),
{
    reveal_with_fuel(values_of, 2);
    let none = Seq::<Seq<char>>::empty();
    assert(none.push(line) =~= seq![line]);
    assert(seq![line].drop_last() =~= none);
    lemma_is_set_push(none, line, key);
    if setting(line) is Some && setting(line)->0.key == key && setting(line)->0.value is Some {
        assert(values_of(seq![line], key) =~= seq![setting(line)->0.value->0]);
    }
    if b.len() == 0 {
        assert(a + b =~= a);
        assert(values_of(a, key) + values_of(b, key) =~= values_of(a, key));
    } else {
        let fewer = b.drop_last();
        law_values_in_the_order_of_the_lines(a, fewer, line, key);
        assert((a + b).drop_last() =~= a + fewer);
        assert(a + b =~= (a + fewer).push(b.last()));
        assert(b =~= fewer.push(b.last()));
        lemma_is_set_push(a + fewer, b.last(), key);
        lemma_is_set_push(fewer, b.last(), key);
        assert(values_of(a + b, key) =~= values_of(a, key) + values_of(b, key));
    }
}

/// A key that starts with `target_` has a value wherever it is set.
proof fn lemma_target_key_has_values(ls: Seq<Seq<char>>, key: Seq<char>)
    requires
        is_set(ls, key),
        "target_"@.is_prefix_of(key),
    ensures
        values_of(ls, key).len() > 0,
    decreases ls.len(),
{
    let rest = ls.drop_last();
    assert(ls =~= rest.push(ls.last()));
    lemma_is_set_push(rest, ls.last(), key);
    if sets(ls.last(), key) {
        lemma_keys(ls.last());
        reveal_strlit("target_");
        reveal_strlit("windows");
        reveal_strlit("unix");
        assert(key.subrange(0, 7)[0] == "target_"@[0]);
        assert("windows"@[0] == 'w' && "unix"@[0] == 'u' && "target_"@[0] == 't');
    } else {
        lemma_target_key_has_values(rest, key);
    }
}

/// Where a key of some name is set, one decides the variable of that name.
proof fn lemma_one_decides(ls: Seq<Seq<char>>, key: Seq<char>, name: Seq<char>)
    requires
        is_set(ls, key),
        cfg_name(key) == name,
    ensures
        exists|d: Seq<char>| #[trigger] decides(ls, d, name),
    decreases ls.len(),
{
    let rest = ls.drop_last();
    let line = ls.last();
    assert(ls =~= rest.push(line));
    assert forall|k: Seq<char>| #[trigger] is_set(ls, k) <==> is_set(rest, k) || sets(line, k) by {
        lemma_is_set_push(rest, line, k);
    }
    let added = if setting(line) is Some { setting(line)->0.key } else { key };
    if exists|k: Seq<char>| #[trigger] is_set(rest, k) && cfg_name(k) == name {
        let k = choose|k: Seq<char>| #[trigger] is_set(rest, k) && cfg_name(k) == name;
        lemma_one_decides(rest, k, name);
        let d = choose|d: Seq<char>| #[trigger] decides(rest, d, name);
        assert(is_set(rest, d) && is_set(ls, d));
        if sets(line, added) && cfg_name(added) == name && comes_before(d, added) {
            assert(is_set(ls, added));
            assert forall|other: Seq<char>| #[trigger]
                is_set(ls, other) && cfg_name(other) == name implies !comes_before(
                added,
                other,
            ) by {
                lemma_before_irreflexive(added);
                if is_set(rest, other) && comes_before(added, other) {
                    lemma_before_transitive(d, added, other);
                }
            }
            assert(decides(ls, added, name));
        } else {
            assert(decides(ls, d, name));
        }
    } else {
        assert(sets(line, key));
        assert forall|other: Seq<char>| #[trigger]
            is_set(ls, other) && cfg_name(other) == name implies !comes_before(key, other) by {
            lemma_before_irreflexive(key);
        }
        assert(decides(ls, key, name));
    }
}

/// Of the keys that share a name, the last in order decides the variable: it
/// has the values of that key, with commas in between.
pub proof fn law_last_key_decides(stdout: &str, vars: EnvVars, key: Seq<char>)
    requires
        call_ensures(parse_rustc_cfg_output, (stdout,), vars),
        is_set(lines(stdout@), key),
        forall|other: Seq<char>| #[trigger]
            is_set(lines(stdout@), other) && upper(other) == upper(key) ==> !comes_before(key, other),
    ensures
        vars@.contains_key("CARGO_CFG_"@ + upper(key)),
        vars@["CARGO_CFG_"@ + upper(key)] == join(values_of(lines(stdout@), key), ","@),
{
    let ls = lines(stdout@);
    let name = "CARGO_CFG_"@ + upper(key);
    assert forall|other: Seq<char>| #[trigger]
        is_set(ls, other) && cfg_name(other) == name implies !comes_before(key, other) by {
        assert(cfg_name(other).skip("CARGO_CFG_"@.len() as int) =~= upper(other));
        assert(name.skip("CARGO_CFG_"@.len() as int) =~= upper(key));
    }
    assert(decides(ls, key, name));
    assert(is_cfg_var(stdout@, name, cfg_value(ls, key)));
    assert(vars@.contains_pair(name, cfg_value(ls, key)));
}

/// Where nothing is said, nothing is set; and what the line endings are does
/// not matter.
pub proof fn law_only_lines_matter(a: &str, b: &str, of_a: EnvVars, of_b: EnvVars)
    requires
        call_ensures(parse_rustc_cfg_output, (a,), of_a),
        call_ensures(parse_rustc_cfg_output, (b,), of_b),
    ensures
        a@.len() == 0 ==> of_a@ == Map::<Seq<char>, Seq<char>>::empty(),
        lines(a@) == lines(b@) ==> of_a@ == of_b@,
{
    if a@.len() == 0 {
        assert(lines(a@) =~= Seq::empty());
        assert forall|name: Seq<char>| !of_a@.contains_key(name) by {
            if of_a@.contains_key(name) {
                assert(of_a@.contains_pair(name, of_a@[name]));
                assert(is_cfg_var(a@, name, of_a@[name]));
            }
        }
        assert(of_a@ =~= Map::empty());
    }
    if lines(a@) == lines(b@) {
        lemma_same_vars(of_a@, a@, of_b@, b@);
    }
}

/// Outputs that give the same variables are read to the same variables.
proof fn lemma_same_vars(
    a: Map<Seq<char>, Seq<char>>,
    of_a: Seq<char>,
    b: Map<Seq<char>, Seq<char>>,
    of_b: Seq<char>,
)
    requires
        are_cfg_vars(a, of_a),
        are_cfg_vars(b, of_b),
        forall|name: Seq<char>, value: Seq<char>| #[trigger]
            is_cfg_var(of_a, name, value) <==> is_cfg_var(of_b, name, value),
    ensures
        a == b,
{
    assert forall|name: Seq<char>| #![trigger a.contains_key(name)] a.contains_key(name)
        <==> b.contains_key(name) && (a.contains_key(name) ==> a[name] == b[name]) by {
        if a.contains_key(name) {
            assert(a.contains_pair(name, a[name]));
            assert(is_cfg_var(of_a, name, a[name]));
            assert(is_cfg_var(of_b, name, a[name]));
            assert(b.contains_pair(name, a[name]));
        }
        if b.contains_key(name) {
            assert(b.contains_pair(name, b[name]));
            assert(is_cfg_var(of_b, name, b[name]));
            assert(is_cfg_var(of_a, name, b[name]));
            assert(a.contains_pair(name, b[name]));
        }
    }
    assert(a =~= b);
}

/// What a line that sets a key does to the variables of other names: nothing.
proof fn lemma_other_names(ls: Seq<Seq<char>>, line: Seq<char>, name: Seq<char>, key: Seq<char>)
    requires
        setting(line) is Some ==> cfg_name(setting(line)->0.key) != name,
    ensures
        decides(ls.push(line), key, name) <==> decides(ls, key, name),
        decides(ls, key, name) ==> cfg_value(ls.push(line), key) == cfg_value(ls, key),
{
    let all = ls.push(line);
    assert(all.drop_last() =~= ls);
    assert forall|k: Seq<char>| #[trigger] is_set(all, k) <==> is_set(ls, k) || sets(line, k) by {
        lemma_is_set_push(ls, line, k);
    }
    assert forall|k: Seq<char>| cfg_name(k) == name implies (#[trigger] is_set(all, k) <==> is_set(
        ls,
        k,
    )) by {}
    if decides(all, key, name) {
        assert forall|other: Seq<char>| #[trigger]
            is_set(ls, other) && cfg_name(other) == name implies !comes_before(key, other) by {
            assert(is_set(all, other));
        }
    }
    if decides(ls, key, name) {
        assert forall|other: Seq<char>| #[trigger]
            is_set(all, other) && cfg_name(other) == name implies !comes_before(key, other) by {
            assert(is_set(ls, other));
        }
    }
}

/// One more line of output: the variables of all names but one stay as they
/// are.
proof fn lemma_one_more_line(
    a: Map<Seq<char>, Seq<char>>,
    of_a: Seq<char>,
    b: Map<Seq<char>, Seq<char>>,
    of_b: Seq<char>,
    line: Seq<char>,
    name: Seq<char>,
)
    requires
        are_cfg_vars(a, of_a),
        are_cfg_vars(b, of_b),
        lines(of_b) == lines(of_a).push(line),
        setting(line) is Some ==> cfg_name(setting(line)->0.key) == name,
    ensures
        forall|n: Seq<char>| n != name ==> (#[trigger] a.contains_key(n) <==> b.contains_key(n)),
        forall|n: Seq<char>| n != name && #[trigger] a.contains_key(n) ==> a[n] == b[n],
        setting(line) is None ==> a == b,
{
    let ls = lines(of_a);
    let all = lines(of_b);
    assert forall|n: Seq<char>, value: Seq<char>| n != name || setting(line) is None implies (
    #[trigger] is_cfg_var(of_a, n, value) <==> is_cfg_var(of_b, n, value)) by {
        if is_cfg_var(of_a, n, value) {
            let k = choose|k: Seq<char>| #[trigger] decides(ls, k, n) && value == cfg_value(ls, k);
            lemma_other_names(ls, line, n, k);
            assert(decides(all, k, n));
        }
        if is_cfg_var(of_b, n, value) {
            let k = choose|k: Seq<char>| #[trigger] decides(all, k, n) && value == cfg_value(all, k);
            lemma_other_names(ls, line, n, k);
            assert(decides(ls, k, n));
        }
    }
    assert forall|n: Seq<char>| n != name || setting(line) is None implies (
    #[trigger] a.contains_key(n) <==> b.contains_key(n)) && (a.contains_key(n) ==> a[n] == b[n]) by {
        if a.contains_key(n) {
            assert(a.contains_pair(n, a[n]));
            assert(is_cfg_var(of_a, n, a[n]));
            assert(is_cfg_var(of_b, n, a[n]));
            assert(b.contains_pair(n, a[n]));
        }
        if b.contains_key(n) {
            assert(b.contains_pair(n, b[n]));
            assert(is_cfg_var(of_b, n, b[n]));
            assert(is_cfg_var(of_a, n, b[n]));
            assert(a.contains_pair(n, b[n]));
        }
    }
    if setting(line) is None {
        assert(a =~= b);
    }
}

/// Variables that differ in one name at most differ by what that name is set
/// to.
proof fn lemma_one_change(
    a: Map<Seq<char>, Seq<char>>,
    b: Map<Seq<char>, Seq<char>>,
    name: Seq<char>,
    value: Seq<char>,
)
    requires
        forall|n: Seq<char>| n != name ==> (#[trigger] a.contains_key(n) <==> b.contains_key(n)),
        forall|n: Seq<char>| n != name && #[trigger] a.contains_key(n) ==> a[n] == b[n],
        b.contains_pair(name, value),
    ensures
        b == a.insert(name, value),
{
    let expected = a.insert(name, value);
    assert forall|n: Seq<char>| #[trigger] b.contains_key(n) == expected.contains_key(n) && (
    b.contains_key(n) ==> b[n] == expected[n]) by {
        if n != name {
            assert(a.contains_key(n) <==> b.contains_key(n));
        }
    }
    assert(b =~= expected);
}

/// The lines of complete output with one more line behind it.
proof fn lemma_lines_push(text: Seq<char>, line: Seq<char>)
    requires
        text.len() == 0 || text.last() == '\n',
        !line.contains('\n'),
        line.len() == 0 || line.last() != '\r',
    ensures
        lines(text + line + seq!['\n']) == lines(text).push(line),
{
    let none = Seq::<char>::empty();
    law_lines(line, none);
    law_lines_of_appended_text(text, line + seq!['\n']);
    assert(line + seq!['\n'] + none =~= line + seq!['\n']);
    assert(text + line + seq!['\n'] =~= text + (line + seq!['\n']));
    assert(lines(text) + (seq![line] + Seq::<Seq<char>>::empty()) =~= lines(text).push(line));
}

/// One more line `target_key="value"` sets the variable of its key and no
/// other. A variable that was not set gets the value. One that was, by that key
/// alone, gets it behind what it has, with a comma in between.
pub proof fn law_target_line_sets_its_variable(
    before: &str,
    after: &str,
    earlier: EnvVars,
    then: EnvVars,
    key: Seq<char>,
    value: Seq<char>,
)
    requires
        call_ensures(parse_rustc_cfg_output, (before,), earlier),
        call_ensures(parse_rustc_cfg_output, (after,), then),
        before@.len() == 0 || before@.last() == '\n',
        !key.contains('='),
        !key.contains('\n'),
        !value.contains('\n'),
        after@ == before@ + target_line(key, value) + seq!['\n'],
    ensures
        ({
            let name = "CARGO_CFG_TARGET_"@ + upper(key);
            &&& !earlier@.contains_key(name) ==> then@ == earlier@.insert(name, value)
            &&& earlier@.contains_key(name) && (forall|i: int|
                0 <= i < lines(before@).len() && setting(#[trigger] lines(before@)[i]) is Some
                    && upper(setting(lines(before@)[i])->0.key) == upper("target_"@ + key)
                    ==> setting(lines(before@)[i])->0.key == "target_"@ + key) ==> then@
                == earlier@.insert(name, earlier@[name] + ","@ + value)
        }),
{
    reveal_strlit("target_");
    reveal_strlit("CARGO_CFG_");
    reveal_strlit("CARGO_CFG_TARGET_");
    reveal_strlit("=\"");
    reveal_strlit("\"");
    let line = target_line(key, value);
    let whole = "target_"@ + key;
    let name = "CARGO_CFG_TARGET_"@ + upper(key);
    let ls = lines(before@);
    let all = lines(after@);
    law_target_line_sets_its_key(key, value);
    assert(line.last() == '"');
    assert(!line.contains('\n')) by {
        if line.contains('\n') {
            let k = choose|k: int| 0 <= k < line.len() && line[k] == '\n';
            let n = 7 + key.len() as int;
            if k < 7 {
                assert(line[k] == "target_"@[k]);
            } else if k < n {
                assert(line[k] == key[k - 7]);
            } else if k < n + 2 {
                assert(line[k] == "=\""@[k - n]);
            } else if k < n + 2 + value.len() {
                assert(line[k] == value[k - n - 2]);
            }
        }
    }
    lemma_lines_push(before@, line);
    assert(all == ls.push(line));
    lemma_upper_concat("target_"@, key);
    lemma_upper_ascii("target_"@);
    assert(upper("target_"@) =~= seq!['T', 'A', 'R', 'G', 'E', 'T', '_']);
    assert(cfg_name(whole) =~= name);
    lemma_one_more_line(earlier@, before@, then@, after@, line, name);
    assert(all.drop_last() =~= ls);
    assert(sets(line, whole));
    assert forall|k: Seq<char>| #[trigger] is_set(all, k) <==> is_set(ls, k) || k == whole by {
        lemma_is_set_push(ls, line, k);
    }
    let vs = values_of(ls, whole);
    assert(values_of(all, whole) == vs.push(value));
    assert(vs.push(value).drop_last() =~= vs);
    if !earlier@.contains_key(name) {
        assert forall|k: Seq<char>| cfg_name(k) == name implies !(#[trigger] is_set(ls, k)) by {
            if is_set(ls, k) {
                lemma_one_decides(ls, k, name);
                let d = choose|d: Seq<char>| #[trigger] decides(ls, d, name);
                assert(is_cfg_var(before@, name, cfg_value(ls, d)));
                assert(earlier@.contains_pair(name, cfg_value(ls, d)));
            }
        }
        lemma_no_values(ls, whole);
        assert(vs.push(value) =~= seq![value]);
        lemma_before_irreflexive(whole);
        assert(decides(all, whole, name));
        assert(is_cfg_var(after@, name, value));
        assert(then@.contains_pair(name, value));
        lemma_one_change(earlier@, then@, name, value);
    } else if forall|i: int|
        0 <= i < ls.len() && setting(#[trigger] ls[i]) is Some && upper(setting(ls[i])->0.key)
            == upper(whole) ==> setting(ls[i])->0.key == whole {
        let w = earlier@[name];
        assert(earlier@.contains_pair(name, w));
        assert(is_cfg_var(before@, name, w));
        assert forall|k: Seq<char>| cfg_name(k) == name && #[trigger] is_set(ls, k) implies k
            == whole by {
            let i = choose|i: int| 0 <= i < ls.len() && sets(#[trigger] ls[i], k);
            assert(cfg_name(k).skip(10) =~= upper(k));
            assert(cfg_name(whole).skip(10) =~= upper(whole));
        }
        let d = choose|d: Seq<char>| #[trigger] decides(ls, d, name) && w == cfg_value(ls, d);
        assert(is_set(ls, d));
        assert(d == whole);
        assert(whole.subrange(0, 7) =~= "target_"@);
        lemma_target_key_has_values(ls, whole);
        lemma_before_irreflexive(whole);
        assert(decides(all, whole, name));
        assert(cfg_value(all, whole) == w + ","@ + value);
        assert(is_cfg_var(after@, name, w + ","@ + value));
        assert(then@.contains_pair(name, w + ","@ + value));
        lemma_one_change(earlier@, then@, name, w + ","@ + value);
    }
}

/// One more line `unix`, or `windows`, sets the variable of that name to
/// nothing, and no other.
pub proof fn law_flag_line_sets_its_variable(
    before: &str,
    after: &str,
    earlier: EnvVars,
    then: EnvVars,
)
    requires
        call_ensures(parse_rustc_cfg_output, (before,), earlier),
        call_ensures(parse_rustc_cfg_output, (after,), then),
        before@.len() == 0 || before@.last() == '\n',
    ensures
        after@ == before@ + "unix"@ + seq!['\n'] ==> then@ == earlier@.insert(
            "CARGO_CFG_UNIX"@,
            Seq::empty(),
        ),
        after@ == before@ + "windows"@ + seq!['\n'] ==> then@ == earlier@.insert(
            "CARGO_CFG_WINDOWS"@,
            Seq::empty(),
        ),
{
    reveal_strlit("unix");
    reveal_strlit("windows");
    if after@ == before@ + "unix"@ + seq!['\n'] {
        lemma_flag_line(before@, after@, earlier@, then@, "unix"@, "CARGO_CFG_UNIX"@);
    }
    if after@ == before@ + "windows"@ + seq!['\n'] {
        lemma_flag_line(before@, after@, earlier@, then@, "windows"@, "CARGO_CFG_WINDOWS"@);
    }
}

proof fn lemma_flag_line(
    before: Seq<char>,
    after: Seq<char>,
    earlier: Map<Seq<char>, Seq<char>>,
    then: Map<Seq<char>, Seq<char>>,
    flag: Seq<char>,
    name: Seq<char>,
)
    requires
        are_cfg_vars(earlier, before),
        are_cfg_vars(then, after),
        before.len() == 0 || before.last() == '\n',
        flag == "windows"@ && name == "CARGO_CFG_WINDOWS"@ || flag == "unix"@ && name
            == "CARGO_CFG_UNIX"@,
        after == before + flag + seq!['\n'],
    ensures
        then == earlier.insert(name, Seq::empty()),
{
    reveal_strlit("unix");
    reveal_strlit("windows");
    reveal_strlit("CARGO_CFG_");
    reveal_strlit("CARGO_CFG_UNIX");
    reveal_strlit("CARGO_CFG_WINDOWS");
    let nothing = Seq::<char>::empty();
    assert(flag =~= seq!['u', 'n', 'i', 'x'] || flag =~= seq!['w', 'i', 'n', 'd', 'o', 'w', 's']);
    assert(!flag.contains('\n'));
    lemma_lines_push(before, flag);
    law_nothing_else_sets_a_key(flag);
    law_windows_variable(after, nothing);
    law_unix_variable(after, nothing);
    lemma_upper_ascii("unix"@);
    lemma_upper_ascii("windows"@);
    assert(cfg_name("unix"@) =~= "CARGO_CFG_UNIX"@);
    assert(cfg_name("windows"@) =~= "CARGO_CFG_WINDOWS"@);
    lemma_keys(flag);
    lemma_flag_key(flag);
    lemma_one_more_line(earlier, before, then, after, flag, name);
    assert(lines(after)[lines(before).len() as int] == flag);
    assert(lines(after).contains(flag));
    assert(is_cfg_var(after, name, nothing));
    assert(then.contains_pair(name, nothing));
    lemma_one_change(earlier, then, name, nothing);
}

/// A flag by itself is its own key.
proof fn lemma_flag_key(flag: Seq<char>)
    requires
        flag == "windows"@ || flag == "unix"@,
    ensures
        setting(flag) is Some,
        setting(flag)->0.key == flag,
{
    reveal_strlit("windows");
    reveal_strlit("unix");
    reveal_strlit("target_");
    assert("windows"@[0] == 'w' && "unix"@[0] == 'u' && "target_"@[0] == 't');
    if "target_"@.is_prefix_of(flag) {
        assert(flag.subrange(0, 7)[0] == flag[0]);
    }
}

/// One more line of any other form changes nothing.
pub proof fn law_other_lines_set_nothing(
    before: &str,
    after: &str,
    earlier: EnvVars,
    then: EnvVars,
    line: Seq<char>,
)
    requires
        call_ensures(parse_rustc_cfg_output, (before,), earlier),
        call_ensures(parse_rustc_cfg_output, (after,), then),
        before@.len() == 0 || before@.last() == '\n',
        !line.contains('\n'),
        line.len() == 0 || line.last() != '\r',
        after@ == before@ + line + seq!['\n'],
        line != "unix"@,
        line != "windows"@,
        forall|key: Seq<char>, value: Seq<char>|
            !key.contains('=') ==> line != #[trigger] target_line(key, value),
    ensures
        then@ == earlier@,
{
    lemma_lines_push(before@, line);
    law_nothing_else_sets_a_key(line);
    lemma_one_more_line(earlier@, before@, then@, after@, line, Seq::empty());
}

/// Every key that a line sets has a group, which holds the value where the line
/// gives one, and the keys of the groups are in order.
pub proof fn law_every_key_has_a_group(
    stdout: &str,
    groups: Vec<CfgGroup>,
    at: int,
    i: int,
    j: int,
) -> (found: int)
    requires
        call_ensures(group_settings, (stdout,), groups),
        0 <= at < lines(stdout@).len(),
        setting(lines(stdout@)[at]) is Some,
    ensures
        0 <= found < groups@.len(),
        groups@[found].key@ == setting(lines(stdout@)[at])->0.key,
        setting(lines(stdout@)[at])->0.value is Some ==> texts(groups@[found].values@).contains(
            setting(lines(stdout@)[at])->0.value->0,
        ),
        0 <= i < j < groups@.len() ==> comes_before(groups@[i].key@, groups@[j].key@),
{
    let ls = lines(stdout@);
    let key = setting(ls[at])->0.key;
    assert(sets(ls[at], key));
    assert(is_set(ls, key));
    assert(has_key(groups@, key));
    let found = choose|k: int| 0 <= k < groups@.len() && #[trigger] groups@[k].key@ == key;
    if setting(ls[at])->0.value is Some {
        let value = setting(ls[at])->0.value->0;
        let a = ls.take(at);
        let b = ls.skip(at + 1);
        assert(ls =~= a + seq![ls[at]] + b);
        law_values_in_the_order_of_the_lines(a, seq![ls[at]], ls[at], key);
        law_values_in_the_order_of_the_lines(a + seq![ls[at]], b, ls[at], key);
        assert(values_of(ls, key)[values_of(a, key).len() as int] == value);
        assert(texts(groups@[found].values@) == values_of(ls, groups@[found].key@));
    }
    found
}

/// Two lists of groups of the same output are the same, and each group holds
/// the values of its key in the order of the lines.
pub proof fn law_groups(stdout: &str, a: Vec<CfgGroup>, b: Vec<CfgGroup>, i: int)
    requires
        call_ensures(group_settings, (stdout,), a),
        call_ensures(group_settings, (stdout,), b),
        0 <= i < a@.len(),
    ensures
        a@.len() == b@.len(),
        a@[i].key@ == b@[i].key@,
        texts(a@[i].values@) == texts(b@[i].values@),
        texts(a@[i].values@) == values_of(lines(stdout@), a@[i].key@),
        is_set(lines(stdout@), a@[i].key@),
{
    let ls = lines(stdout@);
    assert(has_key(a@, a@[i].key@));
    lemma_same_keys(a@, b@, ls, a@.len() as int);
    lemma_same_keys(b@, a@, ls, b@.len() as int);
    assert(a@[i].key@ == b@[i].key@);
}

/// The keys of two lists of groups of the same lines agree from the start.
proof fn lemma_same_keys(a: Seq<CfgGroup>, b: Seq<CfgGroup>, ls: Seq<Seq<char>>, n: int)
    requires
        grouped(a, ls),
        grouped(b, ls),
        0 <= n <= a.len(),
    ensures
        n <= b.len(),
        forall|i: int| 0 <= i < n ==> #[trigger] a[i].key@ == b[i].key@,
    decreases n,
{
    if n > 0 {
        lemma_same_keys(a, b, ls, n - 1);
        let key = a[n - 1].key@;
        assert(has_key(a, key));
        assert(has_key(b, key));
        let j = choose|j: int| 0 <= j < b.len() && #[trigger] b[j].key@ == key;
        lemma_before_irreflexive(key);
        if j < n - 1 {
            assert(a[j].key@ == b[j].key@);
            assert(comes_before(a[j].key@, a[n - 1].key@));
        }
        if j > n - 1 {
            let other = b[n - 1].key@;
            assert(comes_before(other, key));
            assert(has_key(b, other));
            assert(has_key(a, other));
            let k = choose|k: int| 0 <= k < a.len() && #[trigger] a[k].key@ == other;
            if k < n - 1 {
                assert(a[k].key@ == b[k].key@);
                lemma_before_irreflexive(other);
                assert(comes_before(b[k].key@, b[n - 1].key@));
            } else {
                if k > n - 1 {
                    assert(comes_before(key, other));
                    lemma_before_transitive(key, other, key);
                }
            }
        }
    }
}

/// The variables of groups: one for each, named by its key in upper case, with
/// its values and commas in between; where two share a name, the later counts.
pub proof fn law_group_variables(
    groups: &Vec<CfgGroup>,
    upper_keys: &Vec<String>,
    vars: EnvVars,
    i: int,
)
    requires
        call_ensures(cfg_env_vars, (groups, upper_keys), vars),
        groups@.len() == upper_keys@.len(),
        0 <= i < groups@.len(),
        forall|j: int| i < j < groups@.len() ==> #[trigger] upper_keys@[j]@ != upper_keys@[i]@,
    ensures
        vars@.contains_key("CARGO_CFG_"@ + upper_keys@[i]@),
        vars@["CARGO_CFG_"@ + upper_keys@[i]@] == join(texts(groups@[i].values@), ","@),
{
    let pairs = cfg_pairs(groups@, upper_keys@);
    lemma_mapping(pairs);
    assert(pairs[i].0 == "CARGO_CFG_"@ + upper_keys@[i]@);
    assert forall|j: int| i < j < pairs.len() implies pairs[j].0 != pairs[i].0 by {
        let n = "CARGO_CFG_"@.len() as int;
        assert(pairs[j].0.skip(n) =~= upper_keys@[j]@);
        assert(pairs[i].0.skip(n) =~= upper_keys@[i]@);
        assert(upper_keys@[j]@ != upper_keys@[i]@);
    }
}

/// A run of the compiler that succeeds and writes UTF-8 gives the variables of
/// what it writes; every other run gives none.
pub proof fn law_target_variables(
    run: &RustcRun,
    r: Result<EnvVars, String>,
    text: &str,
    vars: EnvVars,
)
    requires
        call_ensures(target_env_vars, (run,), r),
        call_ensures(parse_rustc_cfg_output, (text,), vars),
    ensures
        match *run {
            RustcRun::Succeeded { stdout } => {
                &&& r is Ok <==> valid_utf8(stdout@)
                &&& r is Ok && decode_utf8(stdout@) == text@ ==> r->Ok_0@ == vars@
            },
            _ => r is Err,
        },
{
    if let RustcRun::Succeeded { stdout } = *run {
        if r is Ok && decode_utf8(stdout@) == text@ {
            lemma_same_vars(r->Ok_0@, text@, vars@, text@);
        }
    }
}

} // verus!
