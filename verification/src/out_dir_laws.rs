//! What holds of the files of the output directory that are removed or written
//! again.

use vstd::prelude::*;

#[allow(unused_imports)]
use crate::out_dir::{choose_files, entry_at, is_chosen, is_meant, is_volatile, is_volatile_name, listed_names, needs_placeholder, path_list, redact_bytes, redact_text, volatile_basenames, Entry, FileChoice};
#[allow(unused_imports)]
use crate::text::{occurs, occurs_at, opt_text, replace_all, split, texts};
#[allow(unused_imports)]
use crate::text_laws::{law_occurs, law_replace_first, law_replace_without_occurrence, law_split};
#[allow(unused_imports)]
use vstd::utf8::{decode_utf8, valid_utf8};

verus! {

/// The name is some stem with the ending behind it.
pub open spec fn ends_in(name: Seq<char>, ending: Seq<char>) -> bool {
    exists|stem: Seq<char>| name == #[trigger] (stem + ending)
}

/// A name is on the list.
pub open spec fn is_listed(name: Seq<char>, listed: Seq<String>) -> bool {
    exists|i: int| 0 <= i < listed.len() && #[trigger] listed[i]@ == name
}

proof fn lemma_ends_in(name: Seq<char>, ending: Seq<char>)
    ensures
        ending.is_suffix_of(name) <==> ends_in(name, ending),
{
    if ending.is_suffix_of(name) {
        let n = name.len() - ending.len();
        assert(name =~= name.take(n) + ending);
    }
    if ends_in(name, ending) {
        let stem = choose|stem: Seq<char>| name == #[trigger] (stem + ending);
        assert(name.subrange(name.len() - ending.len(), name.len() as int) =~= ending);
    }
}

proof fn lemma_volatile(name: Seq<char>, listed: Seq<String>)
    ensures
        is_volatile(name, texts(listed)) <==> is_listed(name, listed) || ends_in(name, ".d"@)
            || ends_in(name, ".pc"@),
{
    lemma_ends_in(name, ".d"@);
    lemma_ends_in(name, ".pc"@);
    if texts(listed).contains(name) {
        let i = choose|i: int| 0 <= i < texts(listed).len() && texts(listed)[i] == name;
        assert(listed[i]@ == name);
    }
    if is_listed(name, listed) {
        let i = choose|i: int| 0 <= i < listed.len() && #[trigger] listed[i]@ == name;
        assert(texts(listed)[i] == name);
    }
}

/// A file differs from run to run where its name is listed or ends in `.d` or
/// `.pc`, and in no other case.
pub proof fn law_volatile_names(name: &str, listed: &Vec<String>, r: bool)
    requires
        call_ensures(is_volatile_name, (name, listed), r),
    ensures
        r <==> is_listed(name@, listed@) || ends_in(name@, ".d"@) || ends_in(name@, ".pc"@),
{
    lemma_volatile(name@, listed@);
}

/// With no setting no name is listed; a setting without a colon lists itself;
/// and a name with a colon behind it, in front of a setting, is listed before
/// the names of that setting.
pub proof fn law_names_of_the_setting(
    setting: Option<&str>,
    longer: Option<&str>,
    name: Seq<char>,
    r: Vec<String>,
    then: Vec<String>,
)
    requires
        call_ensures(volatile_basenames, (setting,), r),
        call_ensures(volatile_basenames, (longer,), then),
        !name.contains(':'),
    ensures
        setting is None ==> r@.len() == 0,
        setting is Some && setting->0@ == name ==> r@.len() == 1 && r@[0]@ == name,
        setting is Some && longer is Some && longer->0@ == name + seq![':'] + setting->0@ ==> {
            &&& then@.len() == r@.len() + 1
            &&& then@[0]@ == name
            &&& forall|i: int| 0 <= i < r@.len() ==> #[trigger] then@[i + 1]@ == r@[i]@
        },
{
    if setting is Some {
        law_split(name, ':', setting->0@);
        assert(texts(r@) == split(setting->0@, ':'));
        assert(texts(r@).len() == r@.len());
        if setting->0@ == name {
            assert(texts(r@)[0] == r@[0]@);
        }
        if longer is Some && longer->0@ == name + seq![':'] + setting->0@ {
            assert(texts(then@) == seq![name] + texts(r@));
            assert(texts(then@).len() == then@.len());
            assert(texts(then@)[0] == then@[0]@);
            assert forall|i: int| 0 <= i < r@.len() implies #[trigger] then@[i + 1]@ == r@[i]@ by {
                assert(texts(then@)[i + 1] == then@[i + 1]@);
                assert(texts(r@)[i] == r@[i]@);
            }
        }
    } else {
        assert(texts(r@).len() == 0);
    }
}

/// The path is among the paths.
pub open spec fn is_among(path: Seq<usize>, paths: Seq<Vec<usize>>) -> bool {
    exists|k: int| 0 <= k < paths.len() && #[trigger] paths[k]@ == path
}

proof fn lemma_among(path: Seq<usize>, paths: Seq<Vec<usize>>)
    ensures
        is_among(path, paths) <==> path_list(paths).contains(path),
{
    if is_among(path, paths) {
        let k = choose|k: int| 0 <= k < paths.len() && #[trigger] paths[k]@ == path;
        assert(path_list(paths)[k] == path);
    }
    if path_list(paths).contains(path) {
        let k = choose|k: int| 0 <= k < path_list(paths).len() && path_list(paths)[k] == path;
        assert(paths[k]@ == path);
    }
}

/// Of the entries of a directory itself, the plain files are chosen that are
/// meant, and nothing else: every one, or those with names that are listed or
/// end in `.d` or `.pc`.
pub proof fn law_chosen_files(
    entries: &Vec<Entry>,
    choice: &FileChoice,
    r: Vec<Vec<usize>>,
    at: usize,
)
    requires
        call_ensures(choose_files, (entries, choice), r),
    ensures
        is_among(seq![at], r@) <==> at < entries@.len() && match (entries@[at as int], *choice) {
            (Entry::File { name }, FileChoice::Every) => true,
            (
                Entry::File { name: Some(name) },
                FileChoice::Volatile { listed },
            ) => is_listed(name@, listed@) || ends_in(name@, ".d"@) || ends_in(name@, ".pc"@),
            _ => false,
        },
{
    lemma_among(seq![at], r@);
    if at < entries@.len() {
        match (entries@[at as int], *choice) {
            (Entry::File { name: Some(name) }, FileChoice::Volatile { listed }) => {
                lemma_volatile(name@, listed@);
            },
            _ => {},
        }
    }
    assert(path_list(r@).contains(seq![at]) == is_chosen(entries@, seq![at], *choice));
}

/// Of what lies in a directory in the directory, exactly that is chosen which
/// is chosen there. Nothing is chosen below anything else, and no path is
/// empty.
pub proof fn law_chosen_files_below(
    entries: &Vec<Entry>,
    inner: &Vec<Entry>,
    choice: &FileChoice,
    r: Vec<Vec<usize>>,
    below: Vec<Vec<usize>>,
    at: usize,
    path: Seq<usize>,
)
    requires
        call_ensures(choose_files, (entries, choice), r),
        call_ensures(choose_files, (inner, choice), below),
        path.len() > 0,
    ensures
        at < entries@.len() && (match entries@[at as int] {
            Entry::Directory { entries: e } => e@ == inner@,
            _ => false,
        }) ==> (is_among(seq![at] + path, r@) <==> is_among(path, below@)),
        at >= entries@.len() || !(entries@[at as int] is Directory) ==> !is_among(
            seq![at] + path,
            r@,
        ),
        !is_among(Seq::empty(), r@),
{
    let whole = seq![at] + path;
    lemma_among(whole, r@);
    lemma_among(path, below@);
    lemma_among(Seq::empty(), r@);
    assert(whole.skip(1) =~= path);
    assert(path_list(r@).contains(whole) == is_chosen(entries@, whole, *choice));
    assert(path_list(below@).contains(path) == is_chosen(inner@, path, *choice));
    assert(path_list(r@).contains(Seq::empty()) == is_chosen(entries@, Seq::empty(), *choice));
}

/// No file is chosen twice.
pub proof fn law_each_file_once(
    entries: &Vec<Entry>,
    choice: &FileChoice,
    r: Vec<Vec<usize>>,
    i: int,
    j: int,
)
    requires
        call_ensures(choose_files, (entries, choice), r),
        0 <= i < j < r@.len(),
    ensures
        r@[i]@ != r@[j]@,
{
    assert(path_list(r@)[i] != path_list(r@)[j]);
}

/// A text that does not hold the pattern is not written again. In one that
/// does, the first occurrence gives way to the replacement, what stands before
/// it stays, and what follows is treated in the same way.
pub proof fn law_redacted_text(
    content: &str,
    pattern: &str,
    replacement: &str,
    r: Option<String>,
    before: Seq<char>,
    after: &str,
    of_after: Option<String>,
)
    requires
        call_ensures(redact_text, (content, pattern, replacement), r),
        call_ensures(redact_text, (after, pattern, replacement), of_after),
        pattern@.len() > 0,
    ensures
        r is Some <==> exists|a: Seq<char>, b: Seq<char>| content@ == #[trigger] (a + pattern@ + b),
        content@ == before + pattern@ + after@ && (forall|i: int|
            0 <= i < before.len() ==> #[trigger] content@.subrange(i, i + pattern@.len())
                != pattern@) ==> r is Some && r->0@ == before + replacement@ + (match of_after {
            Some(text) => text@,
            None => after@,
        }),
{
    law_occurs(content@, pattern@);
    if content@ == before + pattern@ + after@ && (forall|i: int|
        0 <= i < before.len() ==> #[trigger] content@.subrange(i, i + pattern@.len()) != pattern@) {
        law_replace_first(before, pattern@, after@, replacement@);
        if of_after is None {
            law_replace_without_occurrence(after@, pattern@, replacement@);
        }
    }
}

/// Contents that are not UTF-8 are not written again, and what is is treated
/// as the text that it encodes.
pub proof fn law_redacted_bytes(
    content: &[u8],
    text: &str,
    pattern: &str,
    replacement: &str,
    r: Option<String>,
    of_text: Option<String>,
)
    requires
        call_ensures(redact_bytes, (content, pattern, replacement), r),
        call_ensures(redact_text, (text, pattern, replacement), of_text),
    ensures
        !valid_utf8(content@) ==> r is None,
        valid_utf8(content@) && decode_utf8(content@) == text@ ==> opt_text(r) == opt_text(of_text),
{
}

/// A directory that holds something gets no placeholder; one that holds nothing
/// or cannot be listed does.
pub proof fn law_placeholder(entries: Option<usize>, r: bool)
    requires
        call_ensures(needs_placeholder, (entries,), r),
    ensures
        !r <==> entries is Some && entries->0 > 0,
{
}

} // verus!
