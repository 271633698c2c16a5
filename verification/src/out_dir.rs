//! What happens to the output directory of a script once it has run: files
//! that differ from run to run are removed, and paths into the execution root
//! are made relative.

use vstd::prelude::*;

use crate::host::Host;
use crate::paths::up_prefix;
use crate::text::{contains, ends_with, read_utf8, replace_text, same_text, split_text};
#[allow(unused_imports)]
use vstd::utf8::{decode_utf8, valid_utf8};
#[allow(unused_imports)]
use crate::paths::way_up;
#[allow(unused_imports)]
use crate::text::{occurs, opt_str, opt_text, replace_all, split, texts};

verus! {

/// An entry of a directory, symbolic links not followed.
pub enum Entry {
    Directory { entries: Vec<Entry> },
    /// A plain file. `None` stands for a name that is not text.
    File { name: Option<String> },
    /// A symbolic link, or anything else.
    Other,
}

/// The names of files that differ from run to run, given the setting that
/// lists them with colons in between.
pub open spec fn listed_names(setting: Option<Seq<char>>) -> Seq<Seq<char>> {
    match setting {
        Some(list) => split(list, ':'),
        None => Seq::empty(),
    }
}

/// The names of files that differ from run to run.
pub fn volatile_basenames(setting: Option<&str>) -> (r: Vec<String>)
    ensures
        texts(r@) == listed_names(opt_str(setting)),
{
    match setting {
        Some(list) => split_text(list, ':'),
        None => {
            let r: Vec<String> = Vec::new();
            assert(texts(r@) =~= Seq::empty());
            r
        },
    }
}

/// A file of this name differs from run to run: it is listed, or it ends in
/// `.d` or `.pc`.
pub open spec fn is_volatile(name: Seq<char>, listed: Seq<Seq<char>>) -> bool {
    listed.contains(name) || ".d"@.is_suffix_of(name) || ".pc"@.is_suffix_of(name)
}

/// Whether a file of this name differs from run to run.
pub fn is_volatile_name(name: &str, listed: &Vec<String>) -> (r: bool)
    ensures
        r == is_volatile(name@, texts(listed@)),
{
    let ghost all = texts(listed@);
    let mut i: usize = 0;
    while i < listed.len()
        invariant
            i <= listed@.len(),
            all == texts(listed@),
            forall|k: int| 0 <= k < i ==> all[k] != name@,
        decreases listed@.len() - i,
    {
        assert(all[i as int] == listed@[i as int]@);
        if same_text(listed[i].as_str(), name) {
            return true;
        }
        i = i + 1;
    }
    ends_with(name, ".d") || ends_with(name, ".pc")
}

/// What a path into a directory leads to. A path is the position of an entry,
/// then that of an entry in it, and so on.
pub open spec fn entry_at(entries: Seq<Entry>, path: Seq<usize>) -> Option<Entry>
    decreases path.len(),
{
    if path.len() == 0 || path[0] >= entries.len() {
        None
    } else if path.len() == 1 {
        Some(entries[path[0] as int])
    } else {
        match entries[path[0] as int] {
            Entry::Directory { entries } => entry_at(entries@, path.skip(1)),
            _ => None,
        }
    }
}

/// Which of the plain files below a directory are meant.
pub enum FileChoice {
    Every,
    /// Those that differ from run to run.
    Volatile { listed: Vec<String> },
}

/// A file of this name is meant.
pub open spec fn is_meant(name: Option<Seq<char>>, choice: FileChoice) -> bool {
    match choice {
        FileChoice::Every => true,
        FileChoice::Volatile { listed } => name is Some && is_volatile(name->0, texts(listed@)),
    }
}

/// The path leads to a plain file that is meant.
pub open spec fn is_chosen(entries: Seq<Entry>, path: Seq<usize>, choice: FileChoice) -> bool {
    match entry_at(entries, path) {
        Some(Entry::File { name }) => is_meant(opt_text(name), choice),
        _ => false,
    }
}

/// A list of paths as sequences.
pub open spec fn path_list(paths: Seq<Vec<usize>>) -> Seq<Seq<usize>> {
    Seq::new(paths.len(), |i: int| paths[i]@)
}

/// Whether a file of this name is meant.
fn means(choice: &FileChoice, name: &Option<String>) -> (r: bool)
    ensures
        r == is_meant(opt_text(*name), *choice),
{
    match choice {
        FileChoice::Every => true,
        FileChoice::Volatile { listed } => match name {
            Some(name) => is_volatile_name(name.as_str(), listed),
            None => false,
        },
    }
}

/// The path leads to a chosen file by way of the first `n` entries.
spec fn chosen_among(
    entries: Seq<Entry>,
    n: int,
    path: Seq<usize>,
    choice: FileChoice,
) -> bool {
    path.len() > 0 && path[0] < n && is_chosen(entries, path, choice)
}

/// The paths are those of the chosen files that go by way of the first `n`
/// entries, with `prefix` in front, each once.
spec fn collected(
    paths: Seq<Seq<usize>>,
    prefix: Seq<usize>,
    entries: Seq<Entry>,
    n: int,
    choice: FileChoice,
) -> bool {
    &&& forall|p: Seq<usize>| #[trigger]
        paths.contains(p) ==> prefix.is_prefix_of(p) && chosen_among(
            entries,
            n,
            p.skip(prefix.len() as int),
            choice,
        )
    &&& forall|q: Seq<usize>| #[trigger]
        chosen_among(entries, n, q, choice) ==> paths.contains(prefix + q)
    &&& paths.no_duplicates()
}

/// The chosen files below a directory.
fn collect(entries: &Vec<Entry>, prefix: &Vec<usize>, choice: &FileChoice) -> (r: Vec<Vec<usize>>)
    ensures
        collected(path_list(r@), prefix@, entries@, entries@.len() as int, *choice),
    decreases entries,
{
    let mut out: Vec<Vec<usize>> = Vec::new();
    let mut i: usize = 0;
    assert(path_list(out@) =~= Seq::empty());
    while i < entries.len()
        invariant
            i <= entries@.len(),
            collected(path_list(out@), prefix@, entries@, i as int, *choice),
        decreases entries@.len() - i,
    {
        let ghost so_far = path_list(out@);
        let mut path = prefix.clone();
        path.push(i);
        assert(path@ =~= prefix@.push(i));
        match &entries[i] {
            Entry::Directory { entries: inner } => {
                let mut below = collect(inner, &path, choice);
                let ghost added = path_list(below@);
                out.append(&mut below);
                proof {
                    assert(path_list(out@) =~= so_far + added);
                    lemma_add_directory(so_far, added, prefix@, entries@, i, *choice, inner@);
                }
            },
            Entry::File { name } => {
                if means(choice, name) {
                    let ghost added = path@;
                    out.push(path);
                    proof {
                        assert(path_list(out@) =~= so_far.push(added));
                        lemma_add_file(so_far, prefix@, entries@, i, *choice);
                    }
                } else {
                    proof {
                        lemma_add_nothing(so_far, prefix@, entries@, i, *choice);
                    }
                }
            },
            Entry::Other => {
                proof {
                    lemma_add_nothing(so_far, prefix@, entries@, i, *choice);
                }
            },
        }
        i = i + 1;
    }
    out
}

/// What goes by way of one entry more.
proof fn lemma_chosen_step(
    entries: Seq<Entry>,
    i: usize,
    q: Seq<usize>,
    choice: FileChoice,
)
    requires
        i < entries.len(),
    ensures
        chosen_among(entries, i + 1, q, choice) <==> chosen_among(entries, i as int, q, choice)
            || q.len() > 0 && q[0] == i && is_chosen(entries, q, choice),
        q.len() > 1 && q[0] == i ==> match entries[i as int] {
            Entry::Directory { entries: inner } => is_chosen(entries, q, choice) == chosen_among(
                inner@,
                inner@.len() as int,
                q.skip(1),
                choice,
            ),
            _ => !is_chosen(entries, q, choice),
        },
        q.len() == 1 && q[0] == i ==> match entries[i as int] {
            Entry::File { name } => is_chosen(entries, q, choice) == is_meant(
                opt_text(name),
                choice,
            ),
            _ => !is_chosen(entries, q, choice),
        },
{
}

/// An entry that is not chosen adds nothing.
proof fn lemma_add_nothing(
    paths: Seq<Seq<usize>>,
    prefix: Seq<usize>,
    entries: Seq<Entry>,
    i: usize,
    choice: FileChoice,
)
    requires
        i < entries.len(),
        collected(paths, prefix, entries, i as int, choice),
        match entries[i as int] {
            Entry::Directory { .. } => false,
            Entry::File { name } => !is_meant(opt_text(name), choice),
            Entry::Other => true,
        },
    ensures
        collected(paths, prefix, entries, i + 1, choice),
{
    assert forall|q: Seq<usize>| #[trigger]
        chosen_among(entries, i + 1, q, choice) == chosen_among(entries, i as int, q, choice) by {
        lemma_chosen_step(entries, i, q, choice);
    }
}

/// A chosen file adds its path.
proof fn lemma_add_file(
    paths: Seq<Seq<usize>>,
    prefix: Seq<usize>,
    entries: Seq<Entry>,
    i: usize,
    choice: FileChoice,
)
    requires
        i < entries.len(),
        collected(paths, prefix, entries, i as int, choice),
        match entries[i as int] {
            Entry::File { name } => is_meant(opt_text(name), choice),
            _ => false,
        },
    ensures
        collected(paths.push(prefix.push(i)), prefix, entries, i + 1, choice),
{
    let mine = prefix.push(i);
    let all = paths.push(mine);
    let n = prefix.len() as int;
    assert(mine.skip(n) =~= seq![i]);
    assert(mine.subrange(0, n) =~= prefix);
    assert forall|p: Seq<usize>| #[trigger] all.contains(p) implies prefix.is_prefix_of(p)
        && chosen_among(entries, i + 1, p.skip(n), choice) by {
        let k = choose|k: int| 0 <= k < all.len() && all[k] == p;
        lemma_chosen_step(entries, i, p.skip(n), choice);
        if k < paths.len() {
            assert(paths[k] == p);
            assert(paths.contains(p));
        }
    }
    assert forall|q: Seq<usize>| #[trigger] chosen_among(entries, i + 1, q, choice) implies
        all.contains(prefix + q) by {
        lemma_chosen_step(entries, i, q, choice);
        if chosen_among(entries, i as int, q, choice) {
            assert(paths.contains(prefix + q));
            let k = choose|k: int| 0 <= k < paths.len() && paths[k] == prefix + q;
            assert(all[k] == prefix + q);
        } else {
            assert(q.len() == 1);
            assert(prefix + q =~= mine);
            assert(all[paths.len() as int] == mine);
        }
    }
    assert(!paths.contains(mine));
    assert forall|a: int, b: int| 0 <= a < b < all.len() implies all[a] != all[b] by {
        if b == paths.len() {
            assert(paths.contains(paths[a]));
        }
    }
}

/// A directory adds the paths of the chosen files in it.
proof fn lemma_add_directory(
    paths: Seq<Seq<usize>>,
    added: Seq<Seq<usize>>,
    prefix: Seq<usize>,
    entries: Seq<Entry>,
    i: usize,
    choice: FileChoice,
    inner: Seq<Entry>,
)
    requires
        i < entries.len(),
        collected(paths, prefix, entries, i as int, choice),
        match entries[i as int] {
            Entry::Directory { entries: below } => below@ == inner,
            _ => false,
        },
        collected(added, prefix.push(i), inner, inner.len() as int, choice),
    ensures
        collected(paths + added, prefix, entries, i + 1, choice),
{
    let mine = prefix.push(i);
    let all = paths + added;
    let n = prefix.len() as int;
    assert forall|p: Seq<usize>| #[trigger] added.contains(p) implies prefix.is_prefix_of(p)
        && p.skip(n).len() > 1 && p.skip(n)[0] == i && chosen_among(
        entries,
        i + 1,
        p.skip(n),
        choice,
    ) by {
        assert(mine.is_prefix_of(p));
        assert(chosen_among(inner, inner.len() as int, p.skip(n + 1), choice));
        assert(p.subrange(0, n + 1)[n] == mine[n]);
        assert(p.subrange(0, n) =~= p.subrange(0, n + 1).subrange(0, n));
        assert(mine.subrange(0, n) =~= prefix);
        assert(p.skip(n).skip(1) =~= p.skip(n + 1));
        lemma_chosen_step(entries, i, p.skip(n), choice);
    }
    assert forall|p: Seq<usize>| #[trigger] all.contains(p) implies prefix.is_prefix_of(p)
        && chosen_among(entries, i + 1, p.skip(n), choice) by {
        let k = choose|k: int| 0 <= k < all.len() && all[k] == p;
        lemma_chosen_step(entries, i, p.skip(n), choice);
        if k < paths.len() {
            assert(paths[k] == p);
            assert(paths.contains(p));
        } else {
            assert(added[k - paths.len()] == p);
            assert(added.contains(p));
        }
    }
    assert forall|q: Seq<usize>| #[trigger] chosen_among(entries, i + 1, q, choice) implies
        all.contains(prefix + q) by {
        lemma_chosen_step(entries, i, q, choice);
        if chosen_among(entries, i as int, q, choice) {
            assert(paths.contains(prefix + q));
            let k = choose|k: int| 0 <= k < paths.len() && paths[k] == prefix + q;
            assert(all[k] == prefix + q);
        } else {
            assert(chosen_among(inner, inner.len() as int, q.skip(1), choice));
            assert(added.contains(mine + q.skip(1)));
            assert(mine + q.skip(1) =~= prefix + q);
            let k = choose|k: int| 0 <= k < added.len() && added[k] == prefix + q;
            assert(all[paths.len() + k] == prefix + q);
        }
    }
    assert forall|a: int, b: int| 0 <= a < b < all.len() implies all[a] != all[b] by {
        if a < paths.len() && b >= paths.len() {
            assert(paths.contains(paths[a]));
            assert(added.contains(added[b - paths.len()]));
        } else if a >= paths.len() {
            assert(added[a - paths.len()] != added[b - paths.len()]);
        }
    }
}

/// The paths of the chosen plain files below a directory: of every one, at any
/// depth, once. Symbolic links are neither chosen nor followed.
pub fn choose_files(entries: &Vec<Entry>, choice: &FileChoice) -> (r: Vec<Vec<usize>>)
    ensures
        forall|path: Seq<usize>| #[trigger]
            path_list(r@).contains(path) <==> is_chosen(entries@, path, *choice),
        path_list(r@).no_duplicates(),
{
    let none: Vec<usize> = Vec::new();
    let r = collect(entries, &none, choice);
    proof {
        assert forall|path: Seq<usize>| #[trigger]
            path_list(r@).contains(path) <==> is_chosen(entries@, path, *choice) by {
            assert(path.skip(0) =~= path);
            assert(none@ + path =~= path);
            assert(is_chosen(entries@, path, *choice) == chosen_among(
                entries@,
                entries@.len() as int,
                path,
                *choice,
            ));
        }
    }
    r
}

/// What the files of the output directory are searched for, and what stands
/// there instead: the execution root with a `/` behind it, and the way up to
/// it from the package's directory.
pub fn redaction(host: &Host, manifest_dir: &str, exec_root: &str) -> (r: (String, String))
    ensures
        r.0@ == exec_root@ + seq!['/'],
        r.1@ == way_up(*host, manifest_dir@, exec_root@),
{
    let mut pattern = exec_root.to_owned();
    pattern.push('/');
    assert(pattern@ =~= exec_root@ + seq!['/']);
    (pattern, up_prefix(host, manifest_dir, exec_root))
}

/// What is to be written in place of a text, with `replacement` for every
/// `pattern`. Text that does not hold the pattern is not written again.
pub fn redact_text(content: &str, pattern: &str, replacement: &str) -> (r: Option<String>)
    ensures
        r is Some <==> occurs(content@, pattern@),
        r matches Some(text) ==> text@ == replace_all(content@, pattern@, replacement@),
{
    if contains(content, pattern) {
        Some(replace_text(content, pattern, replacement))
    } else {
        None
    }
}

/// What is to be written in place of the contents of a file. Contents that are
/// not UTF-8 are left untouched, as is text that does not hold the pattern.
pub fn redact_bytes(content: &[u8], pattern: &str, replacement: &str) -> (r: Option<String>)
    ensures
        r is Some <==> valid_utf8(content@) && occurs(decode_utf8(content@), pattern@),
        r matches Some(text) ==> text@ == replace_all(
            decode_utf8(content@),
            pattern@,
            replacement@,
        ),
{
    match read_utf8(content) {
        Ok(text) => redact_text(text.as_str(), pattern, replacement),
        Err(_) => None,
    }
}

/// Whether an empty file is to be put into the output directory so that it
/// holds something: where it holds nothing, or cannot be listed.
pub fn needs_placeholder(entries: Option<usize>) -> (r: bool)
    ensures
        r == (entries is None || entries->0 == 0),
{
    match entries {
        Some(count) => count == 0,
        None => true,
    }
}

/// Nothing but a plain file is chosen, and nothing but directories lies on the
/// way to it: a symbolic link is left alone, and so is what it leads to.
pub proof fn law_only_plain_files_in_directories(
    entries: Seq<Entry>,
    path: Seq<usize>,
    choice: FileChoice,
    n: int,
)
    requires
        is_chosen(entries, path, choice),
    ensures
        entry_at(entries, path) is Some,
        entry_at(entries, path)->0 is File,
        0 < n < path.len() ==> entry_at(entries, path.take(n)) is Some && entry_at(
            entries,
            path.take(n),
        )->0 is Directory,
    decreases path.len(),
{
    if 1 < n < path.len() {
        match entries[path[0] as int] {
            Entry::Directory { entries: inner } => {
                assert(path.skip(1).take(n - 1) =~= path.take(n).skip(1));
                law_only_plain_files_in_directories(inner@, path.skip(1), choice, n - 1);
            },
            _ => {},
        }
    } else if path.len() > 1 {
        assert(path.take(1)[0] == path[0]);
    }
}

/// Dependency files and package descriptions differ from run to run whatever
/// is listed.
pub proof fn law_suffixes_need_no_list(stem: Seq<char>, listed: Seq<Seq<char>>)
    ensures
        is_volatile(stem + ".d"@, listed),
        is_volatile(stem + ".pc"@, listed),
{
    let d = stem + ".d"@;
    assert(d.subrange(d.len() - ".d"@.len(), d.len() as int) =~= ".d"@);
    let pc = stem + ".pc"@;
    assert(pc.subrange(pc.len() - ".pc"@.len(), pc.len() as int) =~= ".pc"@);
}

/// Every name between the colons of the setting is listed, and with no setting
/// no name is.
pub proof fn law_setting_lists_names(list: Seq<char>, i: int)
    requires
        0 <= i < split(list, ':').len(),
    ensures
        is_volatile(split(list, ':')[i], listed_names(Some(list))),
        listed_names(None).len() == 0,
{
}

} // verus!
