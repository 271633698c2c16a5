//! What holds of the paths that the runner computes, on a Unix host for the
//! most part.

use vstd::prelude::*;

#[allow(unused_imports)]
use crate::host::Host;
#[allow(unused_imports)]
use crate::host::{native_absolute, native_joined, native_name, native_parts, native_rest};
#[allow(unused_imports)]
use crate::out_dir::redaction;
#[allow(unused_imports)]
use crate::paths::{below_exec_root, busy, climbs, debug_form, depth_below_exec_root, file_name, has_parent_segment, is_absolute, is_absolute_path, is_idle, join_path, joined, last_busy, nonempty, path_file_name, resolve_rundir, resolve_rundir_quoted, result_text, run_directory, segments, stripped, up_prefix, way_up, without_leading_dots, without_trailing_dots};
#[allow(unused_imports)]
use crate::text::{find, lemma_find, lemma_split_concat, opt_text, repeated, split};
#[allow(unused_imports)]
use crate::text_laws::{law_repeated, law_split};

verus! {

/// Where one step leads from a directory, given as the names that lead to it
/// from the root.
pub open spec fn step(from: Seq<Seq<char>>, segment: Seq<char>) -> Seq<Seq<char>> {
    if is_idle(segment) {
        from
    } else if segment == ".."@ {
        if from.len() == 0 {
            from
        } else {
            from.drop_last()
        }
    } else {
        from.push(segment)
    }
}

/// Where a list of steps leads from a directory.
pub open spec fn walk(from: Seq<Seq<char>>, steps: Seq<Seq<char>>) -> Seq<Seq<char>>
    decreases steps.len(),
{
    if steps.len() == 0 {
        from
    } else {
        step(walk(from, steps.drop_last()), steps.last())
    }
}

/// The names that lead from the root to where a path leads, symbolic links
/// aside.
pub open spec fn place(path: Seq<char>) -> Seq<Seq<char>> {
    walk(Seq::empty(), segments(path))
}

proof fn lemma_walk_concat(from: Seq<Seq<char>>, a: Seq<Seq<char>>, b: Seq<Seq<char>>)
    ensures
        walk(from, a + b) == walk(walk(from, a), b),
    decreases b.len(),
{
    if b.len() == 0 {
        assert(a + b =~= a);
    } else {
        assert((a + b).drop_last() =~= a + b.drop_last());
        lemma_walk_concat(from, a, b.drop_last());
    }
}

/// Behind a text that ends in `/`, or behind nothing, the segments of a path
/// stay as they are.
proof fn lemma_walk_append(from: Seq<Seq<char>>, base: Seq<char>, path: Seq<char>)
    requires
        base.len() == 0 || base.last() == '/',
    ensures
        walk(from, segments(base + path)) == walk(walk(from, segments(base)), segments(path)),
{
    let none = Seq::<char>::empty();
    assert(segments(none) =~= seq![none]);
    assert(segments(none).drop_last() =~= Seq::empty());
    reveal_with_fuel(walk, 2);
    if base.len() == 0 {
        assert(base + path =~= path);
        assert(base =~= none);
        assert(walk(from, segments(base)) == from);
    } else {
        let stem = base.drop_last();
        assert(base =~= stem + seq!['/'] + none);
        assert(base + path =~= stem + seq!['/'] + path);
        lemma_split_concat(stem, none, '/');
        lemma_split_concat(stem, path, '/');
        lemma_walk_concat(from, segments(stem), segments(none));
        lemma_walk_concat(from, segments(stem), segments(path));
        let here = walk(from, segments(stem));
        assert(walk(here, segments(none)) == here);
    }
}

/// To walk a joined path is to walk its base and then the path.
proof fn lemma_walk_joined(from: Seq<Seq<char>>, base: Seq<char>, path: Seq<char>)
    requires
        !is_absolute(path),
    ensures
        walk(from, segments(joined(base, path))) == walk(
            walk(from, segments(base)),
            segments(path),
        ),
{
    if base.len() == 0 || base.last() == '/' {
        lemma_walk_append(from, base, path);
    } else {
        lemma_split_concat(base, path, '/');
        lemma_walk_concat(from, segments(base), segments(path));
    }
}

/// Empty segments lead nowhere.
proof fn lemma_walk_nonempty(from: Seq<Seq<char>>, steps: Seq<Seq<char>>)
    ensures
        walk(from, nonempty(steps)) == walk(from, steps),
    decreases steps.len(),
{
    if steps.len() > 0 {
        lemma_walk_nonempty(from, steps.drop_last());
        if steps.last().len() > 0 {
            assert(nonempty(steps).drop_last() =~= nonempty(steps.drop_last()));
        }
    }
}

/// Idle segments lead nowhere.
proof fn lemma_walk_busy(from: Seq<Seq<char>>, steps: Seq<Seq<char>>)
    ensures
        walk(from, busy(steps)) == walk(from, steps),
    decreases steps.len(),
{
    if steps.len() > 0 {
        lemma_walk_busy(from, steps.drop_last());
        if !is_idle(steps.last()) {
            assert(busy(steps).drop_last() =~= busy(steps.drop_last()));
        }
    }
}

/// The first step, then the rest.
proof fn lemma_walk_first(from: Seq<Seq<char>>, steps: Seq<Seq<char>>)
    requires
        steps.len() > 0,
    ensures
        walk(from, steps) == walk(step(from, steps[0]), steps.skip(1)),
{
    assert(steps =~= seq![steps[0]] + steps.skip(1));
    lemma_walk_concat(from, seq![steps[0]], steps.skip(1));
    reveal_with_fuel(walk, 2);
    assert(seq![steps[0]].drop_last() =~= Seq::empty());
}

/// To walk what starts with a prefix is to walk the prefix and then the rest.
proof fn lemma_walk_stripped(from: Seq<Seq<char>>, steps: Seq<Seq<char>>, prefix: Seq<Seq<char>>)
    requires
        stripped(steps, prefix) is Some,
    ensures
        walk(from, steps) == walk(walk(from, prefix), stripped(steps, prefix)->0),
    decreases steps.len(),
{
    if prefix.len() > 0 {
        lemma_walk_first(from, steps);
        if steps[0] == "."@ {
            lemma_walk_stripped(from, steps.skip(1), prefix);
        } else {
            lemma_walk_first(from, prefix);
            lemma_walk_stripped(step(from, steps[0]), steps.skip(1), prefix.skip(1));
        }
    }
}

proof fn lemma_walk_leading_dots(from: Seq<Seq<char>>, steps: Seq<Seq<char>>)
    ensures
        walk(from, without_leading_dots(steps)) == walk(from, steps),
    decreases steps.len(),
{
    if steps.len() > 0 && steps[0] == "."@ {
        lemma_walk_first(from, steps);
        lemma_walk_leading_dots(from, steps.skip(1));
    }
}

proof fn lemma_walk_trailing_dots(from: Seq<Seq<char>>, steps: Seq<Seq<char>>)
    ensures
        walk(from, without_trailing_dots(steps)) == walk(from, steps),
    decreases steps.len(),
{
    if steps.len() > 0 && steps.last() == "."@ {
        lemma_walk_trailing_dots(from, steps.drop_last());
    }
}

/// Names, and nothing else: no segment is empty, `.` or `..`.
pub open spec fn only_names(steps: Seq<Seq<char>>) -> bool {
    forall|i: int| 0 <= i < steps.len() ==> !is_idle(#[trigger] steps[i]) && steps[i] != ".."@
}

/// Names lead down, each to one level more.
proof fn lemma_walk_names(from: Seq<Seq<char>>, steps: Seq<Seq<char>>)
    requires
        only_names(steps),
    ensures
        walk(from, steps) == from + steps,
    decreases steps.len(),
{
    if steps.len() == 0 {
        assert(from + steps =~= from);
    } else {
        let rest = steps.drop_last();
        assert forall|i: int| 0 <= i < rest.len() implies !is_idle(#[trigger] rest[i]) && rest[i]
            != ".."@ by {
            assert(rest[i] == steps[i]);
        }
        lemma_walk_names(from, rest);
        assert(!is_idle(steps[steps.len() - 1]));
        assert(from + steps =~= (from + rest).push(steps.last()));
    }
}

/// Each `../` leads one level up.
proof fn lemma_walk_up(from: Seq<Seq<char>>, count: nat)
    requires
        count <= from.len(),
    ensures
        walk(from, segments(repeated("../"@, count))) == from.take(from.len() - count),
    decreases count,
{
    reveal_strlit("../");
    reveal_strlit("..");
    reveal_strlit(".");
    reveal_with_fuel(walk, 3);
    let none = Seq::<char>::empty();
    let up = "../"@;
    assert(segments(none) =~= seq![none]);
    if count == 0 {
        assert(repeated(up, count) =~= none);
        assert(segments(none).drop_last() =~= Seq::empty());
        assert(from.take(from.len() as int) =~= from);
    } else {
        let fewer = repeated(up, (count - 1) as nat);
        lemma_walk_up(from, (count - 1) as nat);
        assert(repeated(up, count) == fewer + up);
        if count > 1 {
            assert(fewer =~= repeated(up, (count - 2) as nat) + up);
            assert(fewer.last() == '/');
        }
        assert(joined(fewer, up) =~= repeated(up, count));
        lemma_walk_joined(from, fewer, up);
        lemma_split_concat(".."@, none, '/');
        assert(up =~= ".."@ + seq!['/'] + none);
        lemma_find(".."@, '/');
        assert(segments(".."@) =~= seq![".."@]);
        assert(segments(up) =~= seq![".."@, none]);
        let here = from.take(from.len() - (count - 1));
        assert(segments(up).drop_last() =~= seq![".."@]);
        assert(seq![".."@].drop_last() =~= Seq::<Seq<char>>::empty());
        assert(walk(here, segments(up)) == here.drop_last());
        assert(here.drop_last() =~= from.take(from.len() - count));
    }
}

/// Where a package lies below the execution root: the names that lead down to
/// it, behind those of the execution root.
proof fn lemma_package_place(host: Host, manifest_dir: Seq<char>, exec_root: Seq<char>)
    requires
        host.is_unix(),
        below_exec_root(host, manifest_dir, exec_root) is Some,
        only_names(below_exec_root(host, manifest_dir, exec_root)->0),
    ensures
        place(joined(exec_root, manifest_dir)) == place(exec_root) + below_exec_root(
            host,
            manifest_dir,
            exec_root,
        )->0,
{
    let start = Seq::<Seq<char>>::empty();
    let root = place(exec_root);
    let down = below_exec_root(host, manifest_dir, exec_root)->0;
    let steps = nonempty(segments(manifest_dir));
    if is_absolute(manifest_dir) {
        let prefix = busy(segments(exec_root));
        lemma_walk_nonempty(start, segments(manifest_dir));
        lemma_walk_stripped(start, steps, prefix);
        lemma_walk_busy(start, segments(exec_root));
        let rest = stripped(steps, prefix)->0;
        lemma_walk_leading_dots(root, rest);
        lemma_walk_trailing_dots(root, without_leading_dots(rest));
    } else {
        lemma_walk_joined(start, exec_root, manifest_dir);
        lemma_walk_nonempty(root, segments(manifest_dir));
    }
    lemma_walk_names(root, down);
}

/// From the package's directory, the way up leads back to the execution root:
/// for every package below the execution root that is reached by names alone.
pub proof fn law_way_up_leads_back(host: Host, manifest_dir: Seq<char>, exec_root: Seq<char>)
    requires
        host.is_unix(),
        below_exec_root(host, manifest_dir, exec_root) is Some,
        only_names(below_exec_root(host, manifest_dir, exec_root)->0),
    ensures
        place(joined(joined(exec_root, manifest_dir), way_up(host, manifest_dir, exec_root))) == place(
            exec_root,
        ),
{
    let root = place(exec_root);
    let down = below_exec_root(host, manifest_dir, exec_root)->0;
    lemma_package_place(host, manifest_dir, exec_root);
    lemma_up_is_relative(down.len());
    lemma_walk_joined(
        Seq::empty(),
        joined(exec_root, manifest_dir),
        way_up(host, manifest_dir, exec_root),
    );
    lemma_walk_up(root + down, down.len());
    assert((root + down).take(root.len() as int) =~= root);
}

/// A path into the execution root leads to the same place once the way up
/// stands for the execution root and it is seen from the package's directory.
/// The one exception is a package in the execution root itself, where nothing
/// is left in front of a rest that starts with `/`.
pub proof fn law_redacted_path_leads_to_the_same_place(
    host: Host,
    manifest_dir: Seq<char>,
    exec_root: Seq<char>,
    rest: Seq<char>,
)
    requires
        host.is_unix(),
        below_exec_root(host, manifest_dir, exec_root) is Some,
        only_names(below_exec_root(host, manifest_dir, exec_root)->0),
        !is_absolute(way_up(host, manifest_dir, exec_root) + rest),
    ensures
        place(
            joined(joined(exec_root, manifest_dir), way_up(host, manifest_dir, exec_root) + rest),
        ) == place(exec_root + seq!['/'] + rest),
{
    let start = Seq::<Seq<char>>::empty();
    let root = place(exec_root);
    let down = below_exec_root(host, manifest_dir, exec_root)->0;
    let package = joined(exec_root, manifest_dir);
    let up = way_up(host, manifest_dir, exec_root);
    lemma_package_place(host, manifest_dir, exec_root);
    lemma_walk_joined(start, package, up + rest);
    if down.len() > 0 {
        reveal_strlit("../");
        assert(up =~= repeated("../"@, (down.len() - 1) as nat) + "../"@);
        assert(up.last() == '/');
    }
    lemma_walk_append(root + down, up, rest);
    lemma_walk_up(root + down, down.len());
    assert((root + down).take(root.len() as int) =~= root);
    lemma_split_concat(exec_root, rest, '/');
    lemma_walk_concat(start, segments(exec_root), segments(rest));
}

proof fn lemma_up_is_relative(count: nat)
    ensures
        !is_absolute(repeated("../"@, count)),
    decreases count,
{
    reveal_strlit("../");
    if count > 0 {
        lemma_up_is_relative((count - 1) as nat);
        let fewer = repeated("../"@, (count - 1) as nat);
        if fewer.len() > 0 {
            assert(repeated("../"@, count)[0] == fewer[0]);
        } else {
            assert(repeated("../"@, count)[0] == "../"@[0]);
        }
    }
}

/// A script never runs outside the execution root for what `rundir` says: where
/// a `rundir` is accepted and not empty, the directory lies in the execution
/// root or below it.
pub proof fn law_rundir_stays_below(
    host: Host,
    rundir: Seq<char>,
    exec_root: Seq<char>,
    manifest_dir: Seq<char>,
    quoted: Seq<char>,
)
    requires
        host.is_unix(),
        rundir.len() > 0,
        run_directory(host, rundir, exec_root, manifest_dir, quoted) is Ok,
    ensures
        place(exec_root).is_prefix_of(
            place(run_directory(host, rundir, exec_root, manifest_dir, quoted)->Ok_0),
        ),
{
    lemma_walk_joined(Seq::empty(), exec_root, rundir);
    lemma_walk_down(place(exec_root), segments(rundir));
}

/// Without a step up, a walk ends where it started or below.
proof fn lemma_walk_down(from: Seq<Seq<char>>, steps: Seq<Seq<char>>)
    requires
        !steps.contains(".."@),
    ensures
        from.is_prefix_of(walk(from, steps)),
    decreases steps.len(),
{
    if steps.len() > 0 {
        let rest = steps.drop_last();
        assert forall|x: Seq<char>| rest.contains(x) implies steps.contains(x) by {
            let i = choose|i: int| 0 <= i < rest.len() && rest[i] == x;
            assert(steps[i] == x);
        }
        lemma_walk_down(from, rest);
        assert(steps[steps.len() - 1] != ".."@);
        let before = walk(from, rest);
        let after = walk(from, steps);
        assert(after.subrange(0, from.len() as int) =~= before.subrange(0, from.len() as int));
    } else {
        assert(from =~= from.subrange(0, from.len() as int));
    }
}

/// A path is absolute exactly where it starts with `/`.
pub proof fn law_absolute_paths_start_with_slash(host: &Host, path: &str, r: bool)
    requires
        host.is_unix(),
        call_ensures(is_absolute_path, (host, path), r),
    ensures
        r <==> path@.len() > 0 && path@[0] == '/',
{
}

/// An absolute path is seen from anywhere as it is; any other stands behind the
/// base, with one `/` in between where the base is not empty and does not end
/// in one.
pub proof fn law_joined_path(host: &Host, base: &str, path: &str, r: String)
    requires
        host.is_unix(),
        call_ensures(join_path, (host, base, path), r),
    ensures
        path@.len() > 0 && path@[0] == '/' ==> r@ == path@,
        !(path@.len() > 0 && path@[0] == '/') && base@.len() == 0 ==> r@ == path@,
        !(path@.len() > 0 && path@[0] == '/') && base@.len() > 0 && base@.last() == '/' ==> r@
            == base@ + path@,
        !(path@.len() > 0 && path@[0] == '/') && base@.len() > 0 && base@.last() != '/' ==> r@
            == base@ + seq!['/'] + path@,
{
    if base@.len() == 0 {
        assert(base@ + path@ =~= path@);
    }
}

/// To join in two steps is the same whichever step comes first.
pub proof fn law_join_in_any_order(a: Seq<char>, b: Seq<char>, c: Seq<char>)
    ensures
        joined(joined(a, b), c) == joined(a, joined(b, c)),
{
    if !is_absolute(c) {
        let left = joined(joined(a, b), c);
        let right = joined(a, joined(b, c));
        if b.len() == 0 {
            assert(b + c =~= c);
            assert(left =~= right);
        } else if is_absolute(b) {
            assert(joined(b, c)[0] == '/');
        } else {
            assert(joined(b, c)[0] == b[0]);
            assert(joined(a, b).last() == b.last());
            assert(left =~= right);
        }
    }
}

/// A piece stands between two separators, with one more put at either end.
proof fn lemma_piece_is_between(s: Seq<char>, separator: char, piece: Seq<char>) -> (r: (
    Seq<char>,
    Seq<char>,
))
    requires
        split(s, separator).contains(piece),
    ensures
        seq![separator] + s + seq![separator] == r.0 + (seq![separator] + piece + seq![separator])
            + r.1,
    decreases s.len(),
{
    let sep = seq![separator];
    let none = Seq::<char>::empty();
    let whole = sep + s + sep;
    let wanted = sep + piece + sep;
    lemma_find(s, separator);
    let i = find(s, separator) as int;
    let pieces = split(s, separator);
    let k = choose|k: int| 0 <= k < pieces.len() && pieces[k] == piece;
    if i >= s.len() {
        assert(whole =~= none + wanted + none);
        (none, none)
    } else {
        let head = s.take(i);
        let tail = s.skip(i + 1);
        assert(s =~= head + sep + tail);
        if k == 0 {
            assert(whole =~= none + wanted + (tail + sep));
            (none, tail + sep)
        } else {
            assert(split(tail, separator)[k - 1] == piece);
            let (a, b) = lemma_piece_is_between(tail, separator, piece);
            assert(whole =~= (sep + head) + (sep + tail + sep));
            assert((sep + head) + (a + wanted + b) =~= (sep + head + a) + wanted + b);
            (sep + head + a, b)
        }
    }
}

/// What stands between two separators, with one more put at either end, and
/// holds none itself is a piece.
proof fn lemma_between_is_piece(
    s: Seq<char>,
    separator: char,
    piece: Seq<char>,
    a: Seq<char>,
    b: Seq<char>,
)
    requires
        !piece.contains(separator),
        seq![separator] + s + seq![separator] == a + (seq![separator] + piece + seq![separator]) + b,
    ensures
        split(s, separator).contains(piece),
{
    let sep = seq![separator];
    let none = Seq::<char>::empty();
    let whole = sep + s + sep;
    law_split(piece, separator, none);
    assert(s =~= whole.subrange(1, whole.len() - 1));
    let after = if b.len() == 0 { none } else { b.drop_last() };
    let tail = if b.len() == 0 { piece } else { piece + sep + after };
    if b.len() > 0 {
        assert(whole.last() == b.last());
        assert(b =~= after + sep);
    }
    lemma_split_concat(piece, after, separator);
    assert(split(tail, separator)[0] == piece);
    assert(sep + piece + sep + b =~= sep + tail + sep);
    assert(whole =~= a + (sep + tail + sep));
    if a.len() == 0 {
        assert(s =~= tail);
        assert(split(s, separator)[0] == piece);
    } else {
        let before = a.skip(1);
        assert(whole[0] == a[0]);
        assert(a =~= sep + before);
        assert(s =~= before + sep + tail);
        lemma_split_concat(before, tail, separator);
        assert(split(s, separator)[split(before, separator).len() as int] == piece);
    }
}

/// Two dots stand by themselves between `/`, the ends of the path counting as
/// such.
pub open spec fn holds_parent(path: Seq<char>) -> bool {
    exists|a: Seq<char>, b: Seq<char>|
        seq!['/'] + path + seq!['/'] == #[trigger] (a + "/../"@ + b)
}

proof fn lemma_climbs(path: Seq<char>)
    ensures
        climbs(path) <==> holds_parent(path),
{
    reveal_strlit("..");
    reveal_strlit("/../");
    assert("/../"@ =~= seq!['/'] + ".."@ + seq!['/']);
    assert(".."@ =~= seq!['.', '.']);
    if climbs(path) {
        let (a, b) = lemma_piece_is_between(path, '/', ".."@);
        assert(seq!['/'] + path + seq!['/'] == a + "/../"@ + b);
    }
    if holds_parent(path) {
        let (a, b) = choose|a: Seq<char>, b: Seq<char>|
            seq!['/'] + path + seq!['/'] == #[trigger] (a + "/../"@ + b);
        lemma_between_is_piece(path, '/', ".."@, a, b);
    }
}

/// A path leads upwards somewhere exactly where two dots stand by themselves
/// between `/`, the ends of the path counting as such.
pub proof fn law_parent_segments(host: &Host, path: &str, r: bool)
    requires
        host.is_unix(),
        call_ensures(has_parent_segment, (host, path), r),
    ensures
        r <==> holds_parent(path@),
{
    lemma_climbs(path@);
}

/// What one more segment does to the segments of a path.
proof fn lemma_one_more_segment(path: Seq<char>, name: Seq<char>)
    requires
        !name.contains('/'),
    ensures
        segments(path + seq!['/'] + name) == segments(path).push(name),
        segments(name) == seq![name],
{
    law_split(name, '/', name);
    lemma_split_concat(path, name, '/');
    assert(segments(path) + seq![name] =~= segments(path).push(name));
}

/// The last segment of a path is its file's name, where it is a name.
pub proof fn law_file_name(host: &Host, path: &str, dir: Seq<char>, name: Seq<char>, r: Option<String>)
    requires
        host.is_unix(),
        call_ensures(path_file_name, (host, path), r),
        path@ == name || path@ == dir + seq!['/'] + name,
        !name.contains('/'),
    ensures
        name.len() > 0 && name != "."@ && name != ".."@ ==> r is Some && r->0@ == name,
        name == ".."@ ==> r is None,
        path@ == name && (name.len() == 0 || name == "."@) ==> r is None,
{
    reveal_with_fuel(last_busy, 2);
    reveal_strlit(".");
    reveal_strlit("..");
    assert("."@.len() == 1 && ".."@.len() == 2);
    lemma_one_more_segment(dir, name);
    assert(segments(dir).push(name).last() == name);
    assert(seq![name].drop_last() =~= Seq::empty());
    assert(opt_text(r) == file_name(path@));
}

/// A `/` at the end, with or without a dot behind it, does not change the name
/// that a path leads to.
pub proof fn law_file_name_of_directory(
    host: &Host,
    path: &str,
    longer: &str,
    r: Option<String>,
    then: Option<String>,
)
    requires
        host.is_unix(),
        call_ensures(path_file_name, (host, path), r),
        call_ensures(path_file_name, (host, longer), then),
        longer@ == path@ + seq!['/'] || longer@ == path@ + seq!['/', '.'],
    ensures
        opt_text(then) == opt_text(r),
{
    reveal_strlit(".");
    let none = Seq::<char>::empty();
    assert("."@ =~= seq!['.']);
    let name = if longer@ == path@ + seq!['/'] { none } else { "."@ };
    assert(longer@ =~= path@ + seq!['/'] + name);
    lemma_one_more_segment(path@, name);
    assert(segments(path@).push(name).drop_last() =~= segments(path@));
}

/// The directory that a script runs in: the package's own where `rundir` is
/// empty, else `rundir` below the execution root. A `rundir` that starts with
/// `/`, or that leads upwards somewhere, is refused, and nothing else is.
pub proof fn law_run_directory(
    host: &Host,
    rundir: &str,
    exec_root: &str,
    manifest_dir: &str,
    quoted: &str,
    r: Result<String, String>,
)
    requires
        host.is_unix(),
        call_ensures(resolve_rundir_quoted, (host, rundir, exec_root, manifest_dir, quoted), r),
    ensures
        rundir@.len() == 0 ==> r is Ok && r->Ok_0@ == manifest_dir@,
        rundir@.len() > 0 && rundir@[0] == '/' ==> r is Err && r->Err_0@
            == "rundir must be empty (to run in manifest path) or relative path (relative to exec root), but was "@
            + quoted@,
        rundir@.len() > 0 && rundir@[0] != '/' && holds_parent(rundir@) ==> r is Err && r->Err_0@
            == "rundir must not contain .. but was "@ + quoted@,
        rundir@.len() > 0 && rundir@[0] != '/' && !holds_parent(rundir@) ==> r is Ok && r->Ok_0@ == (
        if exec_root@.len() == 0 || exec_root@.last() == '/' {
            exec_root@ + rundir@
        } else {
            exec_root@ + seq!['/'] + rundir@
        }),
{
    lemma_climbs(rundir@);
    assert(result_text(r) == run_directory(*host, rundir@, exec_root@, manifest_dir@, quoted@));
}

/// Messages show `rundir` in its debug form, on every host.
pub proof fn law_rundir_is_shown_quoted(
    host: &Host,
    rundir: &str,
    exec_root: &str,
    manifest_dir: &str,
    quoted: &str,
    r: Result<String, String>,
    with_quoted: Result<String, String>,
)
    requires
        call_ensures(resolve_rundir, (host, rundir, exec_root, manifest_dir), r),
        call_ensures(
            resolve_rundir_quoted,
            (host, rundir, exec_root, manifest_dir, quoted),
            with_quoted,
        ),
        quoted@ == debug_form(rundir@),
    ensures
        r is Ok <==> with_quoted is Ok,
        r is Ok ==> r->Ok_0@ == with_quoted->Ok_0@,
        r is Err ==> r->Err_0@ == with_quoted->Err_0@,
{
    assert(result_text(r) == result_text(with_quoted));
}

/// Segments that are not empty come from the segments.
proof fn lemma_nonempty_members(steps: Seq<Seq<char>>)
    ensures
        forall|i: int|
            0 <= i < nonempty(steps).len() ==> steps.contains(#[trigger] nonempty(steps)[i])
                && nonempty(steps)[i].len() > 0,
    decreases steps.len(),
{
    if steps.len() > 0 {
        let rest = steps.drop_last();
        lemma_nonempty_members(rest);
        assert forall|i: int| 0 <= i < nonempty(steps).len() implies steps.contains(
            #[trigger] nonempty(steps)[i],
        ) && nonempty(steps)[i].len() > 0 by {
            if i < nonempty(rest).len() {
                let x = nonempty(rest)[i];
                assert(rest.contains(x));
                let k = choose|k: int| 0 <= k < rest.len() && rest[k] == x;
                assert(steps[k] == x);
            } else {
                assert(steps[steps.len() - 1] == nonempty(steps)[i]);
            }
        }
    }
}

/// Segments that lead somewhere come from the segments.
proof fn lemma_busy_members(steps: Seq<Seq<char>>)
    ensures
        forall|i: int|
            0 <= i < busy(steps).len() ==> steps.contains(#[trigger] busy(steps)[i]) && !is_idle(
                busy(steps)[i],
            ),
    decreases steps.len(),
{
    if steps.len() > 0 {
        let rest = steps.drop_last();
        lemma_busy_members(rest);
        assert forall|i: int| 0 <= i < busy(steps).len() implies steps.contains(
            #[trigger] busy(steps)[i],
        ) && !is_idle(busy(steps)[i]) by {
            if i < busy(rest).len() {
                let x = busy(rest)[i];
                assert(rest.contains(x));
                let k = choose|k: int| 0 <= k < rest.len() && rest[k] == x;
                assert(steps[k] == x);
            } else {
                assert(steps[steps.len() - 1] == busy(steps)[i]);
            }
        }
    }
}

/// Every segment of the path is empty or a name: none is `.` or `..`.
pub open spec fn has_only_names(path: Seq<char>) -> bool {
    !segments(path).contains("."@) && !segments(path).contains(".."@)
}

proof fn lemma_only_names(path: Seq<char>)
    requires
        has_only_names(path),
    ensures
        only_names(nonempty(segments(path))),
{
    let steps = nonempty(segments(path));
    lemma_nonempty_members(segments(path));
    assert forall|i: int| 0 <= i < steps.len() implies !is_idle(#[trigger] steps[i]) && steps[i]
        != ".."@ by {
        assert(segments(path).contains(steps[i]));
    }
}

/// The way up from a directory that does not start with `/`, on every host:
/// none from the empty path, one `../` for a segment by itself, one more for
/// each segment more, and none for a `/` at the end.
pub proof fn law_way_up_counts_segments(
    host: &Host,
    dir: &str,
    longer: &str,
    exec_root: &str,
    name: Seq<char>,
    r: String,
    then: String,
)
    requires
        call_ensures(up_prefix, (host, dir, exec_root), r),
        call_ensures(up_prefix, (host, longer, exec_root), then),
        dir@.len() > 0 ==> dir@[0] != '/',
        !name.contains('/'),
        name.len() > 0,
    ensures
        dir@.len() == 0 ==> r@ == Seq::<char>::empty(),
        dir@ == name ==> r@ == seq!['.', '.', '/'],
        dir@.len() > 0 && longer@ == dir@ + seq!['/'] + name ==> then@ == r@ + seq!['.', '.', '/'],
        dir@.len() > 0 && longer@ == dir@ + seq!['/'] ==> then@ == r@,
{
    reveal_strlit("../");
    let up = "../"@;
    let none = Seq::<char>::empty();
    assert(up =~= seq!['.', '.', '/']);
    reveal_with_fuel(nonempty, 2);
    lemma_one_more_segment(dir@, name);
    lemma_one_more_segment(dir@, none);
    assert(dir@ + seq!['/'] + none =~= dir@ + seq!['/']);
    let segs = segments(dir@);
    assert(segs.push(name).drop_last() =~= segs);
    assert(segs.push(none).drop_last() =~= segs);
    let count = nonempty(segs).len();
    law_repeated(up, count, 1);
    law_repeated(up, 0, 0);
    assert(seq![name].drop_last() =~= Seq::empty());
    assert(seq![none].drop_last() =~= Seq::empty());
    if dir@.len() == 0 {
        assert(dir@ =~= none);
        assert(nonempty(segs).len() == 0);
    }
    if dir@ == name {
        assert(nonempty(segs) =~= seq![name]);
    }
}

/// The way up has one `../` for each level of the depth, and there is none
/// where there is no depth. A directory that does not start with `/` always has
/// one.
pub proof fn law_way_up_is_the_depth(
    host: &Host,
    dir: &str,
    exec_root: &str,
    r: String,
    depth: Option<usize>,
)
    requires
        call_ensures(up_prefix, (host, dir, exec_root), r),
        call_ensures(depth_below_exec_root, (host, dir, exec_root), depth),
    ensures
        r@.len() == (match depth {
            Some(n) => 3 * n,
            None => 0,
        }),
        !(dir@.len() > 0 && dir@[0] == '/') ==> depth is Some,
        r@ == (match depth {
            Some(n) => repeated(seq!['.', '.', '/'], n as nat),
            None => Seq::empty(),
        }),
{
    reveal_strlit("../");
    assert("../"@ =~= seq!['.', '.', '/']);
    if depth is Some {
        lemma_repeated_len("../"@, depth->0 as nat);
    }
}

proof fn lemma_repeated_len(part: Seq<char>, count: nat)
    ensures
        repeated(part, count).len() == part.len() * count,
    decreases count,
{
    if count > 0 {
        lemma_repeated_len(part, (count - 1) as nat);
        assert(part.len() * (count - 1) + part.len() == part.len() * count) by (nonlinear_arith);
    } else {
        assert(part.len() * count == 0) by (nonlinear_arith)
            requires
                count == 0,
        ;
    }
}

/// From every package whose directory does not start with `/` and is reached
/// by names alone, what stands for the execution root leads back to it; and a
/// path into the execution root, once that stands for its start, leads from the
/// package to where it led before. The one exception is a package in the
/// execution root itself, where nothing is left in front of a rest that starts
/// with `/`.
pub proof fn law_redaction_keeps_paths(
    host: &Host,
    manifest_dir: &str,
    exec_root: &str,
    rest: Seq<char>,
    r: (String, String),
)
    requires
        host.is_unix(),
        call_ensures(redaction, (host, manifest_dir, exec_root), r),
        manifest_dir@.len() > 0 ==> manifest_dir@[0] != '/',
        has_only_names(manifest_dir@),
    ensures
        r.0@ == exec_root@ + seq!['/'],
        place(joined(joined(exec_root@, manifest_dir@), r.1@)) == place(exec_root@),
        !((r.1@ + rest).len() > 0 && (r.1@ + rest)[0] == '/') ==> place(
            joined(joined(exec_root@, manifest_dir@), r.1@ + rest),
        ) == place(r.0@ + rest),
{
    lemma_only_names(manifest_dir@);
    law_way_up_leads_back(*host, manifest_dir@, exec_root@);
    if !is_absolute(r.1@ + rest) {
        law_redacted_path_leads_to_the_same_place(*host, manifest_dir@, exec_root@, rest);
    }
}

/// The way up is what stands for the execution root.
pub proof fn law_redaction_is_the_way_up(
    host: &Host,
    manifest_dir: &str,
    exec_root: &str,
    r: (String, String),
    up: String,
)
    requires
        call_ensures(redaction, (host, manifest_dir, exec_root), r),
        call_ensures(up_prefix, (host, manifest_dir, exec_root), up),
    ensures
        r.0@ == exec_root@ + seq!['/'],
        r.1@ == up@,
{
}

/// Without a `.`, what follows a prefix is what stands behind it.
proof fn lemma_stripped(steps: Seq<Seq<char>>, prefix: Seq<Seq<char>>)
    requires
        forall|i: int| 0 <= i < steps.len() ==> #[trigger] steps[i] != "."@,
    ensures
        stripped(steps, prefix) == (if prefix.is_prefix_of(steps) {
            Some(steps.skip(prefix.len() as int))
        } else {
            None
        }),
    decreases steps.len(),
{
    if prefix.len() == 0 {
        assert(prefix =~= steps.subrange(0, 0));
        assert(steps.skip(0) =~= steps);
    } else if steps.len() > 0 {
        let rest = steps.skip(1);
        let fewer = prefix.skip(1);
        assert(steps[0] != "."@);
        if prefix.is_prefix_of(steps) {
            assert(steps.subrange(0, prefix.len() as int)[0] == steps[0]);
            assert(rest.subrange(0, fewer.len() as int) =~= fewer);
        }
        assert forall|i: int| 0 <= i < rest.len() implies #[trigger] rest[i] != "."@ by {
            assert(rest[i] == steps[i + 1]);
        }
        lemma_stripped(rest, fewer);
        if steps[0] == prefix[0] && fewer.is_prefix_of(rest) {
            assert(prefix =~= seq![prefix[0]] + fewer);
            assert(steps.subrange(0, prefix.len() as int) =~= seq![steps[0]] + rest.subrange(
                0,
                fewer.len() as int,
            ));
            assert(rest.skip(fewer.len() as int) =~= steps.skip(prefix.len() as int));
        }
    }
}

/// On a Unix host, from a directory that starts with `/`: as many levels as it
/// lies below the execution root, and none where it lies elsewhere.
pub proof fn law_way_up_from_absolute_directory(
    host: &Host,
    dir: &str,
    exec_root: &str,
    r: String,
)
    requires
        host.is_unix(),
        call_ensures(up_prefix, (host, dir, exec_root), r),
        is_absolute(dir@),
        has_only_names(dir@),
        !segments(exec_root@).contains(".."@),
    ensures
        is_absolute(exec_root@) && place(exec_root@).is_prefix_of(place(dir@)) ==> r@ == repeated(
            seq!['.', '.', '/'],
            (place(dir@).len() - place(exec_root@).len()) as nat,
        ),
        !(is_absolute(exec_root@) && place(exec_root@).is_prefix_of(place(dir@))) ==> r@ == Seq::<
            char,
        >::empty(),
{
    reveal_strlit("../");
    assert("../"@ =~= seq!['.', '.', '/']);
    let start = Seq::<Seq<char>>::empty();
    let down = nonempty(segments(dir@));
    let prefix = busy(segments(exec_root@));
    lemma_only_names(dir@);
    lemma_walk_nonempty(start, segments(dir@));
    lemma_walk_names(start, down);
    assert(start + down =~= down);
    lemma_busy_members(segments(exec_root@));
    assert forall|i: int| 0 <= i < prefix.len() implies !is_idle(#[trigger] prefix[i]) && prefix[i]
        != ".."@ by {
        assert(segments(exec_root@).contains(prefix[i]));
    }
    lemma_walk_busy(start, segments(exec_root@));
    lemma_walk_names(start, prefix);
    assert(start + prefix =~= prefix);
    assert forall|i: int| 0 <= i < down.len() implies #[trigger] down[i] != "."@ by {
        assert(!is_idle(down[i]));
    }
    lemma_stripped(down, prefix);
    if prefix.is_prefix_of(down) {
        let rest = down.skip(prefix.len() as int);
        if rest.len() > 0 {
            assert(rest[0] == down[prefix.len() as int]);
            assert(rest.last() == down[down.len() - 1]);
        }
        assert(without_leading_dots(rest) == rest);
        assert(without_trailing_dots(rest) == rest);
    }
}

/// On a host that is not Unix, paths are what the standard library makes of
/// them.
pub proof fn law_other_hosts(
    host: &Host,
    base: &str,
    path: &str,
    absolute: bool,
    joint: String,
    climbing: bool,
    name: Option<String>,
)
    requires
        !host.is_unix(),
        call_ensures(is_absolute_path, (host, path), absolute),
        call_ensures(join_path, (host, base, path), joint),
        call_ensures(has_parent_segment, (host, path), climbing),
        call_ensures(path_file_name, (host, path), name),
    ensures
        absolute == native_absolute(host.separator(), host.slash(), host.backslash(), path@),
        joint@ == native_joined(host.separator(), host.slash(), host.backslash(), base@, path@),
        climbing == native_parts(host.separator(), host.slash(), host.backslash(), path@).contains(
            seq!['.', '.'],
        ),
        opt_text(name) == native_name(host.separator(), host.slash(), host.backslash(), path@),
{
    reveal_strlit("..");
    assert(".."@ =~= seq!['.', '.']);
}

/// The paths of a host are those of Unix where it writes `/`, reads `/` and
/// does not read `\`.
pub proof fn law_unix_hosts(host: &Host, r: bool)
    requires
        call_ensures(Host::has_unix_paths, (host,), r),
    ensures
        r <==> host.is_unix(),
        r <==> host.separator() == '/' && host.slash() && !host.backslash(),
{
}

/// The directory that a script runs in, on every host, by what the host says of
/// `rundir`.
pub proof fn law_run_directory_on_any_host(
    host: &Host,
    rundir: &str,
    exec_root: &str,
    manifest_dir: &str,
    quoted: &str,
    absolute: bool,
    climbing: bool,
    below: String,
    r: Result<String, String>,
)
    requires
        call_ensures(is_absolute_path, (host, rundir), absolute),
        call_ensures(has_parent_segment, (host, rundir), climbing),
        call_ensures(join_path, (host, exec_root, rundir), below),
        call_ensures(resolve_rundir_quoted, (host, rundir, exec_root, manifest_dir, quoted), r),
    ensures
        rundir@.len() == 0 ==> r is Ok && r->Ok_0@ == manifest_dir@,
        rundir@.len() > 0 ==> (r is Ok <==> !absolute && !climbing),
        rundir@.len() > 0 && r is Ok ==> r->Ok_0@ == below@,
        rundir@.len() > 0 && absolute ==> r->Err_0@
            == "rundir must be empty (to run in manifest path) or relative path (relative to exec root), but was "@
            + quoted@,
        rundir@.len() > 0 && !absolute && climbing ==> r->Err_0@
            == "rundir must not contain .. but was "@ + quoted@,
{
    assert(result_text(r) == run_directory(*host, rundir@, exec_root@, manifest_dir@, quoted@));
}

/// On a host that is not Unix, the way up from a directory that starts with `/`
/// is that from what is left of it without the execution root, as the host
/// says, and none where nothing is.
pub proof fn law_way_up_on_other_hosts(
    host: &Host,
    dir: &str,
    exec_root: &str,
    package: String,
    rest: &str,
    r: String,
    of_rest: String,
)
    requires
        !host.is_unix(),
        call_ensures(join_path, (host, exec_root, dir), package),
        call_ensures(up_prefix, (host, dir, exec_root), r),
        call_ensures(up_prefix, (host, rest, exec_root), of_rest),
        dir@.len() > 0,
        dir@[0] == '/',
        rest@.len() > 0 ==> rest@[0] != '/',
    ensures
        native_rest(host.separator(), host.slash(), host.backslash(), package@, exec_root@) == Some(
            rest@,
        ) ==> r@ == of_rest@,
        native_rest(host.separator(), host.slash(), host.backslash(), package@, exec_root@) is None
            ==> r@ == Seq::<char>::empty(),
{
}

proof fn lemma_nonempty_concat(a: Seq<Seq<char>>, b: Seq<Seq<char>>)
    ensures
        nonempty(a + b) == nonempty(a) + nonempty(b),
    decreases b.len(),
{
    if b.len() == 0 {
        assert(a + b =~= a);
        assert(nonempty(a) + nonempty(b) =~= nonempty(a));
    } else {
        assert((a + b).drop_last() =~= a + b.drop_last());
        lemma_nonempty_concat(a, b.drop_last());
        assert(nonempty(a + b) =~= nonempty(a) + nonempty(b));
    }
}

proof fn lemma_busy_concat(a: Seq<Seq<char>>, b: Seq<Seq<char>>)
    ensures
        busy(a + b) == busy(a) + busy(b),
    decreases b.len(),
{
    if b.len() == 0 {
        assert(a + b =~= a);
        assert(busy(a) + busy(b) =~= busy(a));
    } else {
        assert((a + b).drop_last() =~= a + b.drop_last());
        lemma_busy_concat(a, b.drop_last());
        assert(busy(a + b) =~= busy(a) + busy(b));
    }
}

/// The first of the segments that lead somewhere.
proof fn lemma_busy_first(steps: Seq<Seq<char>>)
    requires
        steps.len() > 0,
    ensures
        is_idle(steps[0]) ==> busy(steps) == busy(steps.skip(1)),
        !is_idle(steps[0]) ==> busy(steps).len() > 0 && busy(steps)[0] == steps[0] && busy(
            steps,
        ).skip(1) == busy(steps.skip(1)),
{
    reveal_with_fuel(busy, 2);
    let first = seq![steps[0]];
    assert(steps =~= first + steps.skip(1));
    lemma_busy_concat(first, steps.skip(1));
    assert(first.drop_last() =~= Seq::empty());
    if is_idle(steps[0]) {
        assert(busy(first) =~= Seq::empty());
        assert(busy(steps) =~= busy(steps.skip(1)));
    } else {
        assert(busy(first) =~= first);
        assert(busy(steps).skip(1) =~= busy(steps.skip(1)));
    }
}

proof fn lemma_busy_of_nonempty(steps: Seq<Seq<char>>)
    ensures
        busy(nonempty(steps)) == busy(steps),
    decreases steps.len(),
{
    if steps.len() > 0 {
        lemma_busy_of_nonempty(steps.drop_last());
        if steps.last().len() > 0 {
            assert(nonempty(steps).drop_last() =~= nonempty(steps.drop_last()));
        }
    }
}

/// What follows a list of segments is left when they are stripped by those of
/// them that lead somewhere.
proof fn lemma_strip_own_prefix(own: Seq<Seq<char>>, rest: Seq<Seq<char>>)
    requires
        forall|i: int| 0 <= i < own.len() ==> (#[trigger] own[i]).len() > 0,
        rest.len() > 0 ==> rest[0] != "."@,
    ensures
        stripped(own + rest, busy(own)) is Some,
        without_leading_dots(stripped(own + rest, busy(own))->0) == rest,
    decreases own.len(),
{
    let all = own + rest;
    if own.len() == 0 {
        assert(all =~= rest);
    } else {
        let fewer = own.skip(1);
        lemma_busy_first(own);
        assert(all[0] == own[0]);
        assert(all.skip(1) =~= fewer + rest);
        assert forall|i: int| 0 <= i < fewer.len() implies (#[trigger] fewer[i]).len() > 0 by {
            assert(fewer[i] == own[i + 1]);
        }
        lemma_strip_own_prefix(fewer, rest);
        assert(own[0].len() > 0);
    }
}

/// One more `.` at the end is one more `.` at the end of what is left.
proof fn lemma_strip_trailing_dot(steps: Seq<Seq<char>>, prefix: Seq<Seq<char>>)
    ensures
        stripped(steps.push("."@), prefix) == (match stripped(steps, prefix) {
            Some(rest) => Some(rest.push("."@)),
            None => None,
        }),
    decreases steps.len(),
{
    reveal_with_fuel(stripped, 2);
    let more = steps.push("."@);
    if prefix.len() > 0 {
        if steps.len() == 0 {
            assert(more.skip(1) =~= Seq::empty());
        } else {
            assert(more.skip(1) =~= steps.skip(1).push("."@));
            lemma_strip_trailing_dot(steps.skip(1), prefix);
            lemma_strip_trailing_dot(steps.skip(1), prefix.skip(1));
        }
    }
}

proof fn lemma_trim_trailing_dot(steps: Seq<Seq<char>>)
    ensures
        without_trailing_dots(without_leading_dots(steps.push("."@))) == without_trailing_dots(
            without_leading_dots(steps),
        ),
    decreases steps.len(),
{
    reveal_with_fuel(without_leading_dots, 2);
    reveal_with_fuel(without_trailing_dots, 2);
    let more = steps.push("."@);
    if steps.len() == 0 {
        assert(more.skip(1) =~= Seq::empty());
        assert(steps =~= Seq::empty());
    } else if steps[0] == "."@ {
        assert(more.skip(1) =~= steps.skip(1).push("."@));
        lemma_trim_trailing_dot(steps.skip(1));
    } else {
        assert(more.drop_last() =~= steps);
    }
}

/// On a Unix host, a directory below an execution root that starts with `/` has
/// the same way up whether it is given from there or from the root, and a `/`
/// at its end, with or without a dot behind it, changes nothing for one that is
/// given from the root.
pub proof fn law_way_up_however_given(
    host: &Host,
    exec_root: &str,
    dir: &str,
    whole: &str,
    longer: &str,
    r: String,
    of_whole: String,
    of_longer: String,
)
    requires
        host.is_unix(),
        call_ensures(up_prefix, (host, dir, exec_root), r),
        call_ensures(up_prefix, (host, whole, exec_root), of_whole),
        call_ensures(up_prefix, (host, longer, exec_root), of_longer),
        exec_root@.len() > 0,
        exec_root@[0] == '/',
        whole@.len() > 0,
        whole@[0] == '/',
    ensures
        whole@ == exec_root@ + seq!['/'] + dir@ && !(dir@.len() > 0 && dir@[0] == '/') && !segments(
            dir@,
        ).contains("."@) ==> of_whole@ == r@,
        longer@ == whole@ + seq!['/'] ==> of_longer@ == of_whole@,
        longer@ == whole@ + seq!['/', '.'] ==> of_longer@ == of_whole@,
{
    reveal_strlit(".");
    let none = Seq::<char>::empty();
    let own = nonempty(segments(exec_root@));
    let prefix = busy(segments(exec_root@));
    let steps = nonempty(segments(whole@));
    if whole@ == exec_root@ + seq!['/'] + dir@ && !(dir@.len() > 0 && dir@[0] == '/') && !segments(
        dir@,
    ).contains("."@) {
        let rest = nonempty(segments(dir@));
        lemma_split_concat(exec_root@, dir@, '/');
        lemma_nonempty_concat(segments(exec_root@), segments(dir@));
        lemma_nonempty_members(segments(exec_root@));
        lemma_nonempty_members(segments(dir@));
        lemma_busy_of_nonempty(segments(exec_root@));
        if rest.len() > 0 {
            assert(segments(dir@).contains(rest[0]));
            assert(segments(dir@).contains(rest[rest.len() - 1]));
        }
        lemma_strip_own_prefix(own, rest);
        assert(without_trailing_dots(rest) == rest);
    }
    lemma_one_more_segment(whole@, none);
    assert(whole@ + seq!['/'] + none =~= whole@ + seq!['/']);
    assert(segments(whole@).push(none).drop_last() =~= segments(whole@));
    assert("."@ =~= seq!['.']);
    lemma_one_more_segment(whole@, "."@);
    assert(whole@ + seq!['/'] + "."@ =~= whole@ + seq!['/', '.']);
    assert(segments(whole@).push("."@).drop_last() =~= segments(whole@));
    lemma_strip_trailing_dot(steps, prefix);
    if let Some(rest) = stripped(steps, prefix) {
        lemma_trim_trailing_dot(rest);
    }
}

} // verus!
