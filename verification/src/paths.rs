//! Paths as text: joining, the directory a script runs in, and the way back
//! from a package to the execution root.
//!
//! What holds on a Unix host, with `/` between segments, is stated in full. On
//! any other host the answers are those of `std::path`; see `host`.

use vstd::prelude::*;

use crate::host::{native_components, native_file_name, native_is_absolute, native_join, native_strip_prefix, Host};
use crate::text::{chars_of, repeat_text, same_text, split_text};
#[allow(unused_imports)]
use crate::host::{native_absolute, native_joined, native_name, native_parts, native_rest};
#[allow(unused_imports)]
use crate::text::{opt_text, repeated, split, texts};

verus! {

/// The path starts at the root.
pub open spec fn is_absolute(path: Seq<char>) -> bool {
    path.len() > 0 && path[0] == '/'
}

/// The segments of a path, empty ones included.
pub open spec fn segments(path: Seq<char>) -> Seq<Seq<char>> {
    split(path, '/')
}

/// `path` as seen from `base`: an absolute path as it is, any other below
/// `base`.
pub open spec fn joined(base: Seq<char>, path: Seq<char>) -> Seq<char> {
    if is_absolute(path) {
        path
    } else if base.len() == 0 || base.last() == '/' {
        base + path
    } else {
        base + seq!['/'] + path
    }
}

/// A segment of the path leads to the parent directory.
pub open spec fn climbs(path: Seq<char>) -> bool {
    segments(path).contains(".."@)
}

/// A segment that leads nowhere.
pub open spec fn is_idle(segment: Seq<char>) -> bool {
    segment.len() == 0 || segment == "."@
}

/// The last of the segments that leads somewhere.
pub open spec fn last_busy(segments: Seq<Seq<char>>) -> Option<Seq<char>>
    decreases segments.len(),
{
    if segments.len() == 0 {
        None
    } else if is_idle(segments.last()) {
        last_busy(segments.drop_last())
    } else {
        Some(segments.last())
    }
}

/// The name of the file or directory that a path leads to, where its last
/// step is a name.
pub open spec fn file_name(path: Seq<char>) -> Option<Seq<char>> {
    match last_busy(segments(path)) {
        Some(name) if name != ".."@ => Some(name),
        _ => None,
    }
}

/// The path is absolute on the host.
pub open spec fn absolute_on(host: Host, path: Seq<char>) -> bool {
    if host.is_unix() {
        is_absolute(path)
    } else {
        native_absolute(host.separator(), host.slash(), host.backslash(), path)
    }
}

/// `path` as seen from `base` on the host.
pub open spec fn joined_on(host: Host, base: Seq<char>, path: Seq<char>) -> Seq<char> {
    if host.is_unix() {
        joined(base, path)
    } else {
        native_joined(host.separator(), host.slash(), host.backslash(), base, path)
    }
}

/// A segment of the path leads to the parent directory on the host.
pub open spec fn climbs_on(host: Host, path: Seq<char>) -> bool {
    if host.is_unix() {
        climbs(path)
    } else {
        native_parts(host.separator(), host.slash(), host.backslash(), path).contains(".."@)
    }
}

/// The name of the file or directory that a path leads to on the host.
pub open spec fn file_name_on(host: Host, path: Seq<char>) -> Option<Seq<char>> {
    if host.is_unix() {
        file_name(path)
    } else {
        native_name(host.separator(), host.slash(), host.backslash(), path)
    }
}

/// Whether a path starts with `/`.
fn starts_with_slash(path: &str) -> (r: bool)
    ensures
        r == is_absolute(path@),
{
    let chars = chars_of(path);
    chars.len() > 0 && chars[0] == '/'
}

/// Whether a path is absolute.
pub fn is_absolute_path(host: &Host, path: &str) -> (r: bool)
    ensures
        r == absolute_on(*host, path@),
{
    if host.has_unix_paths() {
        starts_with_slash(path)
    } else {
        native_is_absolute(host, path)
    }
}

/// `path` as seen from `base`.
pub fn join_path(host: &Host, base: &str, path: &str) -> (r: String)
    ensures
        r@ == joined_on(*host, base@, path@),
{
    if !host.has_unix_paths() {
        return native_join(host, base, path);
    }
    let mut out = String::new();
    if !starts_with_slash(path) {
        out.append(base);
        let chars = chars_of(base);
        if chars.len() > 0 && chars[chars.len() - 1] != '/' {
            out.push('/');
        }
    }
    out.append(path);
    assert(out@ =~= joined(base@, path@));
    out
}

/// Whether a segment of the path leads to the parent directory.
pub fn has_parent_segment(host: &Host, path: &str) -> (r: bool)
    ensures
        r == climbs_on(*host, path@),
{
    let all = if host.has_unix_paths() {
        split_text(path, '/')
    } else {
        native_components(host, path)
    };
    let ghost segs = texts(all@);
    assert(climbs_on(*host, path@) == segs.contains(".."@));
    let mut i: usize = 0;
    while i < all.len()
        invariant
            i <= all@.len(),
            segs == texts(all@),
            climbs_on(*host, path@) == segs.contains(".."@),
            forall|k: int| 0 <= k < i ==> segs[k] != ".."@,
        decreases all@.len() - i,
    {
        assert(segs[i as int] == all@[i as int]@);
        if same_text(all[i].as_str(), "..") {
            return true;
        }
        i = i + 1;
    }
    false
}

/// Whether a segment leads nowhere.
fn is_idle_segment(segment: &str) -> (r: bool)
    ensures
        r == is_idle(segment@),
{
    segment.is_empty() || same_text(segment, ".")
}

/// The name of the file or directory that a path leads to.
pub fn path_file_name(host: &Host, path: &str) -> (r: Option<String>)
    ensures
        opt_text(r) == file_name_on(*host, path@),
{
    if !host.has_unix_paths() {
        return native_file_name(host, path);
    }
    let all = split_text(path, '/');
    let ghost segs = segments(path@);
    let mut n: usize = all.len();
    assert(segs.take(n as int) =~= segs);
    while n > 0
        invariant
            n <= all@.len(),
            texts(all@) == segs,
            segs == segments(path@),
            host.is_unix(),
            last_busy(segs.take(n as int)) == last_busy(segs),
        decreases n,
    {
        assert(segs[n - 1] == all@[n - 1]@);
        assert(segs.take(n as int).drop_last() =~= segs.take(n - 1));
        if !is_idle_segment(all[n - 1].as_str()) {
            if same_text(all[n - 1].as_str(), "..") {
                return None;
            }
            return Some(all[n - 1].clone());
        }
        n = n - 1;
    }
    None
}

/// The text of a string in its debug form: in double quotes, escaped.
pub uninterp spec fn debug_form(s: Seq<char>) -> Seq<char>;

/// `format!` with `{:?}` on a string. The result is a function of the text
/// alone, which `debug_form` stands for.
#[verifier::external_body]
fn debug_text(s: &str) -> (r: String)
    ensures
        r@ == debug_form(s@),
{
    format!("{:?}", s)
}

/// The directory in which a script runs, or why `rundir` names none. `quoted`
/// is how messages show `rundir`.
pub open spec fn run_directory(
    host: Host,
    rundir: Seq<char>,
    exec_root: Seq<char>,
    manifest_dir: Seq<char>,
    quoted: Seq<char>,
) -> Result<Seq<char>, Seq<char>> {
    if rundir.len() == 0 {
        Ok(manifest_dir)
    } else if absolute_on(host, rundir) {
        Err(
            "rundir must be empty (to run in manifest path) or relative path (relative to exec root), but was "@
                + quoted,
        )
    } else if climbs_on(host, rundir) {
        Err("rundir must not contain .. but was "@ + quoted)
    } else {
        Ok(joined_on(host, exec_root, rundir))
    }
}

/// The texts of a result.
pub open spec fn result_text(r: Result<String, String>) -> Result<Seq<char>, Seq<char>> {
    match r {
        Ok(s) => Ok(s@),
        Err(s) => Err(s@),
    }
}

/// The directory in which a script runs, with messages that show `rundir` as
/// `quoted`.
pub fn resolve_rundir_quoted(
    host: &Host,
    rundir: &str,
    exec_root: &str,
    manifest_dir: &str,
    quoted: &str,
) -> (r: Result<String, String>)
    ensures
        result_text(r) == run_directory(*host, rundir@, exec_root@, manifest_dir@, quoted@),
{
    if rundir.is_empty() {
        return Ok(manifest_dir.to_owned());
    }
    let mut message = String::new();
    if is_absolute_path(host, rundir) {
        message.append(
            "rundir must be empty (to run in manifest path) or relative path (relative to exec root), but was ",
        );
        let ghost start = message@;
        message.append(quoted);
        assert(start
            =~= "rundir must be empty (to run in manifest path) or relative path (relative to exec root), but was "@);
        return Err(message);
    }
    if has_parent_segment(host, rundir) {
        message.append("rundir must not contain .. but was ");
        let ghost start = message@;
        message.append(quoted);
        assert(start =~= "rundir must not contain .. but was "@);
        return Err(message);
    }
    Ok(join_path(host, exec_root, rundir))
}

/// The directory in which a script runs: the package's own where `rundir` is
/// empty, else `rundir` below the execution root. An absolute `rundir`, or one
/// that leads upwards, is refused.
pub fn resolve_rundir(host: &Host, rundir: &str, exec_root: &str, manifest_dir: &str) -> (r: Result<
    String,
    String,
>)
    ensures
        result_text(r) == run_directory(
            *host,
            rundir@,
            exec_root@,
            manifest_dir@,
            debug_form(rundir@),
        ),
{
    let quoted = debug_text(rundir);
    resolve_rundir_quoted(host, rundir, exec_root, manifest_dir, quoted.as_str())
}

/// The segments that are not empty.
pub open spec fn nonempty(segments: Seq<Seq<char>>) -> Seq<Seq<char>>
    decreases segments.len(),
{
    if segments.len() == 0 {
        Seq::empty()
    } else {
        let earlier = nonempty(segments.drop_last());
        if segments.last().len() == 0 {
            earlier
        } else {
            earlier.push(segments.last())
        }
    }
}

/// The segments that lead somewhere.
pub open spec fn busy(segments: Seq<Seq<char>>) -> Seq<Seq<char>>
    decreases segments.len(),
{
    if segments.len() == 0 {
        Seq::empty()
    } else {
        let earlier = busy(segments.drop_last());
        if is_idle(segments.last()) {
            earlier
        } else {
            earlier.push(segments.last())
        }
    }
}

/// What follows `prefix` in `segments`, where `segments` starts with it but
/// for segments `.` in between.
pub open spec fn stripped(segments: Seq<Seq<char>>, prefix: Seq<Seq<char>>) -> Option<
    Seq<Seq<char>>,
>
    decreases segments.len(),
{
    if prefix.len() == 0 {
        Some(segments)
    } else if segments.len() == 0 {
        None
    } else if segments[0] == "."@ {
        stripped(segments.skip(1), prefix)
    } else if segments[0] == prefix[0] {
        stripped(segments.skip(1), prefix.skip(1))
    } else {
        None
    }
}

/// The segments from the first that is not `.`.
pub open spec fn without_leading_dots(segments: Seq<Seq<char>>) -> Seq<Seq<char>>
    decreases segments.len(),
{
    if segments.len() > 0 && segments[0] == "."@ {
        without_leading_dots(segments.skip(1))
    } else {
        segments
    }
}

/// The segments up to the last that is not `.`.
pub open spec fn without_trailing_dots(segments: Seq<Seq<char>>) -> Seq<Seq<char>>
    decreases segments.len(),
{
    if segments.len() > 0 && segments.last() == "."@ {
        without_trailing_dots(segments.drop_last())
    } else {
        segments
    }
}

/// On a Unix host, the segments that lead from the execution root down to an
/// absolute directory, where it starts with the execution root.
pub open spec fn stripped_exec_root(manifest_dir: Seq<char>, exec_root: Seq<char>) -> Option<
    Seq<Seq<char>>,
> {
    if !is_absolute(exec_root) {
        None
    } else {
        match stripped(nonempty(segments(manifest_dir)), busy(segments(exec_root))) {
            Some(rest) => Some(without_trailing_dots(without_leading_dots(rest))),
            None => None,
        }
    }
}

/// The segments that lead from the execution root down to the package's
/// directory. A directory that does not start with `/` is below the execution
/// root as it stands; any other only where it starts with the execution root.
pub open spec fn below_exec_root(
    host: Host,
    manifest_dir: Seq<char>,
    exec_root: Seq<char>,
) -> Option<Seq<Seq<char>>> {
    if !is_absolute(manifest_dir) {
        Some(nonempty(segments(manifest_dir)))
    } else if host.is_unix() {
        stripped_exec_root(manifest_dir, exec_root)
    } else {
        match native_rest(
            host.separator(),
            host.slash(),
            host.backslash(),
            joined_on(host, exec_root, manifest_dir),
            exec_root,
        ) {
            Some(rest) => Some(nonempty(segments(rest))),
            None => None,
        }
    }
}

/// The way from the package's directory up to the execution root: one `../`
/// for each segment between them, none where the package lies elsewhere.
pub open spec fn way_up(host: Host, manifest_dir: Seq<char>, exec_root: Seq<char>) -> Seq<char> {
    match below_exec_root(host, manifest_dir, exec_root) {
        Some(down) => repeated("../"@, down.len()),
        None => Seq::empty(),
    }
}

/// Keeps the segments that are not empty and, with `drop_dots` set, leaves out `.`
/// too.
fn keep_segments(path: &str, drop_dots: bool) -> (r: Vec<String>)
    ensures
        texts(r@) == (if drop_dots { busy(segments(path@)) } else { nonempty(segments(path@)) }),
{
    let all = split_text(path, '/');
    let ghost segs = segments(path@);
    let mut out: Vec<String> = Vec::new();
    let mut i: usize = 0;
    assert(segs.take(0) =~= Seq::empty());
    assert(texts(out@) =~= Seq::empty());
    while i < all.len()
        invariant
            i <= all@.len(),
            texts(all@) == segs,
            texts(out@) == (if drop_dots { busy(segs.take(i as int)) } else {
                nonempty(segs.take(i as int))
            }),
        decreases all@.len() - i,
    {
        let ghost so_far = texts(out@);
        let ghost upto = segs.take(i + 1);
        assert(upto.drop_last() =~= segs.take(i as int));
        assert(upto.last() == all@[i as int]@);
        if !(all[i].as_str().is_empty() || drop_dots && same_text(all[i].as_str(), ".")) {
            out.push(all[i].clone());
            assert(texts(out@) =~= so_far.push(all@[i as int]@));
        }
        i = i + 1;
    }
    assert(segs.take(i as int) =~= segs);
    out
}

/// How many segments lead from the execution root down to the package's
/// directory, or `None` where the package lies elsewhere.
pub fn depth_below_exec_root(host: &Host, manifest_dir: &str, exec_root: &str) -> (r: Option<usize>)
    ensures
        match below_exec_root(*host, manifest_dir@, exec_root@) {
            Some(down) => r is Some && r->0 == down.len(),
            None => r is None,
        },
{
    if !starts_with_slash(manifest_dir) {
        return Some(keep_segments(manifest_dir, false).len());
    }
    if host.has_unix_paths() {
        return stripped_depth(manifest_dir, exec_root);
    }
    let package = join_path(host, exec_root, manifest_dir);
    match native_strip_prefix(host, package.as_str(), exec_root) {
        Some(rest) => Some(keep_segments(rest.as_str(), false).len()),
        None => None,
    }
}

/// On a Unix host, how many segments lead from the execution root down to an
/// absolute directory.
fn stripped_depth(manifest_dir: &str, exec_root: &str) -> (r: Option<usize>)
    ensures
        match stripped_exec_root(manifest_dir@, exec_root@) {
            Some(down) => r is Some && r->0 == down.len(),
            None => r is None,
        },
{
    let down = keep_segments(manifest_dir, false);
    if !starts_with_slash(exec_root) {
        return None;
    }
    let prefix = keep_segments(exec_root, true);
    let ghost d = texts(down@);
    let ghost p = texts(prefix@);
    let mut i: usize = 0;
    let mut j: usize = 0;
    assert(d.skip(0) =~= d);
    assert(p.skip(0) =~= p);
    while j < prefix.len()
        invariant
            i <= down@.len(),
            j <= prefix@.len(),
            d == texts(down@),
            p == texts(prefix@),
            d == nonempty(segments(manifest_dir@)),
            p == busy(segments(exec_root@)),
            is_absolute(exec_root@),
            stripped(d, p) == stripped(d.skip(i as int), p.skip(j as int)),
        decreases down@.len() - i, prefix@.len() - j,
    {
        if i == down.len() {
            return None;
        }
        assert(d.skip(i as int)[0] == down@[i as int]@);
        assert(p.skip(j as int)[0] == prefix@[j as int]@);
        assert(d.skip(i as int).skip(1) =~= d.skip(i + 1));
        assert(p.skip(j as int).skip(1) =~= p.skip(j + 1));
        if same_text(down[i].as_str(), ".") {
            i = i + 1;
        } else if same_text(down[i].as_str(), prefix[j].as_str()) {
            i = i + 1;
            j = j + 1;
        } else {
            return None;
        }
    }
    let ghost rest = d.skip(i as int);
    assert(stripped(d, p) == Some(rest));
    let mut from: usize = i;
    while from < down.len() && same_text(down[from].as_str(), ".")
        invariant
            i <= from <= down@.len(),
            d == texts(down@),
            without_leading_dots(d.skip(from as int)) == without_leading_dots(rest),
        decreases down@.len() - from,
    {
        assert(d.skip(from as int)[0] == down@[from as int]@);
        assert(d.skip(from as int).skip(1) =~= d.skip(from + 1));
        from = from + 1;
    }
    proof {
        if from < down@.len() {
            assert(d.skip(from as int)[0] == down@[from as int]@);
        }
    }
    let ghost led = d.skip(from as int);
    assert(without_leading_dots(rest) == led);
    let mut to: usize = down.len();
    assert(led.take(to - from) =~= led);
    while to > from && same_text(down[to - 1].as_str(), ".")
        invariant
            from <= to <= down@.len(),
            d == texts(down@),
            led == d.skip(from as int),
            without_trailing_dots(led.take(to - from)) == without_trailing_dots(led),
        decreases to - from,
    {
        assert(led.take(to - from).last() == down@[to - 1]@);
        assert(led.take(to - from).drop_last() =~= led.take(to - 1 - from));
        to = to - 1;
    }
    proof {
        if to > from {
            assert(led.take(to - from).last() == down@[to - 1]@);
        }
        assert(without_trailing_dots(led) == led.take(to - from));
    }
    Some(to - from)
}

/// The way from the package's directory up to the execution root.
pub fn up_prefix(host: &Host, manifest_dir: &str, exec_root: &str) -> (r: String)
    ensures
        r@ == way_up(*host, manifest_dir@, exec_root@),
{
    match depth_below_exec_root(host, manifest_dir, exec_root) {
        Some(depth) => repeat_text("../", depth),
        None => String::new(),
    }
}

} // verus!
