//! The path syntax of the host.
//!
//! On a Unix host it is simple enough to be stated and proved in full, which
//! `paths` does. On any other host `std::path` decides, and what it answers is
//! a function of the host's syntax and of the texts alone.

use vstd::prelude::*;

#[allow(unused_imports)]
use crate::text::{opt_text, texts};

verus! {

/// The separators of the host's paths. `Host::here` is the only way to one, so
/// a value always describes the host that the program runs on.
#[derive(Clone, Copy)]
pub struct Host {
    separator: char,
    slash: bool,
    backslash: bool,
}

/// `std::path::MAIN_SEPARATOR`. It depends on the host, so nothing is said of
/// it.
#[verifier::external_body]
fn main_separator() -> (r: char) {
    std::path::MAIN_SEPARATOR
}

/// `std::path::is_separator`. It depends on the host, so nothing is said of
/// it.
#[verifier::external_body]
fn separates(c: char) -> (r: bool) {
    std::path::is_separator(c)
}

impl Host {
    /// The separator that the host puts between segments.
    pub closed spec fn separator(&self) -> char {
        self.separator
    }

    /// The host takes `/` for a separator.
    pub closed spec fn slash(&self) -> bool {
        self.slash
    }

    /// The host takes `\` for a separator.
    pub closed spec fn backslash(&self) -> bool {
        self.backslash
    }

    /// The host's paths are those of Unix: `/` separates segments, and nothing
    /// else does.
    pub open spec fn is_unix(&self) -> bool {
        self.separator() == '/' && self.slash() && !self.backslash()
    }

    /// The host that the program runs on. Which one that is, no clause says.
    pub fn here() -> (r: Host) {
        Host { separator: main_separator(), slash: separates('/'), backslash: separates('\\') }
    }

    /// Whether the host's paths are those of Unix.
    pub fn has_unix_paths(&self) -> (r: bool)
        ensures
            r == self.is_unix(),
    {
        self.separator == '/' && self.slash && !self.backslash
    }
}

/// What `Path::is_absolute` answers on a host with these separators.
pub uninterp spec fn native_absolute(
    separator: char,
    slash: bool,
    backslash: bool,
    path: Seq<char>,
) -> bool;

/// `Path::is_absolute`, on a host that is not Unix. The answer depends on the
/// host's syntax and the text alone; `native_absolute` stands for it.
#[verifier::external_body]
pub(crate) fn native_is_absolute(host: &Host, path: &str) -> (r: bool)
    requires
        !host.is_unix(),
    ensures
        r == native_absolute(host.separator(), host.slash(), host.backslash(), path@),
{
    std::path::Path::new(path).is_absolute()
}

/// The text of what `Path::join` gives on a host with these separators.
pub uninterp spec fn native_joined(
    separator: char,
    slash: bool,
    backslash: bool,
    base: Seq<char>,
    path: Seq<char>,
) -> Seq<char>;

/// `Path::join`, as text, on a host that is not Unix. The result depends on
/// the host's syntax and the two texts alone; `native_joined` stands for it.
#[verifier::external_body]
pub(crate) fn native_join(host: &Host, base: &str, path: &str) -> (r: String)
    requires
        !host.is_unix(),
    ensures
        r@ == native_joined(host.separator(), host.slash(), host.backslash(), base@, path@),
{
    std::path::Path::new(base).join(path).to_string_lossy().into_owned()
}

/// The texts of what `Path::components` yields on a host with these
/// separators.
pub uninterp spec fn native_parts(
    separator: char,
    slash: bool,
    backslash: bool,
    path: Seq<char>,
) -> Seq<Seq<char>>;

/// `Path::components`, each as its text, on a host that is not Unix. The
/// result depends on the host's syntax and the text alone; `native_parts`
/// stands for it.
#[verifier::external_body]
pub(crate) fn native_components(host: &Host, path: &str) -> (r: Vec<String>)
    requires
        !host.is_unix(),
    ensures
        texts(r@) == native_parts(host.separator(), host.slash(), host.backslash(), path@),
{
    let parts = std::path::Path::new(path).components();
    parts.map(|part| part.as_os_str().to_string_lossy().into_owned()).collect()
}

/// The text of what `Path::file_name` gives on a host with these separators.
pub uninterp spec fn native_name(
    separator: char,
    slash: bool,
    backslash: bool,
    path: Seq<char>,
) -> Option<Seq<char>>;

/// `Path::file_name`, as text, on a host that is not Unix. The result depends
/// on the host's syntax and the text alone; `native_name` stands for it.
#[verifier::external_body]
pub(crate) fn native_file_name(host: &Host, path: &str) -> (r: Option<String>)
    requires
        !host.is_unix(),
    ensures
        opt_text(r) == native_name(host.separator(), host.slash(), host.backslash(), path@),
{
    match std::path::Path::new(path).file_name() {
        Some(name) => Some(name.to_string_lossy().into_owned()),
        None => None,
    }
}

/// The text of what `Path::strip_prefix` gives on a host with these
/// separators, or `None` where it fails.
pub uninterp spec fn native_rest(
    separator: char,
    slash: bool,
    backslash: bool,
    path: Seq<char>,
    base: Seq<char>,
) -> Option<Seq<char>>;

/// `Path::strip_prefix`, as text, on a host that is not Unix. The result
/// depends on the host's syntax and the two texts alone; `native_rest` stands
/// for it.
#[verifier::external_body]
pub(crate) fn native_strip_prefix(host: &Host, path: &str, base: &str) -> (r: Option<String>)
    requires
        !host.is_unix(),
    ensures
        opt_text(r) == native_rest(host.separator(), host.slash(), host.backslash(), path@, base@),
{
    match std::path::Path::new(path).strip_prefix(base) {
        Ok(rest) => Some(rest.to_string_lossy().into_owned()),
        Err(_) => None,
    }
}

} // verus!
