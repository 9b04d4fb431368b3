//! File system paths, held as strings, and the std path operations the planner relies on.
use vstd::prelude::*;

verus! {

/// What std's `Path::file_name` gives for `path`: its final component, when it has one.
pub uninterp spec fn path_file_name(path: Seq<char>) -> Option<Seq<char>>;

/// What std's `Path::parent` gives for `path`: the path without its final component,
/// when there is one.
pub uninterp spec fn path_parent(path: Seq<char>) -> Option<Seq<char>>;

/// What std's `PathBuf::push` makes of `base` when `part` is pushed onto it, on Unix: an
/// absolute `part` (one that starts with `/`) replaces `base`; otherwise `part` is appended,
/// after a `/` where `base` is not empty and does not end in one.
pub open spec fn path_pushed(base: Seq<char>, part: Seq<char>) -> Seq<char> {
    if part.len() > 0 && part[0] == '/' {
        part
    } else if base.len() > 0 && base.last() != '/' {
        base + seq!['/'] + part
    } else {
        base + part
    }
}

/// Calls std's `Path::file_name` on `path`. The contract claims only that the result is
/// the named value `path_file_name` of the path; a component of a `str` path is
/// always valid UTF-8, so the conversion back to `String` keeps every character.
#[verifier::external_body]
pub(crate) fn file_name_of(path: &str) -> (res: Option<String>)
    ensures
        match res {
            Some(n) => path_file_name(path@) == Some(n@),
            None => path_file_name(path@) is None,
        },
{
    std::path::Path::new(path).file_name().and_then(|n| n.to_str()).map(|n| n.to_string())
}

/// Calls std's `Path::parent` on `path`. The contract claims only that the result is the
/// named value `path_parent` of the path.
#[verifier::external_body]
pub(crate) fn parent_of(path: &str) -> (res: Option<String>)
    ensures
        match res {
            Some(p) => path_parent(path@) == Some(p@),
            None => path_parent(path@) is None,
        },
{
    std::path::Path::new(path).parent().and_then(|p| p.to_str()).map(|p| p.to_string())
}

/// Calls std's `PathBuf::push`, pushing `part` onto a copy of `base`. The contract claims
/// what std documents for Unix, as `path_pushed` says; both arguments are valid UTF-8, so
/// the lossy conversion back keeps every character.
#[verifier::external_body]
pub(crate) fn pushed(base: &str, part: &str) -> (res: String)
    ensures
        res@ == path_pushed(base@, part@),
{
    let mut buf = std::path::PathBuf::from(base);
    buf.push(part);
    buf.to_string_lossy().into_owned()
}

/// The final component of `p`.
pub fn path_fname(p: &str) -> (res: String)
    requires
        path_file_name(p@) is Some,
    ensures
        path_file_name(p@) == Some(res@),
{
    match file_name_of(p) {
        Some(n) => n,
        None => {
            assert(false);
            String::new()
        },
    }
}

/// `path` with `push` appended as a further component.
pub fn path_with_push(path: &String, push: &str) -> (res: String)
    ensures
        res@ == path_pushed(path@, push@),
{
    pushed(path.as_str(), push)
}

} // verus!
