//! Normalization of a raw path string to a canonical absolute form, done by
//! the `path_absolutize` crate: `.` and `..` components are resolved
//! syntactically, and a relative path is resolved against the process
//! working directory.

use vstd::prelude::*;

use crate::path::{is_abs, parse_path, wf_path, FsPath};

verus! {

/// Whether no component is `.` or `..`.
pub open spec fn no_dot_components(p: Seq<Seq<char>>) -> bool {
    forall|i: int| 0 <= i < p.len() ==> #[trigger] p[i] != "."@ && p[i] != ".."@
}

/// Relies on `path_absolutize::Absolutize::absolutize` (the Unix
/// implementation): the result is an absolute path whose components are the
/// input's ordinary components with `.` dropped and `..` resolved, prefixed
/// for a relative input by the components of the process working directory,
/// which the operating system reports as an absolute path free of dot
/// components. So every result is free of `.` and `..`, and an absolute
/// input already free of them comes back with exactly its own components.
/// For an absolute input the computation is purely syntactic and builds the
/// result from the input alone, so it cannot fail; for a relative input it
/// depends on the environment, and fails only when the working directory
/// cannot be read or is not valid UTF-8.
#[verifier::external_body]
fn absolutize_str(path: &str) -> (r: Option<String>)
    ensures
        is_abs(parse_path(path@)) ==> r is Some,
        match r {
            Some(a) => a@.len() > 0 && a@[0] == '/' && no_dot_components(parse_path(a@)) && (
            is_abs(parse_path(path@)) && no_dot_components(parse_path(path@)) ==> parse_path(a@)
                == parse_path(path@)),
            None => true,
        },
{
    let p = std::path::Path::new(path);
    match path_absolutize::Absolutize::absolutize(p) {
        Ok(cow) => cow.to_str().map(|s| s.to_string()),
        Err(_) => None,
    }
}

/// Normalizes a raw path string to a canonical absolute path: the result
/// is always absolute and free of `.` and `..` components.
///
/// An absolute input is normalized purely syntactically and always
/// succeeds; one that is already free of `.` and `..` components parses to
/// exactly the returned components. A relative input is resolved against
/// the process working directory, so its result depends on the
/// environment; only then can the call fail, when the working directory
/// cannot be read or is not valid UTF-8.
pub fn normalize_path(path: &str) -> (r: Option<FsPath>)
    ensures
        is_abs(parse_path(path@)) ==> r is Some,
        match r {
            Some(p) => wf_path(p@) && is_abs(p@) && no_dot_components(p@) && (is_abs(
                parse_path(path@),
            ) && no_dot_components(parse_path(path@)) ==> p@ == parse_path(path@)),
            None => true,
        },
{
    match absolutize_str(path) {
        Some(a) => {
            let p = FsPath::from_string(a.as_str());
            proof {
                assert(a@[0] == '/');
                assert(p@[0] == crate::path::root_marker());
            }
            Some(p)
        },
        None => None,
    }
}

} // verus!
