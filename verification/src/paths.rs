use vstd::prelude::*;

verus! {

/// What `std::path::Path::strip_prefix` gives for `path` and `base`, as text:
/// the rest of `path` after the leading components that equal `base`'s, or
/// `None` when `base` is not such a prefix.
pub uninterp spec fn path_strip_prefix(path: Seq<char>, base: Seq<char>) -> Option<Seq<char>>;

/// Calls `std::path::Path::strip_prefix` on `path` and `base`. The contract
/// claims only that the result is the one `path_strip_prefix` names for
/// these two texts; how paths compare component by component is not stated.
#[verifier::external_body]
pub(crate) fn strip_path_prefix(path: &str, base: &str) -> (rest: Option<String>)
    ensures
        match rest {
            Some(r) => path_strip_prefix(path@, base@) == Some(r@),
            None => path_strip_prefix(path@, base@) is None,
        },
{
    std::path::Path::new(path).strip_prefix(base).ok().map(|r| r.to_string_lossy().into_owned())
}

/// The directory `dir` relative to `root` when `root` is a leading part of
/// it, else `dir` unchanged.
pub open spec fn relative_dir(dir: Seq<char>, root: Seq<char>) -> Seq<char> {
    match path_strip_prefix(dir, root) {
        Some(rest) => rest,
        None => dir,
    }
}

/// Expresses `dir` relative to `root`, or returns it unchanged when `root`
/// is not a leading part of it.
pub fn relative_to(dir: &String, root: &String) -> (rel: String)
    ensures
        rel@ == relative_dir(dir@, root@),
{
    match strip_path_prefix(dir.as_str(), root.as_str()) {
        Some(rest) => rest,
        None => dir.clone(),
    }
}

} // verus!
