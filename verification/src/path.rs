//! File paths as text, and what `std::path` says of them.

use std::path::Path;
use vstd::prelude::*;

verus! {

/// Whether `std::path::Path::is_absolute` holds of a path.
pub uninterp spec fn path_is_absolute(path: Seq<char>) -> bool;

/// What `std::path::Path::join` makes of a directory and a path.
pub uninterp spec fn path_join(dir: Seq<char>, path: Seq<char>) -> Seq<char>;

/// What `std::path::Path::parent` gives for a path.
pub uninterp spec fn path_parent(path: Seq<char>) -> Option<Seq<char>>;

/// `Path::is_absolute`: whether the path stands for itself, whatever the
/// current directory is. The answer depends on the text of the path alone.
#[verifier::external_body]
pub(crate) fn is_absolute(path: &String) -> (absolute: bool)
    ensures
        absolute == path_is_absolute(path@),
{
    Path::new(path).is_absolute()
}

/// `Path::join`: the path adjoined to the directory. The result depends on
/// the two texts alone.
#[verifier::external_body]
pub(crate) fn join(dir: &String, path: &String) -> (joined: String)
    ensures
        joined@ == path_join(dir@, path@),
{
    Path::new(dir).join(path).to_string_lossy().into_owned()
}

/// `Path::parent`: the path without its last component, or nothing where it
/// has none to drop. The result depends on the text of the path alone.
#[verifier::external_body]
pub(crate) fn parent(path: &String) -> (dir: Option<String>)
    ensures
        match dir {
            Some(dir) => path_parent(path@) == Some(dir@),
            None => path_parent(path@).is_none(),
        },
{
    Path::new(path).parent().map(|dir| dir.to_string_lossy().into_owned())
}

} // verus!
