//! File-system paths, held as text.
//!
//! The library keeps paths as strings. What `std::path` decides about a path
//! (whether it is absolute, its parent, its last component, joining two paths)
//! is asked of `std::path` itself through the wrappers below.

use vstd::prelude::*;
use crate::text::{chars_of, replace, replace_chars, string_of};

verus! {

/// Whether `std::path::Path` considers the path absolute.
pub uninterp spec fn is_absolute_path(p: Seq<char>) -> bool;

/// The path that `std::path::Path::join` makes of `base` and `part`.
pub uninterp spec fn joined_path(base: Seq<char>, part: Seq<char>) -> Seq<char>;

/// The parent that `std::path::Path::parent` gives, if any.
pub uninterp spec fn parent_path(p: Seq<char>) -> Option<Seq<char>>;

/// The last component that `std::path::Path::file_name` gives, if any.
pub uninterp spec fn file_name_of(p: Seq<char>) -> Option<Seq<char>>;

/// Trusted: `std::path::Path::is_absolute`, a function of the path text alone.
#[verifier::external_body]
pub(crate) fn path_is_absolute(p: &str) -> (r: bool)
    ensures
        r == is_absolute_path(p@),
{
    std::path::Path::new(p).is_absolute()
}

/// Trusted: `std::path::Path::join`. Its documentation says that an absolute
/// `part` replaces `base`; that is the one fact stated, the rest is named
/// `joined_path`. Both inputs are UTF-8, so the result converts back to text
/// without loss.
#[verifier::external_body]
pub(crate) fn path_join(base: &str, part: &str) -> (r: String)
    ensures
        r@ == joined_path(base@, part@),
        is_absolute_path(part@) ==> r@ == part@,
{
    std::path::Path::new(base).join(part).to_string_lossy().into_owned()
}

/// Trusted: `std::path::Path::parent`; the parent is a prefix of a UTF-8 path
/// and converts back to text without loss.
#[verifier::external_body]
pub(crate) fn path_parent(p: &str) -> (r: Option<String>)
    ensures
        match r {
            Some(q) => parent_path(p@) == Some(q@),
            None => parent_path(p@) is None,
        },
{
    std::path::Path::new(p).parent().map(|q| q.to_string_lossy().into_owned())
}

/// Trusted: `std::path::Path::file_name`, converted to text.
#[verifier::external_body]
pub(crate) fn path_file_name(p: &str) -> (r: Option<String>)
    ensures
        match r {
            Some(q) => file_name_of(p@) == Some(q@),
            None => file_name_of(p@) is None,
        },
{
    std::path::Path::new(p).file_name().map(|q| q.to_string_lossy().into_owned())
}

/// A path as messages show it: with `/` in place of every `\`.
pub open spec fn portable(p: Seq<char>) -> Seq<char> {
    replace(p, seq!['\\'], seq!['/'])
}

/// Writes a path for messages, with `/` as the only separator.
pub fn path_string(path: &str) -> (r: String)
    ensures
        r@ == portable(path@),
{
    let pat = vec!['\\'];
    let rep = vec!['/'];
    assert(pat@ =~= seq!['\\']);
    assert(rep@ =~= seq!['/']);
    string_of(replace_chars(&chars_of(path), &pat, &rep))
}

} // verus!
