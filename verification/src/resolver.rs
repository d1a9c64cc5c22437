//! Locating the ADR directory from the marker file `.adr-directory`.

use vstd::prelude::*;
use crate::paths::{joined_path, parent_path, path_join, path_parent};
use crate::text::{trim, trim_str};

verus! {

/// The name of the marker file.
pub const MARKER_FILE: &'static str = ".adr-directory";

/// Why the ADR directory could not be located.
#[derive(Debug)]
pub enum ResolveError {
    CurrentDirectory(std::io::Error),
    MarkerNotFound { start: String, marker: String },
    ReadMarker { path: String, source: std::io::Error },
    AdrDirectoryMissing { path: String, resolved: String },
}

/// Where the marker file is, the directory that holds it, and the ADR directory
/// that it points to.
#[derive(Debug, Clone, PartialEq, Eq)]
pub struct ResolvedAdrDirectory {
    pub marker_path: String,
    pub marker_directory: String,
    pub adr_directory: String,
}

/// Reads a marker file found at `marker_path` with the text `marker_contents`:
/// the marker names the ADR directory relative to the directory that holds the
/// marker, and surrounding white space does not count. `None` where the marker
/// path has no parent directory.
pub fn resolve_marker_path(marker_path: &str, marker_contents: &str) -> (r: Option<
    ResolvedAdrDirectory,
>)
    ensures
        match r {
            Some(d) => {
                &&& parent_path(marker_path@) == Some(d.marker_directory@)
                &&& d.marker_path@ == marker_path@
                &&& d.adr_directory@ == joined_path(d.marker_directory@, trim(marker_contents@))
            },
            None => parent_path(marker_path@) is None,
        },
{
    let marker_directory = match path_parent(marker_path) {
        Some(d) => d,
        None => return None,
    };
    let relative = trim_str(marker_contents);
    let adr_directory = path_join(marker_directory.as_str(), relative.as_str());
    Some(
        ResolvedAdrDirectory {
            marker_path: String::from_str(marker_path),
            marker_directory,
            adr_directory,
        },
    )
}

/// One step of the search for the marker file, which starts in a directory and
/// goes up through its parents until it finds the marker or runs out of parents.
#[derive(Debug, Clone, PartialEq, Eq)]
pub enum MarkerStep {
    /// The marker is at this path.
    Found(String),
    /// The marker is not in the directory just searched: search this one, its
    /// parent, next.
    Up(String),
    /// The directory just searched has no parent: there is no marker.
    NotFound,
}

/// Where the marker file of `directory` would be.
pub fn marker_candidate(directory: &str) -> (r: String)
    ensures
        r@ == joined_path(directory@, MARKER_FILE@),
{
    path_join(directory, MARKER_FILE)
}

/// The step of the search in `directory`, given whether the marker file exists
/// there (at `marker_candidate(directory)`): found there, else go on in the
/// parent directory, else stop at the root.
pub fn marker_search_step(directory: &str, marker_exists: bool) -> (r: MarkerStep)
    ensures
        marker_exists ==> (r matches MarkerStep::Found(m) && m@ == joined_path(
            directory@,
            MARKER_FILE@,
        )),
        !marker_exists ==> match parent_path(directory@) {
            Some(p) => (r matches MarkerStep::Up(q) && q@ == p),
            None => r is NotFound,
        },
{
    if marker_exists {
        MarkerStep::Found(marker_candidate(directory))
    } else {
        match path_parent(directory) {
            Some(p) => MarkerStep::Up(p),
            None => MarkerStep::NotFound,
        }
    }
}

/// Where the marker file of `directory` would be.
pub open spec fn marker_at(directory: Seq<char>) -> Seq<char> {
    joined_path(directory, MARKER_FILE@)
}

/// The directories that the search walks from `start`, as `Path::ancestors`
/// does: `start` itself for `k == 0`, then each parent in turn; `None` once the
/// root has been passed.
pub open spec fn ancestor(start: Seq<char>, k: nat) -> Option<Seq<char>>
    decreases k,
{
    if k == 0 {
        Some(start)
    } else {
        match ancestor(start, (k - 1) as nat) {
            Some(d) => parent_path(d),
            None => None,
        }
    }
}

/// The search from `directory` done by repeating `marker_search_step` at most
/// `n` times, where `present` tells which marker paths exist: `Some(Some(m))`
/// where it found the marker `m`, `Some(None)` where it ran out of parents,
/// `None` where it has not finished within `n` steps.
pub open spec fn marker_search(
    directory: Seq<char>,
    present: spec_fn(Seq<char>) -> bool,
    n: nat,
) -> Option<Option<Seq<char>>>
    decreases n,
{
    if n == 0 {
        None
    } else if present(marker_at(directory)) {
        Some(Some(marker_at(directory)))
    } else {
        match parent_path(directory) {
            Some(p) => marker_search(p, present, (n - 1) as nat),
            None => Some(None),
        }
    }
}

/// The first `k` directories from `start` all exist and hold no marker.
pub open spec fn no_marker_before(start: Seq<char>, present: spec_fn(Seq<char>) -> bool, k: nat) -> bool {
    forall|j: nat|
        j < k ==> (#[trigger] ancestor(start, j) matches Some(a) && !present(marker_at(a)))
}

proof fn lemma_ancestor_of_parent(start: Seq<char>, p: Seq<char>, j: nat)
    requires
        parent_path(start) == Some(p),
    ensures
        ancestor(p, j) == ancestor(start, j + 1),
    decreases j,
{
    if j > 0 {
        let i = (j - 1) as nat;
        lemma_ancestor_of_parent(start, p, i);
        assert(ancestor(p, j) == match ancestor(p, i) {
            Some(d) => parent_path(d),
            None => None,
        });
        assert(ancestor(start, j + 1) == match ancestor(start, j) {
            Some(d) => parent_path(d),
            None => None,
        });
    } else {
        assert(ancestor(start, 0) == Some(start));
        assert(ancestor(start, 1) == parent_path(start));
    }
}

/// The search for the marker file finds the marker of the first directory,
/// among `start` and its ancestors in order, whose marker exists; it reports
/// none when it passes the root with no marker found; and while it runs, every
/// directory it has left behind holds no marker.
pub proof fn law_marker_search_finds_nearest(
    start: Seq<char>,
    present: spec_fn(Seq<char>) -> bool,
    n: nat,
)
    ensures
        match marker_search(start, present, n) {
            Some(Some(m)) => exists|k: nat|
                k < n && no_marker_before(start, present, k) && (#[trigger] ancestor(
                    start,
                    k,
                ) matches Some(a) && m == marker_at(a) && present(m)),
            Some(None) => exists|k: nat|
                k < n && no_marker_before(start, present, k + 1) && (#[trigger] ancestor(
                    start,
                    k,
                ) matches Some(a) && parent_path(a) is None),
            None => no_marker_before(start, present, n),
        },
    decreases n,
{
    if n == 0 {
        return;
    }
    assert(ancestor(start, 0) == Some(start));
    if present(marker_at(start)) {
        assert(no_marker_before(start, present, 0));
        return;
    }
    match parent_path(start) {
        None => {
            assert forall|j: nat| j < 1 implies (#[trigger] ancestor(start, j) matches Some(a)
                && !present(marker_at(a))) by {
                assert(j == 0);
            }
            assert(no_marker_before(start, present, 0 + 1));
        },
        Some(p) => {
            let m1 = (n - 1) as nat;
            law_marker_search_finds_nearest(p, present, m1);
            assert forall|j: nat| #[trigger] ancestor(p, j) == ancestor(start, j + 1) by {
                lemma_ancestor_of_parent(start, p, j);
            }
            // What holds of the parent's search holds one step further of this one.
            assert forall|k: nat| no_marker_before(p, present, k) implies no_marker_before(
                start,
                present,
                k + 1,
            ) by {
                assert forall|j: nat| j < k + 1 implies (#[trigger] ancestor(start, j) matches Some(a)
                    && !present(marker_at(a))) by {
                    if j > 0 {
                        let i = (j - 1) as nat;
                        assert(ancestor(p, i) == ancestor(start, i + 1));
                        assert(ancestor(p, i) matches Some(a) && !present(marker_at(a)));
                    }
                }
            }
            match marker_search(p, present, m1) {
                Some(Some(m)) => {
                    let k = choose|k: nat|
                        k < m1 && no_marker_before(p, present, k) && (#[trigger] ancestor(
                            p,
                            k,
                        ) matches Some(a) && m == marker_at(a) && present(m));
                    assert(ancestor(p, k) == ancestor(start, k + 1));
                    assert(no_marker_before(start, present, k + 1));
                },
                Some(None) => {
                    let k = choose|k: nat|
                        k < m1 && no_marker_before(p, present, k + 1) && (#[trigger] ancestor(
                            p,
                            k,
                        ) matches Some(a) && parent_path(a) is None);
                    assert(ancestor(p, k) == ancestor(start, k + 1));
                    assert(no_marker_before(start, present, k + 1 + 1));
                },
                None => {
                    assert(no_marker_before(start, present, m1 + 1));
                },
            }
        },
    }
}

/// One step of the search, `marker_search_step`, is one unfolding of
/// `marker_search`: found here, or the search from the parent with one step
/// fewer, or nothing past the root.
pub proof fn law_marker_step_unfolds_search(
    directory: Seq<char>,
    present: spec_fn(Seq<char>) -> bool,
    n: nat,
)
    requires
        n > 0,
    ensures
        present(marker_at(directory)) ==> marker_search(directory, present, n) == Some(
            Some(marker_at(directory)),
        ),
        !present(marker_at(directory)) ==> marker_search(directory, present, n) == match parent_path(
            directory,
        ) {
            Some(p) => marker_search(p, present, (n - 1) as nat),
            None => Some(None),
        },
{
}

} // verus!
