//! The `init` command: what it computes before it writes the marker file, the
//! template and the status file.

use vstd::prelude::*;
use crate::paths::{is_absolute_path, joined_path, path_is_absolute, path_join, path_string, portable};

verus! {

/// The name of the template file inside the ADR directory.
pub const TEMPLATE_FILE: &'static str = ".adr-template";

/// The name of the status file inside the ADR directory.
pub const STATUS_FILE: &'static str = ".adr-status";

/// Why `init` failed.
#[derive(Debug)]
pub enum InitError {
    CurrentDirectory(std::io::Error),
    CreateAdrDirectory { path: String, source: std::io::Error },
    WriteMarker { path: String, source: std::io::Error },
    CreateTemplate { path: String, source: std::io::Error },
    CreateStatus { path: String, source: std::io::Error },
    RelativePath,
}

/// `input` read relative to `cwd`: an absolute `input` as it is, otherwise
/// `cwd` joined with it.
pub fn absolute_from(cwd: &str, input: &str) -> (r: String)
    ensures
        r@ == if is_absolute_path(input@) {
            input@
        } else {
            joined_path(cwd@, input@)
        },
{
    if path_is_absolute(input) {
        String::from_str(input)
    } else {
        path_join(cwd, input)
    }
}

/// The relative path that `pathdiff::diff_paths` computes from `base` to `path`.
pub uninterp spec fn relative_path(path: Seq<char>, base: Seq<char>) -> Option<Seq<char>>;

/// Trusted: `pathdiff::diff_paths(path, base)`, converted to text. Its source
/// shows two cases outright: an absolute `path` against a relative `base` gives
/// `path` itself, and a relative `path` against an absolute `base` gives `None`.
/// The rest is named `relative_path`.
#[verifier::external_body]
fn diff_paths(path: &str, base: &str) -> (r: Option<String>)
    ensures
        match r {
            Some(q) => relative_path(path@, base@) == Some(q@),
            None => relative_path(path@, base@) is None,
        },
        is_absolute_path(path@) && !is_absolute_path(base@) ==> (match r {
            Some(q) => q@ == path@,
            None => false,
        }),
        !is_absolute_path(path@) && is_absolute_path(base@) ==> r.is_none(),
{
    pathdiff::diff_paths(path, base).map(|q| q.to_string_lossy().into_owned())
}

/// What the marker file records: the path of the ADR directory relative to the
/// working directory, written with `/`.
pub fn marker_value_for(cwd: &str, abs_adr_dir: &str) -> (r: Result<String, InitError>)
    ensures
        match relative_path(abs_adr_dir@, cwd@) {
            Some(rel) => r matches Ok(v) && v@ == portable(rel),
            None => r matches Err(InitError::RelativePath),
        },
{
    match diff_paths(abs_adr_dir, cwd) {
        Some(relative) => Ok(path_to_portable_string(relative.as_str())),
        None => Err(InitError::RelativePath),
    }
}

/// A path written with `/` as the only separator.
pub fn path_to_portable_string(path: &str) -> (r: String)
    ensures
        r@ == portable(path@),
{
    path_string(path)
}

/// The text of the status file: the valid status words, one per line.
pub fn status_content() -> (r: &'static str)
    ensures
        r@ == "DRAFT\nPROPOSED\nACCEPTED\nADOPTED\nSUPERSEDED\nEXPIRED\n"@,
{
    "DRAFT\nPROPOSED\nACCEPTED\nADOPTED\nSUPERSEDED\nEXPIRED\n"
}

} // verus!
