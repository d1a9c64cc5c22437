//! The `mod` command: accepting an ADR, and superseding an older one with it,
//! by rewriting the metadata lines of the ADR files.

use vstd::prelude::*;
use crate::id::{extract_id_from_filename, format_id, id_text, spec_extract_id};
use crate::paths::{file_name_of, path_file_name, path_string, portable};
use crate::text::{
    chars_of, clean_lines, ends_with, join, join_strings, lines, lines_of, no_newline,
    no_trailing_cr, starts_with, starts_with_chars, string_of, trim, trim_chars,
    trim_start, trim_start_chars, views,
};
use crate::toc::{first_metadata_from, metadata_prefix, metadata_value, TocResult, warning_texts};

verus! {

/// Why `mod` failed.
#[derive(Debug)]
pub enum ModError {
    MissingAction,
    SupersedeSelf { id: String },
    ResolveAdrDirectory(crate::resolver::ResolveError),
    ReadAdrDirectory { path: String, source: std::io::Error },
    ReadAdrDirectoryEntry { path: String, source: std::io::Error },
    AdrNotFound { id: String, directory: String },
    DuplicateAdrId { id: String, first: String, second: String },
    ReadAdrFile { path: String, source: std::io::Error },
    WriteAdrFile { path: String, source: std::io::Error },
    TocTrigger(TocTriggerError),
}

/// The overview could not be regenerated after the ADRs were rewritten.
#[derive(Debug)]
pub struct TocTriggerError;

/// What `mod` reports: its warnings, in order.
#[derive(Debug, Clone, PartialEq, Eq)]
pub struct ModResult {
    pub warnings: Vec<String>,
}

// ---------------------------------------------------------------------------
// Metadata lines

/// `* Date:`.
pub open spec fn date_prefix() -> Seq<char> {
    seq!['*', ' ', 'D', 'a', 't', 'e', ':']
}

/// `* Status:`.
pub open spec fn status_prefix() -> Seq<char> {
    seq!['*', ' ', 'S', 't', 'a', 't', 'u', 's', ':']
}

/// The metadata line `<prefix> <value>`.
pub open spec fn metadata_line(prefix: Seq<char>, value: Seq<char>) -> Seq<char> {
    prefix + seq![' '] + value
}

/// Lines from index `i` on that belong to the metadata block: those that start
/// with `* ` after leading white space. The first index past the block.
pub open spec fn skip_bullets(ls: Seq<Seq<char>>, i: int) -> int
    decreases ls.len() - i,
{
    if 0 <= i < ls.len() && starts_with(trim_start(ls[i]), seq!['*', ' ']) {
        skip_bullets(ls, i + 1)
    } else {
        i
    }
}

/// Where a missing metadata line goes: after the metadata block, which begins
/// after the header line and the blank line that may follow it.
pub open spec fn spec_metadata_insert_index(ls: Seq<Seq<char>>) -> int {
    if ls.len() == 0 {
        0
    } else {
        skip_bullets(
            ls,
            if ls.len() > 1 && trim(ls[1]).len() == 0 {
                2
            } else {
                1
            },
        )
    }
}

proof fn lemma_skip_bullets_bounds(ls: Seq<Seq<char>>, i: int)
    requires
        0 <= i <= ls.len(),
    ensures
        i <= skip_bullets(ls, i) <= ls.len(),
    decreases ls.len() - i,
{
    if i < ls.len() && starts_with(trim_start(ls[i]), seq!['*', ' ']) {
        lemma_skip_bullets_bounds(ls, i + 1);
    }
}

fn is_bullet_line(line: &String) -> (r: bool)
    ensures
        r == starts_with(trim_start(line@), seq!['*', ' ']),
{
    let bullet = vec!['*', ' '];
    assert(bullet@ =~= seq!['*', ' ']);
    starts_with_chars(&trim_start_chars(&chars_of(line.as_str())), &bullet)
}

/// The index at which a missing metadata line is inserted.
pub fn metadata_insert_index(lines: &[String]) -> (r: usize)
    ensures
        r == spec_metadata_insert_index(views(lines@)),
        r <= lines@.len(),
{
    let ghost ls = views(lines@);
    if lines.len() == 0 {
        return 0;
    }
    let mut index: usize = 1;
    if lines.len() > 1 {
        assert(ls[1] == lines@[1]@);
        if trim_chars(&chars_of(lines[1].as_str())).len() == 0 {
            index = 2;
        }
    }
    while index < lines.len() && is_bullet_line(&lines[index])
        invariant
            1 <= index <= lines@.len(),
            ls == views(lines@),
            spec_metadata_insert_index(ls) == skip_bullets(ls, index as int),
        decreases lines@.len() - index,
    {
        assert(ls[index as int] == lines@[index as int]@);
        index = index + 1;
    }
    if index < lines.len() {
        assert(ls[index as int] == lines@[index as int]@);
    }
    index
}

/// The index of the first line from index `i` on that starts with `prefix`.
pub open spec fn first_with_prefix(ls: Seq<Seq<char>>, prefix: Seq<char>, i: int) -> Option<int>
    decreases ls.len() - i,
{
    if i < 0 || i >= ls.len() {
        None
    } else if starts_with(ls[i], prefix) {
        Some(i)
    } else {
        first_with_prefix(ls, prefix, i + 1)
    }
}

/// The lines with the first line that starts with `prefix` replaced by
/// `replacement`; where there is no such line, `replacement` is inserted after
/// the metadata block.
pub open spec fn upserted_lines(ls: Seq<Seq<char>>, prefix: Seq<char>, replacement: Seq<char>) -> Seq<
    Seq<char>,
> {
    match first_with_prefix(ls, prefix, 0) {
        Some(i) => ls.update(i, replacement),
        None => ls.insert(spec_metadata_insert_index(ls), replacement),
    }
}

pub open spec fn msg_inserted(key: Seq<char>) -> Seq<char> {
    "missing metadata line '* "@ + key + ":' inserted"@
}

/// A warning where the metadata line had to be inserted.
pub open spec fn upsert_warnings(ls: Seq<Seq<char>>, prefix: Seq<char>, key: Seq<char>) -> Seq<
    Seq<char>,
> {
    if first_with_prefix(ls, prefix, 0) is None {
        seq![msg_inserted(key)]
    } else {
        seq![]
    }
}

proof fn lemma_first_with_prefix(ls: Seq<Seq<char>>, prefix: Seq<char>, i: int)
    requires
        0 <= i,
    ensures
        first_with_prefix(ls, prefix, i) matches Some(k) ==> i <= k < ls.len() && starts_with(
            ls[k],
            prefix,
        ),
        first_with_prefix(ls, prefix, i) matches Some(k) ==> forall|t: int|
            i <= t < k ==> !starts_with(#[trigger] ls[t], prefix),
        first_with_prefix(ls, prefix, i) is None ==> forall|t: int|
            i <= t < ls.len() ==> !starts_with(#[trigger] ls[t], prefix),
    decreases ls.len() - i,
{
    if i < ls.len() && !starts_with(ls[i], prefix) {
        lemma_first_with_prefix(ls, prefix, i + 1);
    }
}

/// Sets the metadata line that starts with `prefix` to `replacement`; where the
/// line is missing it is inserted after the metadata block, with a warning.
pub fn upsert_metadata_line(
    lines: &mut Vec<String>,
    prefix: &str,
    replacement: &str,
    key: &str,
    warnings: &mut Vec<String>,
)
    ensures
        views(final(lines)@) == upserted_lines(views(old(lines)@), prefix@, replacement@),
        views(final(warnings)@) == views(old(warnings)@) + upsert_warnings(
            views(old(lines)@),
            prefix@,
            key@,
        ),
{
    let ghost ls = views(lines@);
    let p = chars_of(prefix);
    let mut i: usize = 0;
    while i < lines.len()
        invariant
            0 <= i <= lines@.len(),
            ls == views(lines@),
            ls == views(old(lines)@),
            warnings@ == old(warnings)@,
            p@ == prefix@,
            first_with_prefix(ls, prefix@, 0) == first_with_prefix(ls, prefix@, i as int),
        decreases lines@.len() - i,
    {
        assert(ls[i as int] == lines@[i as int]@);
        if starts_with_chars(&chars_of(lines[i].as_str()), &p) {
            assert(first_with_prefix(ls, prefix@, i as int) == Some(i as int));
            lines.set(i, String::from_str(replacement));
            assert(views(lines@) =~= ls.update(i as int, replacement@));
            assert(views(warnings@) =~= views(warnings@) + seq![]);
            return;
        }
        i = i + 1;
    }
    let at = metadata_insert_index(lines.as_slice());
    lines.insert(at, String::from_str(replacement));
    assert(views(lines@) =~= ls.insert(at as int, replacement@));
    let ghost before = views(warnings@);
    let mut m = String::from_str("missing metadata line '* ");
    m.append(key);
    m.append(":' inserted");
    warnings.push(m);
    assert(views(warnings@) =~= before + seq![msg_inserted(key@)]);
}

// ---------------------------------------------------------------------------
// Rewriting one ADR

/// What to set in an ADR: the new status, and whether to set the date too.
pub struct UpdateRequest<'a> {
    pub new_status: &'a str,
    pub update_date: bool,
    pub date: &'a str,
}

/// The rewritten text of an ADR and the warnings about it.
#[derive(Debug, Clone, PartialEq, Eq)]
pub struct UpdateOutcome {
    pub content: String,
    pub warnings: Vec<String>,
}

/// The lines after the date line is set, where that is asked for.
pub open spec fn dated_lines(content: Seq<char>, update_date: bool, date: Seq<char>) -> Seq<
    Seq<char>,
> {
    if update_date {
        upserted_lines(lines(content), date_prefix(), metadata_line(date_prefix(), date))
    } else {
        lines(content)
    }
}

/// The lines of the rewritten ADR: the date line set where asked for, then the
/// status line set.
pub open spec fn updated_lines(
    content: Seq<char>,
    new_status: Seq<char>,
    update_date: bool,
    date: Seq<char>,
) -> Seq<Seq<char>> {
    upserted_lines(
        dated_lines(content, update_date, date),
        status_prefix(),
        metadata_line(status_prefix(), new_status),
    )
}

/// The rewritten text of an ADR: its lines joined with `\n`, ending with `\n`
/// unless both the lines and the old text were empty of that.
pub open spec fn updated_content(
    content: Seq<char>,
    new_status: Seq<char>,
    update_date: bool,
    date: Seq<char>,
) -> Seq<char> {
    let joined = join(updated_lines(content, new_status, update_date, date), seq!['\n']);
    if ends_with(content, seq!['\n']) || joined.len() > 0 {
        joined.push('\n')
    } else {
        joined
    }
}

/// The warnings of a rewrite: one for each metadata line that had to be inserted.
pub open spec fn update_warnings(content: Seq<char>, update_date: bool, date: Seq<char>) -> Seq<
    Seq<char>,
> {
    (if update_date {
        upsert_warnings(lines(content), date_prefix(), "Date"@)
    } else {
        seq![]
    }) + upsert_warnings(dated_lines(content, update_date, date), status_prefix(), "Status"@)
}

fn prefixed_line(prefix: &Vec<char>, value: &str) -> (r: String)
    ensures
        r@ == metadata_line(prefix@, value@),
{
    let mut v = prefix.clone();
    v.push(' ');
    let mut out = string_of(v);
    out.append(value);
    out
}

/// Rewrites the text of an ADR: sets its status line, and its date line where
/// asked for; a missing line is inserted after the metadata block, with a
/// warning.
pub fn apply_update(content: &str, request: &UpdateRequest<'_>) -> (r: UpdateOutcome)
    ensures
        r.content@ == updated_content(
            content@,
            request.new_status@,
            request.update_date,
            request.date@,
        ),
        views(r.warnings@) == update_warnings(content@, request.update_date, request.date@),
{
    let mut lines = lines_of(content);
    let mut warnings: Vec<String> = Vec::new();
    let dp = vec!['*', ' ', 'D', 'a', 't', 'e', ':'];
    let sp = vec!['*', ' ', 'S', 't', 'a', 't', 'u', 's', ':'];
    assert(dp@ =~= date_prefix());
    assert(sp@ =~= status_prefix());
    let ghost l0 = views(lines@);
    assert(views(warnings@) =~= Seq::<Seq<char>>::empty());
    if request.update_date {
        let line = prefixed_line(&dp, request.date);
        let prefix = string_of(dp.clone());
        upsert_metadata_line(&mut lines, prefix.as_str(), line.as_str(), "Date", &mut warnings);
    }
    assert(views(lines@) == dated_lines(content@, request.update_date, request.date@));
    let line = prefixed_line(&sp, request.new_status);
    let prefix = string_of(sp.clone());
    let ghost w1 = views(warnings@);
    upsert_metadata_line(&mut lines, prefix.as_str(), line.as_str(), "Status", &mut warnings);
    let nl = string_of(vec!['\n']);
    assert(nl@ =~= seq!['\n']);
    let mut updated = join_strings(&lines, nl.as_str());
    let cs = chars_of(content);
    let ends_nl = cs.len() > 0 && cs[cs.len() - 1] == '\n';
    proof {
        if cs@.len() > 0 {
            let tail = content@.skip(content@.len() - 1);
            assert(tail =~= seq![cs@.last()]);
            if cs@.last() != '\n' {
                assert(tail[0] != seq!['\n'][0]);
            }
        }
    }
    assert(ends_nl == ends_with(content@, seq!['\n']));
    if ends_nl || !updated.as_str().is_empty() {
        updated.append(nl.as_str());
    }
    UpdateOutcome { content: updated, warnings }
}

// ---------------------------------------------------------------------------
// Warnings and file names

/// Each warning preceded by the name of the file that it is about.
pub open spec fn prefixed_warnings(file_name: Seq<char>, ws: Seq<Seq<char>>) -> Seq<Seq<char>> {
    ws.map_values(|w: Seq<char>| file_name + ": "@ + w)
}

/// Puts the name of the file in front of each warning about it.
pub fn prefix_warnings(file_name: &str, warnings: Vec<String>) -> (r: Vec<String>)
    ensures
        views(r@) == prefixed_warnings(file_name@, views(warnings@)),
{
    let ghost ws = views(warnings@);
    let mut out: Vec<String> = Vec::new();
    let mut i: usize = 0;
    while i < warnings.len()
        invariant
            0 <= i <= warnings@.len(),
            ws == views(warnings@),
            views(out@) == prefixed_warnings(file_name@, ws.take(i as int)),
        decreases warnings@.len() - i,
    {
        let mut m = String::from_str(file_name);
        m.append(": ");
        m.append(warnings[i].as_str());
        let ghost before = views(out@);
        assert(ws[i as int] == warnings@[i as int]@);
        assert(m@ == file_name@ + ": "@ + ws[i as int]);
        out.push(m);
        assert(views(out@) =~= before.push(file_name@ + ": "@ + ws[i as int]));
        assert(prefixed_warnings(file_name@, ws.take(i + 1)) =~= prefixed_warnings(
            file_name@,
            ws.take(i as int),
        ).push(file_name@ + ": "@ + ws[i as int]));
        i = i + 1;
    }
    assert(ws.take(warnings@.len() as int) =~= ws);
    out
}

/// How a file is named in warnings: by its last path component, or by the
/// whole path where it has none.
pub open spec fn spec_file_name_for_warning(path: Seq<char>) -> Seq<char> {
    match file_name_of(path) {
        Some(name) => name,
        None => portable(path),
    }
}

/// The name by which warnings refer to the file at `path`.
pub fn file_name_for_warning(path: &str) -> (r: String)
    ensures
        r@ == spec_file_name_for_warning(path@),
{
    match path_file_name(path) {
        Some(name) => name,
        None => path_string(path),
    }
}

// ---------------------------------------------------------------------------
// Finding an ADR by id

/// An entry of the ADR directory: its path, its file name, and whether it is a
/// regular file.
#[derive(Debug, Clone, PartialEq, Eq)]
pub struct DirEntryInfo {
    pub path: String,
    pub file_name: String,
    pub is_file: bool,
}

/// The entry is the file of ADR `target`.
pub open spec fn is_adr_entry(e: DirEntryInfo, target: u32) -> bool {
    e.is_file && spec_extract_id(e.file_name@) == Some(target)
}

/// The entries that are files of ADR `target`, in order.
pub open spec fn adr_entries(es: Seq<DirEntryInfo>, target: u32) -> Seq<DirEntryInfo>
    decreases es.len(),
{
    if es.len() == 0 {
        seq![]
    } else {
        adr_entries(es.drop_last(), target) + if is_adr_entry(es.last(), target) {
            seq![es.last()]
        } else {
            seq![]
        }
    }
}

proof fn lemma_adr_entries_prefix(es: Seq<DirEntryInfo>, target: u32, i: int)
    requires
        0 <= i <= es.len(),
    ensures
        adr_entries(es.take(i), target).len() <= adr_entries(es, target).len(),
        forall|k: int|
            0 <= k < adr_entries(es.take(i), target).len() ==> adr_entries(es, target)[k]
                == #[trigger] adr_entries(es.take(i), target)[k],
    decreases es.len() - i,
{
    if i < es.len() {
        lemma_adr_entries_prefix(es, target, i + 1);
        assert(es.take(i + 1).drop_last() =~= es.take(i));
        let a = adr_entries(es.take(i), target);
        let b = adr_entries(es.take(i + 1), target);
        assert forall|k: int| 0 <= k < a.len() implies b[k] == #[trigger] a[k] by {}
    } else {
        assert(es.take(i) =~= es);
    }
}

/// Finds the file of ADR `target_id` among the entries of the ADR directory:
/// its path when there is exactly one such file, otherwise an error that names
/// the id and the directory, or the first two files found.
pub fn find_adr_file_by_id(adr_directory: &str, entries: &[DirEntryInfo], target_id: u32) -> (r:
    Result<String, ModError>)
    ensures
        ({
            let found = adr_entries(entries@, target_id);
            if found.len() == 0 {
                r matches Err(ModError::AdrNotFound { id, directory }) && id@ == id_text(target_id)
                    && directory@ == portable(adr_directory@)
            } else if found.len() == 1 {
                r matches Ok(p) && p@ == found[0].path@
            } else {
                r matches Err(ModError::DuplicateAdrId { id, first, second }) && id@ == id_text(
                    target_id,
                ) && first@ == spec_file_name_for_warning(found[0].path@) && second@
                    == found[1].file_name@
            }
        }),
{
    let ghost es = entries@;
    let mut found: Option<usize> = None;
    let mut i: usize = 0;
    while i < entries.len()
        invariant
            0 <= i <= entries@.len(),
            es == entries@,
            adr_entries(es.take(i as int), target_id).len() <= 1,
            match found {
                Some(k) => k < i && adr_entries(es.take(i as int), target_id) == seq![es[k as int]],
                None => adr_entries(es.take(i as int), target_id).len() == 0,
            },
        decreases entries@.len() - i,
    {
        assert(es.take(i + 1).drop_last() =~= es.take(i as int));
        let e = &entries[i];
        if e.is_file {
            if let Some(id) = extract_id_from_filename(e.file_name.as_str()) {
                if id == target_id {
                    if let Some(k) = found {
                        proof {
                            lemma_adr_entries_prefix(es, target_id, i + 1);
                            assert(adr_entries(es.take(i + 1), target_id) =~= seq![
                                es[k as int],
                                es[i as int],
                            ]);
                            assert(adr_entries(es, target_id)[0] == adr_entries(
                                es.take(i + 1),
                                target_id,
                            )[0]);
                            assert(adr_entries(es, target_id)[1] == adr_entries(
                                es.take(i + 1),
                                target_id,
                            )[1]);
                        }
                        return Err(
                            ModError::DuplicateAdrId {
                                id: format_id(target_id),
                                first: file_name_for_warning(entries[k].path.as_str()),
                                second: entries[i].file_name.clone(),
                            },
                        );
                    }
                    found = Some(i);
                }
            }
        }
        i = i + 1;
    }
    assert(es.take(entries@.len() as int) =~= es);
    match found {
        Some(k) => Ok(entries[k].path.clone()),
        None => Err(
            ModError::AdrNotFound { id: format_id(target_id), directory: path_string(adr_directory) },
        ),
    }
}

// ---------------------------------------------------------------------------
// The whole command

/// `mod` needs `-a` or `-s <id>`, and an ADR cannot supersede itself.
pub fn check_request(id: u32, accept: bool, supersede: Option<u32>) -> (r: Result<(), ModError>)
    ensures
        !accept && supersede is None ==> r matches Err(ModError::MissingAction),
        (accept || supersede is Some) && supersede == Some(id) ==> (r matches Err(
            ModError::SupersedeSelf { id: t },
        ) && t@ == id_text(id)),
        (accept || supersede is Some) && supersede != Some(id) ==> r is Ok,
{
    if !accept && supersede.is_none() {
        return Err(ModError::MissingAction);
    }
    if let Some(superseded_id) = supersede {
        if superseded_id == id {
            return Err(ModError::SupersedeSelf { id: format_id(id) });
        }
    }
    Ok(())
}

/// An ADR file as read: its path and its text.
#[derive(Debug, Clone, PartialEq, Eq)]
pub struct AdrDocument {
    pub path: String,
    pub content: String,
}

/// What `mod` writes back, and its warnings so far.
#[derive(Debug, Clone, PartialEq, Eq)]
pub struct ModPlan {
    pub target_content: String,
    pub superseded_content: Option<String>,
    pub warnings: Vec<String>,
}

/// The status that the superseded ADR gets: `SUPERSEDED by <id>`.
pub open spec fn superseded_status(id: u32) -> Seq<char> {
    "SUPERSEDED by "@ + id_text(id)
}

impl ModPlan {
    /// The report of `mod`: its own warnings, then those of the regenerated
    /// overview.
    pub fn into_result(self, toc: &TocResult) -> (r: ModResult)
        ensures
            views(r.warnings@) == views(self.warnings@) + warning_texts(toc.warnings@),
    {
        let mut warnings = self.warnings;
        let ghost before = views(warnings@);
        let ghost tw = warning_texts(toc.warnings@);
        let mut i: usize = 0;
        while i < toc.warnings.len()
            invariant
                0 <= i <= toc.warnings@.len(),
                tw == warning_texts(toc.warnings@),
                views(warnings@) == before + tw.take(i as int),
            decreases toc.warnings@.len() - i,
        {
            let m = toc.warnings[i].message.clone();
            let ghost mid = views(warnings@);
            warnings.push(m);
            assert(views(warnings@) =~= mid.push(tw[i as int]));
            assert(before + tw.take(i + 1) =~= (before + tw.take(i as int)).push(tw[i as int]));
            i = i + 1;
        }
        assert(tw.take(toc.warnings@.len() as int) =~= tw);
        ModResult { warnings }
    }
}

/// The work of `mod` on the ADR files that it read: `target` is the ADR `id`
/// to accept, `superseded` the ADR named by `-s`, and `date` today's date. The
/// target gets the status `ACCEPTED` and today's date; the superseded ADR gets
/// the status `SUPERSEDED by <id>` and keeps its date. Where `-s` names an ADR
/// but no superseded document is handed over, that ADR was not found in
/// `adr_directory`. The warnings name the file they are about.
pub fn run(
    id: u32,
    accept: bool,
    supersede: Option<u32>,
    date: &str,
    adr_directory: &str,
    target: &AdrDocument,
    superseded: Option<&AdrDocument>,
) -> (r: Result<ModPlan, ModError>)
    ensures
        !accept && supersede is None ==> r matches Err(ModError::MissingAction),
        (accept || supersede is Some) && supersede == Some(id) ==> (r matches Err(
            ModError::SupersedeSelf { id: t },
        ) && t@ == id_text(id)),
        (accept || supersede is Some) && supersede != Some(id) && supersede is Some
            && superseded is None ==> (r matches Err(ModError::AdrNotFound { id: t, directory })
            && t@ == id_text(supersede->0) && directory@ == portable(adr_directory@)),
        (accept || supersede is Some) && supersede != Some(id) && (supersede is None
            || superseded is Some) ==> (r matches Ok(plan) && {
            &&& plan.target_content@ == updated_content(target.content@, "ACCEPTED"@, true, date@)
            &&& match (supersede, superseded) {
                (Some(_), Some(old_adr)) => {
                    &&& plan.superseded_content matches Some(c) && c@ == updated_content(
                        old_adr.content@,
                        superseded_status(id),
                        false,
                        date@,
                    )
                    &&& views(plan.warnings@) == prefixed_warnings(
                        spec_file_name_for_warning(target.path@),
                        update_warnings(target.content@, true, date@),
                    ) + prefixed_warnings(
                        spec_file_name_for_warning(old_adr.path@),
                        update_warnings(old_adr.content@, false, date@),
                    )
                },
                _ => {
                    &&& plan.superseded_content is None
                    &&& views(plan.warnings@) == prefixed_warnings(
                        spec_file_name_for_warning(target.path@),
                        update_warnings(target.content@, true, date@),
                    )
                },
            }
        }),
{
    match check_request(id, accept, supersede) {
        Ok(()) => {},
        Err(e) => return Err(e),
    }
    if let Some(old_id) = supersede {
        if superseded.is_none() {
            return Err(
                ModError::AdrNotFound { id: format_id(old_id), directory: path_string(adr_directory) },
            );
        }
    }
    let target_update = apply_update(
        target.content.as_str(),
        &UpdateRequest { new_status: "ACCEPTED", update_date: true, date },
    );
    let mut warnings = prefix_warnings(
        file_name_for_warning(target.path.as_str()).as_str(),
        target_update.warnings,
    );
    match (supersede, superseded) {
        (Some(_), Some(old_adr)) => {
            let mut status = String::from_str("SUPERSEDED by ");
            let t = format_id(id);
            status.append(t.as_str());
            let old_update = apply_update(
                old_adr.content.as_str(),
                &UpdateRequest { new_status: status.as_str(), update_date: false, date },
            );
            let more = prefix_warnings(
                file_name_for_warning(old_adr.path.as_str()).as_str(),
                old_update.warnings,
            );
            let ghost w0 = views(warnings@);
            let ghost w1 = views(more@);
            let mut i: usize = 0;
            while i < more.len()
                invariant
                    0 <= i <= more@.len(),
                    w1 == views(more@),
                    views(warnings@) == w0 + w1.take(i as int),
                decreases more@.len() - i,
            {
                let m = more[i].clone();
                let ghost mid = views(warnings@);
                warnings.push(m);
                assert(views(warnings@) =~= mid.push(w1[i as int]));
                assert(w0 + w1.take(i + 1) =~= (w0 + w1.take(i as int)).push(w1[i as int]));
                i = i + 1;
            }
            assert(w1.take(more@.len() as int) =~= w1);
            Ok(
                ModPlan {
                    target_content: target_update.content,
                    superseded_content: Some(old_update.content),
                    warnings,
                },
            )
        },
        _ => Ok(
            ModPlan { target_content: target_update.content, superseded_content: None, warnings },
        ),
    }
}

// ---------------------------------------------------------------------------
// Laws: what `toc` reads from an ADR that `mod` rewrote

proof fn lemma_first_metadata_at(ls: Seq<Seq<char>>, p: Seq<char>, i: int, k: int)
    requires
        0 <= i <= k < ls.len(),
        starts_with(ls[k], p),
        forall|t: int| i <= t < k ==> !starts_with(#[trigger] ls[t], p),
    ensures
        first_metadata_from(ls, p, i) == Some(trim(ls[k].skip(p.len() as int))),
    decreases k - i,
{
    if i < k {
        assert(!starts_with(ls[i], p));
        lemma_first_metadata_at(ls, p, i + 1, k);
    }
}

proof fn lemma_first_metadata_update(ls: Seq<Seq<char>>, q: Seq<char>, k: int, x: Seq<char>, i: int)
    requires
        0 <= i,
        0 <= k < ls.len(),
        !starts_with(ls[k], q),
        !starts_with(x, q),
    ensures
        first_metadata_from(ls.update(k, x), q, i) == first_metadata_from(ls, q, i),
    decreases ls.len() - i,
{
    if i < ls.len() {
        lemma_first_metadata_update(ls, q, k, x, i + 1);
    }
}

proof fn lemma_first_metadata_shift(ls: Seq<Seq<char>>, q: Seq<char>, m: int, x: Seq<char>, j: int)
    requires
        0 <= m <= j,
        m <= ls.len(),
    ensures
        first_metadata_from(ls.insert(m, x), q, j + 1) == first_metadata_from(ls, q, j),
    decreases ls.len() - j,
{
    if j < ls.len() {
        assert(ls.insert(m, x)[j + 1] == ls[j]);
        lemma_first_metadata_shift(ls, q, m, x, j + 1);
    }
}

proof fn lemma_first_metadata_insert(ls: Seq<Seq<char>>, q: Seq<char>, m: int, x: Seq<char>, i: int)
    requires
        0 <= i <= m <= ls.len(),
        !starts_with(x, q),
    ensures
        first_metadata_from(ls.insert(m, x), q, i) == first_metadata_from(ls, q, i),
    decreases m - i,
{
    if i < m {
        assert(ls.insert(m, x)[i] == ls[i]);
        lemma_first_metadata_insert(ls, q, m, x, i + 1);
    } else {
        assert(ls.insert(m, x)[m] == x);
        lemma_first_metadata_shift(ls, q, m, x, m);
    }
}

proof fn lemma_insert_index_bounds(ls: Seq<Seq<char>>)
    ensures
        0 <= spec_metadata_insert_index(ls) <= ls.len(),
{
    if ls.len() > 0 {
        lemma_skip_bullets_bounds(
            ls,
            if ls.len() > 1 && trim(ls[1]).len() == 0 {
                2
            } else {
                1
            },
        );
    }
}

/// After a metadata line is set, it is the first line with its prefix.
proof fn lemma_upserted_reads_back(ls: Seq<Seq<char>>, p: Seq<char>, rep: Seq<char>)
    requires
        starts_with(rep, p),
    ensures
        first_metadata_from(upserted_lines(ls, p, rep), p, 0) == Some(trim(rep.skip(p.len() as int))),
        upserted_lines(ls, p, rep).len() > 0,
{
    lemma_first_with_prefix(ls, p, 0);
    let out = upserted_lines(ls, p, rep);
    match first_with_prefix(ls, p, 0) {
        Some(k) => {
            assert forall|t: int| 0 <= t < k implies !starts_with(#[trigger] out[t], p) by {
                assert(out[t] == ls[t]);
            }
            lemma_first_metadata_at(out, p, 0, k);
        },
        None => {
            lemma_insert_index_bounds(ls);
            let m = spec_metadata_insert_index(ls);
            assert forall|t: int| 0 <= t < m implies !starts_with(#[trigger] out[t], p) by {
                assert(out[t] == ls[t]);
            }
            lemma_first_metadata_at(out, p, 0, m);
        },
    }
}

/// Setting the line of one prefix leaves the value read for another prefix.
proof fn lemma_upserted_preserves(ls: Seq<Seq<char>>, p: Seq<char>, rep: Seq<char>, q: Seq<char>)
    requires
        forall|x: Seq<char>| starts_with(x, p) ==> !starts_with(x, q),
        !starts_with(rep, q),
    ensures
        first_metadata_from(upserted_lines(ls, p, rep), q, 0) == first_metadata_from(ls, q, 0),
{
    lemma_first_with_prefix(ls, p, 0);
    match first_with_prefix(ls, p, 0) {
        Some(k) => {
            assert(!starts_with(ls[k], q));
            lemma_first_metadata_update(ls, q, k, rep, 0);
        },
        None => {
            lemma_insert_index_bounds(ls);
            lemma_first_metadata_insert(ls, q, spec_metadata_insert_index(ls), rep, 0);
        },
    }
}

proof fn lemma_upserted_clean(ls: Seq<Seq<char>>, p: Seq<char>, rep: Seq<char>)
    requires
        clean_lines(ls),
        no_newline(rep),
        no_trailing_cr(rep),
    ensures
        clean_lines(upserted_lines(ls, p, rep)),
{
    let out = upserted_lines(ls, p, rep);
    lemma_first_with_prefix(ls, p, 0);
    lemma_insert_index_bounds(ls);
    assert forall|i: int| 0 <= i < out.len() implies no_newline(#[trigger] out[i])
        && no_trailing_cr(out[i]) by {
        match first_with_prefix(ls, p, 0) {
            Some(k) => {
                if i != k {
                    assert(out[i] == ls[i]);
                }
            },
            None => {
                let m = spec_metadata_insert_index(ls);
                if i < m {
                    assert(out[i] == ls[i]);
                } else if i > m {
                    assert(out[i] == ls[i - 1]);
                }
            },
        }
    }
}

proof fn lemma_metadata_line(p: Seq<char>, v: Seq<char>)
    requires
        no_newline(p),
        no_newline(v),
        no_trailing_cr(v),
    ensures
        starts_with(metadata_line(p, v), p),
        trim(metadata_line(p, v).skip(p.len() as int)) == trim(v),
        no_newline(metadata_line(p, v)),
        no_trailing_cr(metadata_line(p, v)),
{
    let l = metadata_line(p, v);
    assert(l.take(p.len() as int) =~= p);
    assert(l.skip(p.len() as int) =~= seq![' '] + v);
    crate::text::lemma_trim_leading_ws(' ', v);
    assert forall|k: int| 0 <= k < l.len() implies l[k] != '\n' by {
        if k < p.len() {
            assert(l[k] == p[k]);
        } else if k > p.len() {
            assert(l[k] == v[k - p.len() - 1]);
        }
    }
    if v.len() > 0 {
        assert(l.last() == v.last());
    }
}

proof fn lemma_prefixes_exclusive()
    ensures
        forall|x: Seq<char>| starts_with(x, date_prefix()) ==> !starts_with(x, status_prefix()),
        forall|x: Seq<char>| starts_with(x, status_prefix()) ==> !starts_with(x, date_prefix()),
{
    assert forall|x: Seq<char>| starts_with(x, date_prefix()) implies !starts_with(
        x,
        status_prefix(),
    ) by {
        assert(x.take(7)[2] == x[2]);
        if starts_with(x, status_prefix()) {
            assert(x.take(9)[2] == x[2]);
        }
    }
    assert forall|x: Seq<char>| starts_with(x, status_prefix()) implies !starts_with(
        x,
        date_prefix(),
    ) by {
        assert(x.take(9)[2] == x[2]);
        if starts_with(x, date_prefix()) {
            assert(x.take(7)[2] == x[2]);
        }
    }
}

proof fn lemma_key_prefixes()
    ensures
        metadata_prefix("Date"@) == date_prefix(),
        metadata_prefix("Status"@) == status_prefix(),
{
    reveal_strlit("Date");
    reveal_strlit("Status");
    assert(metadata_prefix("Date"@) =~= date_prefix());
    assert(metadata_prefix("Status"@) =~= status_prefix());
}

/// The rewritten text is read back by `lines` as the rewritten lines, provided
/// no line of the old text, and no value written, ends with a carriage return
/// that `lines` would drop, and the values written hold no line feed.
pub proof fn lemma_updated_content_lines(
    content: Seq<char>,
    status: Seq<char>,
    update_date: bool,
    date: Seq<char>,
)
    requires
        forall|i: int| 0 <= i < lines(content).len() ==> no_trailing_cr(#[trigger] lines(content)[i]),
        no_newline(status),
        no_trailing_cr(status),
        update_date ==> no_newline(date) && no_trailing_cr(date),
    ensures
        lines(updated_content(content, status, update_date, date)) == updated_lines(
            content,
            status,
            update_date,
            date,
        ),
{
    let l0 = lines(content);
    crate::text::lemma_lines_no_newline(content);
    assert(clean_lines(l0));
    assert(no_newline(date_prefix()));
    assert(no_newline(status_prefix()));
    lemma_metadata_line(status_prefix(), status);
    if update_date {
        lemma_metadata_line(date_prefix(), date);
        lemma_upserted_clean(l0, date_prefix(), metadata_line(date_prefix(), date));
    }
    let l1 = dated_lines(content, update_date, date);
    lemma_upserted_clean(l1, status_prefix(), metadata_line(status_prefix(), status));
    lemma_upserted_reads_back(l1, status_prefix(), metadata_line(status_prefix(), status));
    let l2 = updated_lines(content, status, update_date, date);
    crate::text::lemma_join_terminated(l2);
    crate::text::lemma_lines_of_terminated(l2);
    lemma_first_with_prefix(l1, status_prefix(), 0);
    lemma_insert_index_bounds(l1);
    let k: int = match first_with_prefix(l1, status_prefix(), 0) {
        Some(k) => k,
        None => spec_metadata_insert_index(l1),
    };
    assert(l2[k] == metadata_line(status_prefix(), status));
    crate::text::lemma_join_len(l2, seq!['\n'], k);
}

/// After `mod` accepts an ADR, `toc` reads from it the new status and the new
/// date: the value of its `* Status:` line is the status given, and that of its
/// `* Date:` line is the date given, both trimmed. The old text must not have
/// a line that ends with a carriage return `lines` would drop, and the values
/// must be single lines that do not end with one.
pub proof fn law_accepted_adr_reads_back(content: Seq<char>, status: Seq<char>, date: Seq<char>)
    requires
        forall|i: int| 0 <= i < lines(content).len() ==> no_trailing_cr(#[trigger] lines(content)[i]),
        no_newline(status),
        no_trailing_cr(status),
        no_newline(date),
        no_trailing_cr(date),
    ensures
        metadata_value(lines(updated_content(content, status, true, date)), "Status"@) == Some(
            trim(status),
        ),
        metadata_value(lines(updated_content(content, status, true, date)), "Date"@) == Some(
            trim(date),
        ),
{
    lemma_updated_content_lines(content, status, true, date);
    lemma_key_prefixes();
    lemma_prefixes_exclusive();
    lemma_metadata_line(date_prefix(), date);
    lemma_metadata_line(status_prefix(), status);
    let l1 = dated_lines(content, true, date);
    lemma_upserted_reads_back(lines(content), date_prefix(), metadata_line(date_prefix(), date));
    lemma_upserted_reads_back(l1, status_prefix(), metadata_line(status_prefix(), status));
    lemma_upserted_preserves(
        l1,
        status_prefix(),
        metadata_line(status_prefix(), status),
        date_prefix(),
    );
}

/// After `mod` supersedes an ADR, `toc` reads from it the new status, and the
/// same date as before: superseding leaves the date alone, whatever date the
/// request carries. Same conditions on the text and the status as for
/// accepting.
pub proof fn law_superseded_adr_keeps_date(content: Seq<char>, status: Seq<char>, date: Seq<char>)
    requires
        forall|i: int| 0 <= i < lines(content).len() ==> no_trailing_cr(#[trigger] lines(content)[i]),
        no_newline(status),
        no_trailing_cr(status),
    ensures
        metadata_value(lines(updated_content(content, status, false, date)), "Status"@) == Some(
            trim(status),
        ),
        metadata_value(lines(updated_content(content, status, false, date)), "Date"@)
            == metadata_value(lines(content), "Date"@),
{
    lemma_updated_content_lines(content, status, false, date);
    lemma_key_prefixes();
    lemma_prefixes_exclusive();
    lemma_metadata_line(status_prefix(), status);
    lemma_upserted_reads_back(lines(content), status_prefix(), metadata_line(status_prefix(), status));
    lemma_upserted_preserves(
        lines(content),
        status_prefix(),
        metadata_line(status_prefix(), status),
        date_prefix(),
    );
}

/// Setting a line adds a line exactly where it warns: the line count grows by
/// the number of warnings.
proof fn lemma_upserted_len(ls: Seq<Seq<char>>, p: Seq<char>, rep: Seq<char>, key: Seq<char>)
    ensures
        upserted_lines(ls, p, rep).len() == ls.len() + upsert_warnings(ls, p, key).len(),
{
    lemma_first_with_prefix(ls, p, 0);
    lemma_insert_index_bounds(ls);
}

/// What a rewrite of an ADR gives, as a whole: a text that ends with a line
/// feed, that `lines` reads back as the rewritten lines (the status line set,
/// the date line set where asked for, every other line kept in its order), and
/// that has one line more than the old text for each warning, since a missing
/// metadata line is the only thing ever inserted. Same conditions on the text
/// and the values as for reading back.
pub proof fn law_update_shape(
    content: Seq<char>,
    status: Seq<char>,
    update_date: bool,
    date: Seq<char>,
)
    requires
        forall|i: int| 0 <= i < lines(content).len() ==> no_trailing_cr(#[trigger] lines(content)[i]),
        no_newline(status),
        no_trailing_cr(status),
        update_date ==> no_newline(date) && no_trailing_cr(date),
    ensures
        ends_with(updated_content(content, status, update_date, date), seq!['\n']),
        lines(updated_content(content, status, update_date, date)) == updated_lines(
            content,
            status,
            update_date,
            date,
        ),
        updated_lines(content, status, update_date, date).len() == lines(content).len()
            + update_warnings(content, update_date, date).len(),
{
    lemma_updated_content_lines(content, status, update_date, date);
    let sl = metadata_line(status_prefix(), status);
    let l1 = dated_lines(content, update_date, date);
    let l2 = updated_lines(content, status, update_date, date);
    lemma_metadata_line(status_prefix(), status);
    lemma_upserted_finds_line(l1, status_prefix(), sl);
    let k = first_with_prefix(l2, status_prefix(), 0)->0;
    crate::text::lemma_join_len(l2, seq!['\n'], k);
    let c = updated_content(content, status, update_date, date);
    assert(c == join(l2, seq!['\n']).push('\n'));
    assert(c.skip(c.len() - 1) =~= seq!['\n']);
    if update_date {
        lemma_upserted_len(lines(content), date_prefix(), metadata_line(date_prefix(), date), "Date"@);
    }
    lemma_upserted_len(l1, status_prefix(), sl, "Status"@);
}

proof fn lemma_fwp_at(ls: Seq<Seq<char>>, p: Seq<char>, i: int, k: int)
    requires
        0 <= i <= k < ls.len(),
        starts_with(ls[k], p),
        forall|t: int| i <= t < k ==> !starts_with(#[trigger] ls[t], p),
    ensures
        first_with_prefix(ls, p, i) == Some(k),
    decreases k - i,
{
    if i < k {
        assert(!starts_with(ls[i], p));
        lemma_fwp_at(ls, p, i + 1, k);
    }
}

proof fn lemma_fwp_update(ls: Seq<Seq<char>>, q: Seq<char>, k: int, x: Seq<char>, i: int)
    requires
        0 <= i,
        0 <= k < ls.len(),
        !starts_with(ls[k], q),
        !starts_with(x, q),
    ensures
        first_with_prefix(ls.update(k, x), q, i) == first_with_prefix(ls, q, i),
    decreases ls.len() - i,
{
    if i < ls.len() {
        lemma_fwp_update(ls, q, k, x, i + 1);
    }
}

/// An index moved by an insertion at `m`.
pub open spec fn shifted(r: Option<int>, m: int) -> Option<int> {
    match r {
        Some(j) => Some(
            if j >= m {
                j + 1
            } else {
                j
            },
        ),
        None => None,
    }
}

proof fn lemma_fwp_shift(ls: Seq<Seq<char>>, q: Seq<char>, m: int, x: Seq<char>, j: int)
    requires
        0 <= m <= j,
        m <= ls.len(),
    ensures
        first_with_prefix(ls.insert(m, x), q, j + 1) == shifted(first_with_prefix(ls, q, j), m),
    decreases ls.len() - j,
{
    if j < ls.len() {
        assert(ls.insert(m, x)[j + 1] == ls[j]);
        lemma_fwp_shift(ls, q, m, x, j + 1);
    }
}

proof fn lemma_fwp_insert(ls: Seq<Seq<char>>, q: Seq<char>, m: int, x: Seq<char>, i: int)
    requires
        0 <= i <= m <= ls.len(),
        !starts_with(x, q),
    ensures
        first_with_prefix(ls.insert(m, x), q, i) == shifted(first_with_prefix(ls, q, i), m),
    decreases m - i,
{
    if i < m {
        assert(ls.insert(m, x)[i] == ls[i]);
        lemma_fwp_insert(ls, q, m, x, i + 1);
    } else {
        assert(ls.insert(m, x)[m] == x);
        lemma_fwp_shift(ls, q, m, x, m);
    }
}

/// After a metadata line is set, the first line with its prefix is that line.
proof fn lemma_upserted_finds_line(ls: Seq<Seq<char>>, p: Seq<char>, rep: Seq<char>)
    requires
        starts_with(rep, p),
    ensures
        first_with_prefix(upserted_lines(ls, p, rep), p, 0) matches Some(k) && 0 <= k < upserted_lines(
            ls,
            p,
            rep,
        ).len() && upserted_lines(ls, p, rep)[k] == rep,
{
    lemma_first_with_prefix(ls, p, 0);
    let out = upserted_lines(ls, p, rep);
    match first_with_prefix(ls, p, 0) {
        Some(k) => {
            assert forall|t: int| 0 <= t < k implies !starts_with(#[trigger] out[t], p) by {
                assert(out[t] == ls[t]);
            }
            lemma_fwp_at(out, p, 0, k);
        },
        None => {
            lemma_insert_index_bounds(ls);
            let m = spec_metadata_insert_index(ls);
            assert forall|t: int| 0 <= t < m implies !starts_with(#[trigger] out[t], p) by {
                assert(out[t] == ls[t]);
            }
            lemma_fwp_at(out, p, 0, m);
        },
    }
}

/// Setting the line of one prefix keeps the first line of another prefix.
proof fn lemma_upserted_keeps_line(
    ls: Seq<Seq<char>>,
    p: Seq<char>,
    rep: Seq<char>,
    q: Seq<char>,
    x: Seq<char>,
)
    requires
        forall|y: Seq<char>| starts_with(y, p) ==> !starts_with(y, q),
        !starts_with(rep, q),
        first_with_prefix(ls, q, 0) matches Some(j) && 0 <= j < ls.len() && ls[j] == x,
    ensures
        first_with_prefix(upserted_lines(ls, p, rep), q, 0) matches Some(j) && 0 <= j
            < upserted_lines(ls, p, rep).len() && upserted_lines(ls, p, rep)[j] == x,
{
    lemma_first_with_prefix(ls, p, 0);
    lemma_first_with_prefix(ls, q, 0);
    let j = first_with_prefix(ls, q, 0)->0;
    match first_with_prefix(ls, p, 0) {
        Some(k) => {
            assert(!starts_with(ls[k], q));
            lemma_fwp_update(ls, q, k, rep, 0);
            assert(j != k);
        },
        None => {
            lemma_insert_index_bounds(ls);
            let m = spec_metadata_insert_index(ls);
            lemma_fwp_insert(ls, q, m, rep, 0);
            if j >= m {
                assert(ls.insert(m, rep)[j + 1] == ls[j]);
            } else {
                assert(ls.insert(m, rep)[j] == ls[j]);
            }
        },
    }
}

/// Setting a line to what the first line of its prefix already is changes nothing.
proof fn lemma_upserted_same(ls: Seq<Seq<char>>, p: Seq<char>, rep: Seq<char>)
    requires
        first_with_prefix(ls, p, 0) matches Some(k) && 0 <= k < ls.len() && ls[k] == rep,
    ensures
        upserted_lines(ls, p, rep) == ls,
        upsert_warnings(ls, p, "Date"@).len() == 0,
        upsert_warnings(ls, p, "Status"@).len() == 0,
{
    let k = first_with_prefix(ls, p, 0)->0;
    assert(ls.update(k, rep) =~= ls);
}

/// Rewriting an ADR a second time with the same status and date changes nothing
/// more and gives no warnings: running `mod` twice leaves the file as running
/// it once did. Same conditions on the text and the values as for reading back.
pub proof fn law_update_is_idempotent(
    content: Seq<char>,
    status: Seq<char>,
    update_date: bool,
    date: Seq<char>,
)
    requires
        forall|i: int| 0 <= i < lines(content).len() ==> no_trailing_cr(#[trigger] lines(content)[i]),
        no_newline(status),
        no_trailing_cr(status),
        update_date ==> no_newline(date) && no_trailing_cr(date),
    ensures
        updated_content(updated_content(content, status, update_date, date), status, update_date, date)
            == updated_content(content, status, update_date, date),
        update_warnings(updated_content(content, status, update_date, date), update_date, date).len()
            == 0,
{
    let c1 = updated_content(content, status, update_date, date);
    let l2 = updated_lines(content, status, update_date, date);
    let dl = metadata_line(date_prefix(), date);
    let sl = metadata_line(status_prefix(), status);
    lemma_updated_content_lines(content, status, update_date, date);
    assert(lines(c1) == l2);
    lemma_prefixes_exclusive();
    lemma_metadata_line(status_prefix(), status);
    let l1 = dated_lines(content, update_date, date);
    lemma_upserted_finds_line(l1, status_prefix(), sl);
    if update_date {
        lemma_metadata_line(date_prefix(), date);
        lemma_upserted_finds_line(lines(content), date_prefix(), dl);
        let j = first_with_prefix(l1, date_prefix(), 0)->0;
        lemma_upserted_keeps_line(l1, status_prefix(), sl, date_prefix(), dl);
        lemma_upserted_same(l2, date_prefix(), dl);
        assert(dated_lines(c1, update_date, date) == l2);
    } else {
        assert(dated_lines(c1, update_date, date) == l2);
    }
    lemma_upserted_same(l2, status_prefix(), sl);
    assert(updated_lines(c1, status, update_date, date) == l2);
    let k = first_with_prefix(l2, status_prefix(), 0)->0;
    crate::text::lemma_join_len(l2, seq!['\n'], k);
    assert(c1 == join(l2, seq!['\n']).push('\n'));
    assert(update_warnings(c1, update_date, date) =~= Seq::<Seq<char>>::empty());
}

/// What `mod -s` writes into the superseded ADR is what `toc` expects of a
/// superseded ADR: a well-formed `SUPERSEDED by <id>` status, valid wherever
/// `SUPERSEDED` is a listed status, shown struck through and naming the ADR
/// that superseded it.
pub proof fn law_superseded_status_is_understood(id: u32)
    ensures
        crate::toc::spec_is_valid_superseded_status(superseded_status(id)),
        crate::toc::spec_style_for_status(superseded_status(id)) == crate::toc::RenderStyle::Strike,
        crate::toc::spec_superseded_by_id(superseded_status(id)) == Some(id_text(id)),
        forall|valid: Seq<Seq<char>>, f: Seq<char>|
            valid.contains(crate::toc::word_superseded()) ==> #[trigger] crate::toc::status_warnings(
                Some(superseded_status(id)),
                valid,
                f,
            ) == Seq::<Seq<char>>::empty(),
{
    reveal_strlit("SUPERSEDED by ");
    assert(superseded_status(id) =~= crate::toc::word_superseded() + crate::toc::by_separator()
        + id_text(id));
    crate::id::lemma_id_text_digits(id);
    let t = id_text(id);
    assert(crate::text::is_digit(t[0]));
    assert(crate::text::is_digit(t.last()));
    crate::toc::law_superseded_is_struck_and_names_successor(t);
}

} // verus!
