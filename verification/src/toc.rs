//! The `toc` command: parsing ADR documents, checking them, and rendering the
//! overview document `adr-overview.md`.

use vstd::prelude::*;
use crate::id::{
    extract_id_from_filename, file_id_digits, format_id, format_id_width, id_text, listed_id,
    padded_id, parse_digits, parse_u32_digits, spec_extract_id, spec_file_id_digits,
    spec_listed_id,
};
use crate::text::{
    all_ascii_digits, all_digits, chars_eq, chars_of, contains_chars, split_once, split_once_chars,
    starts_with, starts_with_chars, string_of, strip_prefix_chars, trim, trim_chars, trim_str,
    views, lines, lines_of, slice_chars,
};

verus! {

/// The view of an optional string.
pub open spec fn opt_view(o: Option<String>) -> Option<Seq<char>> {
    match o {
        Some(s) => Some(s@),
        None => None,
    }
}

/// The view of an optional string slice.
pub open spec fn opt_str_view(o: Option<&str>) -> Option<Seq<char>> {
    match o {
        Some(s) => Some(s@),
        None => None,
    }
}

// ---------------------------------------------------------------------------
// Warning texts

pub open spec fn msg_missing_header(f: Seq<char>) -> Seq<char> {
    "missing header line in '"@ + f + "'"@
}

pub open spec fn msg_invalid_header(f: Seq<char>) -> Seq<char> {
    "invalid header format in '"@ + f + "': expected '# ADR<ID> - <TITLE>'"@
}

pub open spec fn msg_invalid_header_id(f: Seq<char>) -> Seq<char> {
    "invalid ADR ID in header of '"@ + f + "'"@
}

pub open spec fn msg_missing_title(f: Seq<char>) -> Seq<char> {
    "missing title value in header of '"@ + f + "'"@
}

pub open spec fn msg_id_mismatch(f: Seq<char>, file_id: u32, doc_id: u32) -> Seq<char> {
    "ID mismatch in '"@ + f + "': file ID "@ + id_text(file_id) + " but header ID "@ + id_text(doc_id)
}

pub open spec fn msg_missing_metadata(key: Seq<char>, f: Seq<char>) -> Seq<char> {
    "missing metadata line '* "@ + key + ":' in '"@ + f + "'"@
}

pub open spec fn msg_invalid_date(date: Seq<char>, f: Seq<char>) -> Seq<char> {
    "invalid date '"@ + date + "' in '"@ + f + "': expected YYYY-MM-DD"@
}

pub open spec fn msg_invalid_status(status: Seq<char>, f: Seq<char>) -> Seq<char> {
    "invalid status '"@ + status + "' in '"@ + f + "': not listed in .adr-status"@
}

pub open spec fn msg_invalid_superseded(status: Seq<char>, f: Seq<char>) -> Seq<char> {
    "invalid superseded status '"@ + status + "' in '"@ + f + "': expected 'SUPERSEDED by <id>'"@
}

pub open spec fn msg_empty_author(f: Seq<char>) -> Seq<char> {
    "empty author value in '"@ + f + "'"@
}

pub open spec fn msg_missing_in_sequence(id: u32, width: nat) -> Seq<char> {
    "missing ADR ID in sequence: "@ + padded_id(id, width)
}

// ---------------------------------------------------------------------------
// Fixed words

/// `# ADR`, the start of an ADR header line.
pub open spec fn header_prefix() -> Seq<char> {
    seq!['#', ' ', 'A', 'D', 'R']
}

/// ` - `, between the id and the title of a header line.
pub open spec fn header_separator() -> Seq<char> {
    seq![' ', '-', ' ']
}

/// ` by `, between `SUPERSEDED` and the superseding id.
pub open spec fn by_separator() -> Seq<char> {
    seq![' ', 'b', 'y', ' ']
}

pub open spec fn word_superseded() -> Seq<char> {
    seq!['S', 'U', 'P', 'E', 'R', 'S', 'E', 'D', 'E', 'D']
}

pub open spec fn word_expired() -> Seq<char> {
    seq!['E', 'X', 'P', 'I', 'R', 'E', 'D']
}

pub open spec fn word_draft() -> Seq<char> {
    seq!['D', 'R', 'A', 'F', 'T']
}

pub open spec fn word_proposed() -> Seq<char> {
    seq!['P', 'R', 'O', 'P', 'O', 'S', 'E', 'D']
}

fn by_separator_chars() -> (v: Vec<char>)
    ensures
        v@ == by_separator(),
{
    let v = vec![' ', 'b', 'y', ' '];
    assert(v@ =~= by_separator());
    v
}

fn superseded_chars() -> (v: Vec<char>)
    ensures
        v@ == word_superseded(),
{
    let v = vec!['S', 'U', 'P', 'E', 'R', 'S', 'E', 'D', 'E', 'D'];
    assert(v@ =~= word_superseded());
    v
}

// ---------------------------------------------------------------------------
// Header line

/// What the header line `# ADR<ID> - <TITLE>` of an ADR yields: the id written
/// in it, the title, and the warnings about it.
pub open spec fn spec_parse_header(header: Option<Seq<char>>, f: Seq<char>) -> (
    Option<u32>,
    Option<Seq<char>>,
    Seq<Seq<char>>,
) {
    match header {
        None => (None, None, seq![msg_missing_header(f)]),
        Some(h) => {
            if !starts_with(h, header_prefix()) {
                (None, None, seq![msg_invalid_header(f)])
            } else {
                match split_once(h.skip(5), header_separator()) {
                    None => (None, None, seq![msg_invalid_header(f)]),
                    Some((id_part, title_part)) => {
                        if id_part.len() == 0 || !all_digits(id_part) {
                            (None, Some(trim(title_part)), seq![msg_invalid_header_id(f)])
                        } else {
                            let doc_id = parse_digits(id_part);
                            let w: Seq<Seq<char>> = if doc_id is None {
                                seq![msg_invalid_header_id(f)]
                            } else {
                                seq![]
                            };
                            let title = trim(title_part);
                            if title.len() == 0 {
                                (doc_id, None, w.push(msg_missing_title(f)))
                            } else {
                                (doc_id, Some(title), w)
                            }
                        }
                    },
                }
            }
        },
    }
}

fn push_message(warnings: &mut Vec<String>, m: String)
    ensures
        views(final(warnings)@) == views(old(warnings)@).push(m@),
{
    let ghost before = views(warnings@);
    warnings.push(m);
    assert(views(warnings@) =~= before.push(m@));
}

fn file_message(front: &str, f: &str, back: &str) -> (m: String)
    ensures
        m@ == front@ + f@ + back@,
{
    let mut m = String::from_str(front);
    m.append(f);
    m.append(back);
    m
}

/// Reads the header line of an ADR: the id written in it and the title; each
/// problem found is added to `warnings`.
pub fn parse_header(header: Option<&str>, file_name: &str, warnings: &mut Vec<String>) -> (r: (
    Option<u32>,
    Option<String>,
))
    ensures
        r.0 == spec_parse_header(opt_str_view(header), file_name@).0,
        opt_view(r.1) == spec_parse_header(opt_str_view(header), file_name@).1,
        views(final(warnings)@) == views(old(warnings)@) + spec_parse_header(
            opt_str_view(header),
            file_name@,
        ).2,
{
    let ghost spec_r = spec_parse_header(opt_str_view(header), file_name@);
    let ghost before = views(warnings@);
    let header = match header {
        None => {
            push_message(warnings, file_message("missing header line in '", file_name, "'"));
            assert(views(warnings@) =~= before + spec_r.2);
            return (None, None);
        },
        Some(h) => h,
    };
    let h = chars_of(header);
    let prefix = vec!['#', ' ', 'A', 'D', 'R'];
    assert(prefix@ =~= header_prefix());
    let rest = match strip_prefix_chars(&h, &prefix) {
        None => {
            push_message(
                warnings,
                file_message(
                    "invalid header format in '",
                    file_name,
                    "': expected '# ADR<ID> - <TITLE>'",
                ),
            );
            assert(views(warnings@) =~= before + spec_r.2);
            return (None, None);
        },
        Some(rest) => rest,
    };
    let sep = vec![' ', '-', ' '];
    assert(sep@ =~= header_separator());
    let (id_part, title_part) = match split_once_chars(&rest, &sep) {
        None => {
            push_message(
                warnings,
                file_message(
                    "invalid header format in '",
                    file_name,
                    "': expected '# ADR<ID> - <TITLE>'",
                ),
            );
            assert(views(warnings@) =~= before + spec_r.2);
            return (None, None);
        },
        Some(parts) => parts,
    };
    if id_part.len() == 0 || !all_ascii_digits(&id_part) {
        push_message(warnings, file_message("invalid ADR ID in header of '", file_name, "'"));
        assert(views(warnings@) =~= before + spec_r.2);
        return (None, Some(string_of(trim_chars(&title_part))));
    }
    let doc_id = parse_u32_digits(&id_part);
    if doc_id.is_none() {
        push_message(warnings, file_message("invalid ADR ID in header of '", file_name, "'"));
    }
    let title = trim_chars(&title_part);
    if title.len() == 0 {
        push_message(warnings, file_message("missing title value in header of '", file_name, "'"));
        assert(views(warnings@) =~= before + spec_r.2);
        (doc_id, None)
    } else {
        assert(views(warnings@) =~= before + spec_r.2);
        (doc_id, Some(string_of(title)))
    }
}

// ---------------------------------------------------------------------------
// Metadata lines

/// `* <key>:`, the start of the metadata line for `key`.
pub open spec fn metadata_prefix(key: Seq<char>) -> Seq<char> {
    seq!['*', ' '] + key + seq![':']
}

/// The trimmed value of the first line from index `i` on that starts with `prefix`.
pub open spec fn first_metadata_from(ls: Seq<Seq<char>>, prefix: Seq<char>, i: int) -> Option<
    Seq<char>,
>
    decreases ls.len() - i,
{
    if i < 0 || i >= ls.len() {
        None
    } else if starts_with(ls[i], prefix) {
        Some(trim(ls[i].skip(prefix.len() as int)))
    } else {
        first_metadata_from(ls, prefix, i + 1)
    }
}

/// The value of the metadata line `* <key>: <value>`: the first such line counts.
pub open spec fn metadata_value(ls: Seq<Seq<char>>, key: Seq<char>) -> Option<Seq<char>> {
    first_metadata_from(ls, metadata_prefix(key), 0)
}

pub open spec fn metadata_warnings(value: Option<Seq<char>>, key: Seq<char>, f: Seq<char>) -> Seq<
    Seq<char>,
> {
    if value is None {
        seq![msg_missing_metadata(key, f)]
    } else {
        seq![]
    }
}

/// Finds the metadata line `* <key>: <value>` among `lines` and returns its
/// trimmed value; where there is none, a warning is added.
pub fn extract_metadata_value(
    lines: &[String],
    key: &str,
    file_name: &str,
    warnings: &mut Vec<String>,
) -> (r: Option<String>)
    ensures
        opt_view(r) == metadata_value(views(lines@), key@),
        views(final(warnings)@) == views(old(warnings)@) + metadata_warnings(
            metadata_value(views(lines@), key@),
            key@,
            file_name@,
        ),
{
    let ghost ls = views(lines@);
    let mut prefix = vec!['*', ' '];
    let kc = chars_of(key);
    let mut k: usize = 0;
    while k < kc.len()
        invariant
            0 <= k <= kc@.len(),
            prefix@ == seq!['*', ' '] + kc@.take(k as int),
        decreases kc@.len() - k,
    {
        prefix.push(kc[k]);
        k = k + 1;
        assert(prefix@ =~= seq!['*', ' '] + kc@.take(k as int));
    }
    prefix.push(':');
    assert(kc@.take(kc@.len() as int) =~= kc@);
    assert(prefix@ =~= metadata_prefix(key@));
    let mut i: usize = 0;
    while i < lines.len()
        invariant
            0 <= i <= lines@.len(),
            ls == views(lines@),
            prefix@ == metadata_prefix(key@),
            metadata_value(ls, key@) == first_metadata_from(ls, prefix@, i as int),
        decreases lines@.len() - i,
    {
        let line = chars_of(lines[i].as_str());
        assert(line@ == ls[i as int]);
        if starts_with_chars(&line, &prefix) {
            let rest = slice_chars(&line, prefix.len(), line.len());
            assert(rest@ =~= ls[i as int].skip(prefix@.len() as int));
            return Some(string_of(trim_chars(&rest)));
        }
        i = i + 1;
    }
    let mut m = String::from_str("missing metadata line '* ");
    m.append(key);
    m.append(":' in '");
    m.append(file_name);
    m.append("'");
    push_message(warnings, m);
    None
}

// ---------------------------------------------------------------------------
// Checks of metadata values

/// Whether chrono reads `text` as a date in the format `%Y-%m-%d`.
pub uninterp spec fn date_parses(text: Seq<char>) -> bool;

/// Whether `text` is a date in the format `%Y-%m-%d`.
///
/// Trusted: calls `chrono::NaiveDate::parse_from_str(text, "%Y-%m-%d")` and
/// reports whether it succeeded. What chrono accepts is not restated here; it
/// is named `date_parses`, a function of the text alone.
#[verifier::external_body]
fn parses_as_date(text: &str) -> (ok: bool)
    ensures
        ok == date_parses(text@),
{
    chrono::NaiveDate::parse_from_str(text, "%Y-%m-%d").is_ok()
}

pub open spec fn date_warnings(date: Option<Seq<char>>, f: Seq<char>) -> Seq<Seq<char>> {
    match date {
        Some(d) => if date_parses(d) {
            seq![]
        } else {
            seq![msg_invalid_date(d, f)]
        },
        None => seq![],
    }
}

/// Adds a warning where a date is present and is not a `YYYY-MM-DD` date.
pub fn validate_date(date: Option<&str>, file_name: &str, warnings: &mut Vec<String>)
    ensures
        views(final(warnings)@) == views(old(warnings)@) + date_warnings(
            opt_str_view(date),
            file_name@,
        ),
{
    let ghost before = views(warnings@);
    if let Some(d) = date {
        if !parses_as_date(d) {
            let mut m = String::from_str("invalid date '");
            m.append(d);
            m.append("' in '");
            m.append(file_name);
            m.append("': expected YYYY-MM-DD");
            push_message(warnings, m);
            return;
        }
    }
    assert(views(warnings@) =~= before + date_warnings(opt_str_view(date), file_name@));
}

/// The status word of a status value: what precedes ` by `, trimmed.
pub open spec fn base_status(status: Seq<char>) -> Seq<char> {
    trim(
        match split_once(status, by_separator()) {
            Some((left, _)) => left,
            None => status,
        },
    )
}

/// A superseded status is `SUPERSEDED` alone or `SUPERSEDED by <digits>`.
pub open spec fn spec_is_valid_superseded_status(status: Seq<char>) -> bool {
    if trim(status) == word_superseded() {
        true
    } else {
        match split_once(status, by_separator()) {
            None => false,
            Some((left, right)) => trim(left) == word_superseded() && trim(right).len() > 0
                && all_digits(trim(right)),
        }
    }
}

pub open spec fn status_warnings(
    status: Option<Seq<char>>,
    valid_statuses: Seq<Seq<char>>,
    f: Seq<char>,
) -> Seq<Seq<char>> {
    match status {
        None => seq![],
        Some(s) => {
            let base = base_status(s);
            let unknown: Seq<Seq<char>> = if valid_statuses.contains(base) {
                seq![]
            } else {
                seq![msg_invalid_status(s, f)]
            };
            let superseded: Seq<Seq<char>> = if base == word_superseded()
                && !spec_is_valid_superseded_status(s) {
                seq![msg_invalid_superseded(s, f)]
            } else {
                seq![]
            };
            unknown + superseded
        },
    }
}

/// Whether a status is a well-formed superseded status.
pub fn is_valid_superseded_status(status: &str) -> (r: bool)
    ensures
        r == spec_is_valid_superseded_status(status@),
{
    let s = chars_of(status);
    let word = superseded_chars();
    if chars_eq(&trim_chars(&s), &word) {
        return true;
    }
    match split_once_chars(&s, &by_separator_chars()) {
        None => false,
        Some((left, right)) => {
            let right = trim_chars(&right);
            chars_eq(&trim_chars(&left), &word) && right.len() > 0 && all_ascii_digits(&right)
        },
    }
}

fn base_status_chars(s: &Vec<char>) -> (r: Vec<char>)
    ensures
        r@ == base_status(s@),
{
    match split_once_chars(s, &by_separator_chars()) {
        Some((left, _)) => trim_chars(&left),
        None => trim_chars(s),
    }
}

/// Adds a warning where a status is present and its status word is not among
/// `valid_statuses`, and one where it is `SUPERSEDED` in a malformed way.
pub fn validate_status(
    status: Option<&str>,
    valid_statuses: &[String],
    file_name: &str,
    warnings: &mut Vec<String>,
)
    ensures
        views(final(warnings)@) == views(old(warnings)@) + status_warnings(
            opt_str_view(status),
            views(valid_statuses@),
            file_name@,
        ),
{
    let ghost before = views(warnings@);
    let status = match status {
        None => {
            assert(views(warnings@) =~= before + seq![]);
            return;
        },
        Some(s) => s,
    };
    let base = base_status_chars(&chars_of(status));
    if !contains_chars(valid_statuses, &base) {
        let mut m = String::from_str("invalid status '");
        m.append(status);
        m.append("' in '");
        m.append(file_name);
        m.append("': not listed in .adr-status");
        push_message(warnings, m);
    }
    let ghost middle = views(warnings@);
    if chars_eq(&base, &superseded_chars()) && !is_valid_superseded_status(status) {
        let mut m = String::from_str("invalid superseded status '");
        m.append(status);
        m.append("' in '");
        m.append(file_name);
        m.append("': expected 'SUPERSEDED by <id>'");
        push_message(warnings, m);
    }
    assert(views(warnings@) =~= before + status_warnings(
        opt_str_view(Some(status)),
        views(valid_statuses@),
        file_name@,
    ));
}

pub open spec fn author_warnings(author: Option<Seq<char>>, f: Seq<char>) -> Seq<Seq<char>> {
    match author {
        Some(a) => if trim(a).len() == 0 {
            seq![msg_empty_author(f)]
        } else {
            seq![]
        },
        None => seq![],
    }
}

/// Adds a warning where an author is present and blank.
pub fn validate_author(author: Option<&str>, file_name: &str, warnings: &mut Vec<String>)
    ensures
        views(final(warnings)@) == views(old(warnings)@) + author_warnings(
            opt_str_view(author),
            file_name@,
        ),
{
    let ghost before = views(warnings@);
    if let Some(a) = author {
        if trim_chars(&chars_of(a)).len() == 0 {
            push_message(warnings, file_message("empty author value in '", file_name, "'"));
            return;
        }
    }
    assert(views(warnings@) =~= before + author_warnings(opt_str_view(author), file_name@));
}

// ---------------------------------------------------------------------------
// ADR records

/// What `toc` reads from one ADR file.
#[derive(Debug, Clone, PartialEq, Eq)]
pub struct AdrRecord {
    pub id: u32,
    pub file_name: String,
    pub title: Option<String>,
    pub date: Option<String>,
    pub status: Option<String>,
    pub author: Option<String>,
    pub labels: Option<String>,
    pub warnings: Vec<String>,
}

/// An ADR record as mathematical values.
pub struct RecordView {
    pub id: u32,
    pub file_name: Seq<char>,
    pub title: Option<Seq<char>>,
    pub date: Option<Seq<char>>,
    pub status: Option<Seq<char>>,
    pub author: Option<Seq<char>>,
    pub labels: Option<Seq<char>>,
    pub warnings: Seq<Seq<char>>,
}

impl View for AdrRecord {
    type V = RecordView;

    open spec fn view(&self) -> RecordView {
        RecordView {
            id: self.id,
            file_name: self.file_name@,
            title: opt_view(self.title),
            date: opt_view(self.date),
            status: opt_view(self.status),
            author: opt_view(self.author),
            labels: opt_view(self.labels),
            warnings: views(self.warnings@),
        }
    }
}

/// The first line of a document, if it has one.
pub open spec fn header_line(ls: Seq<Seq<char>>) -> Option<Seq<char>> {
    if ls.len() > 0 {
        Some(ls[0])
    } else {
        None
    }
}

pub open spec fn mismatch_warnings(doc_id: Option<u32>, file_id: u32, f: Seq<char>) -> Seq<
    Seq<char>,
> {
    match doc_id {
        Some(d) => if d != file_id {
            seq![msg_id_mismatch(f, file_id, d)]
        } else {
            seq![]
        },
        None => seq![],
    }
}

/// The record of the ADR file `f` with id `file_id` and text `content`, checked
/// against the status words `valid_statuses`. Its warnings come in this order:
/// the header, the id written in the header against the id of the file name,
/// the presence of the date, status, author and labels lines, and the values of
/// the date, status and author.
pub open spec fn spec_parse_adr(
    file_id: u32,
    f: Seq<char>,
    content: Seq<char>,
    valid_statuses: Seq<Seq<char>>,
) -> RecordView {
    let ls = lines(content);
    let h = spec_parse_header(header_line(ls), f);
    let date = metadata_value(ls, "Date"@);
    let status = metadata_value(ls, "Status"@);
    let author = metadata_value(ls, "Author"@);
    let labels = metadata_value(ls, "Labels"@);
    RecordView {
        id: file_id,
        file_name: f,
        title: h.1,
        date,
        status,
        author,
        labels,
        warnings: h.2 + mismatch_warnings(h.0, file_id, f) + metadata_warnings(date, "Date"@, f)
            + metadata_warnings(status, "Status"@, f) + metadata_warnings(author, "Author"@, f)
            + metadata_warnings(labels, "Labels"@, f) + date_warnings(date, f) + status_warnings(
            status,
            valid_statuses,
            f,
        ) + author_warnings(author, f),
    }
}

fn as_opt_str(o: &Option<String>) -> (r: Option<&str>)
    ensures
        opt_str_view(r) == opt_view(*o),
{
    match o {
        Some(s) => Some(s.as_str()),
        None => None,
    }
}

/// Reads one ADR document: its title and metadata values, and the warnings
/// about its header, its id and its metadata.
pub fn parse_adr(file_id: u32, file_name: &str, content: &str, valid_statuses: &[String]) -> (r:
    AdrRecord)
    ensures
        r@ == spec_parse_adr(file_id, file_name@, content@, views(valid_statuses@)),
{
    let mut warnings: Vec<String> = Vec::new();
    let lines = lines_of(content);
    let ghost ls = views(lines@);
    assert(ls == crate::text::lines(content@));
    let header: Option<&str> = if lines.len() > 0 {
        Some(lines[0].as_str())
    } else {
        None
    };
    assert(opt_str_view(header) == header_line(ls));
    let (doc_id, title) = parse_header(header, file_name, &mut warnings);
    let ghost w0 = views(warnings@);
    if let Some(d) = doc_id {
        if d != file_id {
            let mut m = String::from_str("ID mismatch in '");
            m.append(file_name);
            m.append("': file ID ");
            let a = format_id(file_id);
            m.append(a.as_str());
            m.append(" but header ID ");
            let b = format_id(d);
            m.append(b.as_str());
            push_message(&mut warnings, m);
        }
    }
    assert(views(warnings@) =~= w0 + mismatch_warnings(doc_id, file_id, file_name@));
    let date = extract_metadata_value(lines.as_slice(), "Date", file_name, &mut warnings);
    let status = extract_metadata_value(lines.as_slice(), "Status", file_name, &mut warnings);
    let author = extract_metadata_value(lines.as_slice(), "Author", file_name, &mut warnings);
    let labels = extract_metadata_value(lines.as_slice(), "Labels", file_name, &mut warnings);
    validate_date(as_opt_str(&date), file_name, &mut warnings);
    validate_status(as_opt_str(&status), valid_statuses, file_name, &mut warnings);
    validate_author(as_opt_str(&author), file_name, &mut warnings);
    let r = AdrRecord {
        id: file_id,
        file_name: String::from_str(file_name),
        title,
        date,
        status,
        author,
        labels,
        warnings,
    };
    assert(r@.warnings =~= spec_parse_adr(file_id, file_name@, content@, views(valid_statuses@)).warnings);
    r
}

// ---------------------------------------------------------------------------
// Missing ids

/// The ids of the records.
pub open spec fn record_ids(rs: Seq<AdrRecord>) -> Seq<u32> {
    rs.map_values(|r: AdrRecord| r.id)
}

pub open spec fn min_id(ids: Seq<u32>) -> u32
    decreases ids.len(),
{
    if ids.len() <= 1 {
        ids[0]
    } else if ids.last() < min_id(ids.drop_last()) {
        ids.last()
    } else {
        min_id(ids.drop_last())
    }
}

pub open spec fn max_id(ids: Seq<u32>) -> u32
    decreases ids.len(),
{
    if ids.len() <= 1 {
        ids[0]
    } else if ids.last() > max_id(ids.drop_last()) {
        ids.last()
    } else {
        max_id(ids.drop_last())
    }
}

/// One warning for each id from `e` up to `hi` that is not among `ids`, in
/// increasing order, each id written in `width` digits.
pub open spec fn missing_ids_from(ids: Seq<u32>, e: int, hi: int, width: nat) -> Seq<Seq<char>>
    decreases hi + 1 - e,
{
    if e > hi {
        seq![]
    } else {
        (if ids.contains(e as u32) {
            seq![]
        } else {
            seq![msg_missing_in_sequence(e as u32, width)]
        }) + missing_ids_from(ids, e + 1, hi, width)
    }
}

/// The warnings about gaps in the ids: one for each id between the smallest and
/// the largest id that no record has, written in `width` digits.
pub open spec fn spec_sequence_warnings(ids: Seq<u32>, width: nat) -> Seq<Seq<char>> {
    if ids.len() == 0 {
        seq![]
    } else {
        missing_ids_from(ids, min_id(ids) as int, max_id(ids) as int, width)
    }
}

/// The file names of the records.
pub open spec fn record_names(rs: Seq<AdrRecord>) -> Seq<Seq<char>> {
    rs.map_values(|r: AdrRecord| r.file_name@)
}

/// How many id digits a file name has: none where it is not an ADR file name.
pub open spec fn id_digit_count(name: Seq<char>) -> nat {
    match spec_file_id_digits(name) {
        Some(d) => d.len(),
        None => 0,
    }
}

/// The width in which missing ids are written: that of the longest id digits
/// among the file names, and never fewer than three digits.
pub open spec fn id_width(names: Seq<Seq<char>>) -> nat
    decreases names.len(),
{
    if names.len() == 0 {
        3
    } else if id_digit_count(names.last()) > id_width(names.drop_last()) {
        id_digit_count(names.last())
    } else {
        id_width(names.drop_last())
    }
}

/// The width in which the missing ids of these records are written.
fn records_id_width(records: &[AdrRecord]) -> (w: usize)
    ensures
        w == id_width(record_names(records@)),
{
    let ghost names = record_names(records@);
    let mut w: usize = 3;
    let mut i: usize = 0;
    assert(names.take(0) =~= Seq::<Seq<char>>::empty());
    while i < records.len()
        invariant
            0 <= i <= records@.len(),
            names == record_names(records@),
            w == id_width(names.take(i as int)),
        decreases records@.len() - i,
    {
        assert(names.take(i + 1).drop_last() =~= names.take(i as int));
        assert(names.take(i + 1).last() == records@[i as int].file_name@);
        match file_id_digits(records[i].file_name.as_str()) {
            Some(d) => {
                if d.len() > w {
                    w = d.len();
                }
            },
            None => {},
        }
        i = i + 1;
    }
    assert(names.take(records@.len() as int) =~= names);
    w
}

fn has_record_id(records: &[AdrRecord], e: u32) -> (r: bool)
    ensures
        r == record_ids(records@).contains(e),
{
    let ghost ids = record_ids(records@);
    let mut i: usize = 0;
    while i < records.len()
        invariant
            0 <= i <= records@.len(),
            ids == record_ids(records@),
            forall|t: int| 0 <= t < i ==> ids[t] != e,
        decreases records@.len() - i,
    {
        if records[i].id == e {
            assert(ids[i as int] == e);
            return true;
        }
        i = i + 1;
    }
    false
}

/// Warns about each id that is missing from the sequence of ADR ids, between
/// the smallest and the largest id present.
pub fn collect_sequence_warnings(records: &[AdrRecord]) -> (r: Vec<String>)
    ensures
        views(r@) == spec_sequence_warnings(record_ids(records@), id_width(record_names(records@))),
{
    let width = records_id_width(records);
    let ghost wn = width as nat;
    let mut out: Vec<String> = Vec::new();
    if records.len() == 0 {
        assert(views(out@) =~= seq![]);
        return out;
    }
    let ghost ids = record_ids(records@);
    let mut lo: u32 = records[0].id;
    let mut hi: u32 = records[0].id;
    let mut i: usize = 1;
    assert(ids.take(1).drop_last() =~= Seq::<u32>::empty());
    while i < records.len()
        invariant
            1 <= i <= records@.len(),
            ids == record_ids(records@),
            lo == min_id(ids.take(i as int)),
            hi == max_id(ids.take(i as int)),
        decreases records@.len() - i,
    {
        assert(ids.take(i + 1).drop_last() =~= ids.take(i as int));
        let id = records[i].id;
        if id < lo {
            lo = id;
        }
        if id > hi {
            hi = id;
        }
        i = i + 1;
    }
    assert(ids.take(records@.len() as int) =~= ids);
    proof {
        lemma_min_le_max(ids);
    }
    let mut e: u64 = lo as u64;
    while e <= hi as u64
        invariant
            lo <= e <= hi as u64 + 1,
            ids == record_ids(records@),
            wn == width,
            spec_sequence_warnings(ids, wn) == views(out@) + missing_ids_from(
                ids,
                e as int,
                hi as int,
                wn,
            ),
        decreases hi as u64 + 1 - e,
    {
        let ghost before = views(out@);
        let x: u32 = e as u32;
        if !has_record_id(records, x) {
            let mut m = String::from_str("missing ADR ID in sequence: ");
            let t = format_id_width(x, width);
            m.append(t.as_str());
            push_message(&mut out, m);
        }
        assert(views(out@) + missing_ids_from(ids, e + 1, hi as int, wn) =~= before
            + missing_ids_from(ids, e as int, hi as int, wn));
        e = e + 1;
    }
    assert(views(out@) + missing_ids_from(ids, e as int, hi as int, wn) =~= views(out@));
    out
}

proof fn lemma_min_le_max(ids: Seq<u32>)
    requires
        ids.len() > 0,
    ensures
        min_id(ids) <= max_id(ids),
        ids.contains(min_id(ids)),
        ids.contains(max_id(ids)),
        forall|t: int| 0 <= t < ids.len() ==> min_id(ids) <= #[trigger] ids[t] <= max_id(ids),
    decreases ids.len(),
{
    if ids.len() > 1 {
        lemma_min_le_max(ids.drop_last());
        assert forall|t: int| 0 <= t < ids.len() implies min_id(ids) <= #[trigger] ids[t] <= max_id(
            ids,
        ) by {
            if t < ids.len() - 1 {
                assert(ids[t] == ids.drop_last()[t]);
            }
        }
        let d = ids.drop_last();
        if !(ids.last() < min_id(d)) {
            let k = choose|k: int| 0 <= k < d.len() && d[k] == min_id(d);
            assert(ids[k] == min_id(ids));
        }
        if !(ids.last() > max_id(d)) {
            let k = choose|k: int| 0 <= k < d.len() && d[k] == max_id(d);
            assert(ids[k] == max_id(ids));
        }
    } else {
        assert(ids[0] == min_id(ids));
    }
}

// ---------------------------------------------------------------------------
// Rendering the overview

/// How an overview entry is decorated.
#[derive(Debug, Clone, Copy, PartialEq, Eq, Structural)]
pub enum RenderStyle {
    Bold,
    Strike,
    Plain,
}

/// `DRAFT` and `PROPOSED` are bold, `EXPIRED` and superseded ADRs struck through,
/// the rest plain; the status is trimmed first.
pub open spec fn spec_style_for_status(status: Seq<char>) -> RenderStyle {
    let n = trim(status);
    if n == word_draft() || n == word_proposed() {
        RenderStyle::Bold
    } else if n == word_expired() || starts_with(n, word_superseded()) {
        RenderStyle::Strike
    } else {
        RenderStyle::Plain
    }
}

/// The style of an overview entry for an ADR with the given status.
pub fn style_for_status(status: &str) -> (r: RenderStyle)
    ensures
        r == spec_style_for_status(status@),
{
    let n = trim_chars(&chars_of(status));
    let draft = vec!['D', 'R', 'A', 'F', 'T'];
    let proposed = vec!['P', 'R', 'O', 'P', 'O', 'S', 'E', 'D'];
    let expired = vec!['E', 'X', 'P', 'I', 'R', 'E', 'D'];
    assert(draft@ =~= word_draft());
    assert(proposed@ =~= word_proposed());
    assert(expired@ =~= word_expired());
    if chars_eq(&n, &draft) || chars_eq(&n, &proposed) {
        return RenderStyle::Bold;
    }
    if chars_eq(&n, &expired) || starts_with_chars(&n, &superseded_chars()) {
        return RenderStyle::Strike;
    }
    RenderStyle::Plain
}

/// The id after `SUPERSEDED by`, trimmed, if the status has that form.
pub open spec fn spec_superseded_by_id(status: Seq<char>) -> Option<Seq<char>> {
    match split_once(status, by_separator()) {
        None => None,
        Some((left, right)) => {
            if trim(left) != word_superseded() || trim(right).len() == 0 {
                None
            } else {
                Some(trim(right))
            }
        },
    }
}

/// The superseding id named in a status `SUPERSEDED by <id>`.
pub fn superseded_by_id(status: &str) -> (r: Option<String>)
    ensures
        opt_view(r) == spec_superseded_by_id(status@),
{
    match split_once_chars(&chars_of(status), &by_separator_chars()) {
        None => None,
        Some((left, right)) => {
            let id = trim_chars(&right);
            if !chars_eq(&trim_chars(&left), &superseded_chars()) || id.len() == 0 {
                None
            } else {
                Some(string_of(id))
            }
        },
    }
}

/// A label, if it is not empty.
pub open spec fn keep_label(t: Seq<char>) -> Seq<Seq<char>> {
    if t.len() > 0 {
        seq![t]
    } else {
        seq![]
    }
}

/// The comma-separated parts of `s` from index `i` on, the current part having
/// begun at `start`; each part trimmed, and empty parts dropped.
pub open spec fn labels_acc(s: Seq<char>, i: int, start: int) -> Seq<Seq<char>>
    decreases s.len() - i,
{
    if i < 0 || i >= s.len() {
        keep_label(trim(s.subrange(start, s.len() as int)))
    } else if s[i] == ',' {
        keep_label(trim(s.subrange(start, i))) + labels_acc(s, i + 1, i + 1)
    } else {
        labels_acc(s, i + 1, start)
    }
}

/// The labels of a `Labels` value: split at commas, trimmed, empty ones dropped.
pub open spec fn label_list(raw: Seq<char>) -> Seq<Seq<char>> {
    labels_acc(raw, 0, 0)
}

/// The labels as the overview shows them: `(a, b)`, or nothing at all.
pub open spec fn spec_normalize_labels(raw: Seq<char>) -> Seq<char> {
    if label_list(raw).len() == 0 {
        seq![]
    } else {
        "("@ + crate::text::join(label_list(raw), ", "@) + ")"@
    }
}

/// Writes the labels of an ADR for the overview: `api,auth` becomes `(api, auth)`.
pub fn normalize_labels(raw_labels: &str) -> (r: String)
    ensures
        r@ == spec_normalize_labels(raw_labels@),
{
    let s = chars_of(raw_labels);
    let mut labels: Vec<String> = Vec::new();
    let mut start: usize = 0;
    let mut i: usize = 0;
    while i < s.len()
        invariant
            0 <= start <= i <= s@.len(),
            s@ == raw_labels@,
            label_list(s@) == views(labels@) + labels_acc(s@, i as int, start as int),
        decreases s@.len() - i,
    {
        if s[i] == ',' {
            let t = trim_chars(&slice_chars(&s, start, i));
            let ghost before = views(labels@);
            if t.len() > 0 {
                labels.push(string_of(t));
            }
            assert(views(labels@) =~= before + keep_label(trim(s@.subrange(start as int, i as int))));
            start = i + 1;
        }
        i = i + 1;
    }
    let t = trim_chars(&slice_chars(&s, start, s.len()));
    let ghost before = views(labels@);
    if t.len() > 0 {
        labels.push(string_of(t));
    }
    assert(views(labels@) =~= before + keep_label(trim(s@.subrange(start as int, s@.len() as int))));
    assert(views(labels@) =~= label_list(raw_labels@));
    if labels.len() == 0 {
        return String::new();
    }
    let mut r = String::from_str("(");
    let joined = crate::text::join_strings(&labels, ", ");
    r.append(joined.as_str());
    r.append(")");
    r
}

/// The link to an ADR file: `[ADR<id> - <title>](<file name>)`, where the id
/// is written as the file name writes it.
pub open spec fn entry_link(r: RecordView) -> Seq<char> {
    let title = match r.title {
        Some(t) => t,
        None => "(missing title)"@,
    };
    "["@ + "ADR"@ + spec_listed_id(r.file_name, r.id) + " - "@ + title + "]("@ + r.file_name
        + ")"@
}

/// The status of a record, `UNKNOWN` where it has none.
pub open spec fn entry_status(r: RecordView) -> Seq<char> {
    match r.status {
        Some(s) => s,
        None => "UNKNOWN"@,
    }
}

/// The link decorated in the given style.
pub open spec fn decorate(style: RenderStyle, link: Seq<char>) -> Seq<char> {
    match style {
        RenderStyle::Bold => "**"@ + link + "**"@,
        RenderStyle::Strike => "~~"@ + link + "~~"@,
        RenderStyle::Plain => link,
    }
}

/// The labels of an entry, preceded by a space where there are any.
pub open spec fn entry_labels(r: RecordView) -> Seq<char> {
    let labels = spec_normalize_labels(
        match r.labels {
            Some(l) => l,
            None => seq![],
        },
    );
    if labels.len() > 0 {
        " "@ + labels
    } else {
        seq![]
    }
}

/// What follows the labels: ` expired`, or ` superseded by <id>`, or nothing.
pub open spec fn entry_suffix(status: Seq<char>) -> Seq<char> {
    if trim(status) == word_expired() {
        " expired"@
    } else {
        match spec_superseded_by_id(status) {
            Some(id) => " superseded by "@ + id,
            None => seq![],
        }
    }
}

/// The overview line of one ADR: a link to its file, decorated by its status,
/// then its labels, then `expired` or `superseded by <id>` where that applies.
pub open spec fn overview_entry(r: RecordView) -> Seq<char> {
    "- "@ + decorate(spec_style_for_status(entry_status(r)), entry_link(r)) + entry_labels(r)
        + entry_suffix(entry_status(r)) + "\n"@
}

/// The entries of the overview, one line per record, in the order given.
pub open spec fn overview_entries(rs: Seq<RecordView>) -> Seq<char>
    decreases rs.len(),
{
    if rs.len() == 0 {
        seq![]
    } else {
        overview_entries(rs.drop_last()) + overview_entry(rs.last())
    }
}

/// The records as mathematical values.
pub open spec fn record_views(rs: Seq<AdrRecord>) -> Seq<RecordView> {
    rs.map_values(|r: AdrRecord| r@)
}

/// The overview document: a heading, then one entry per record.
pub open spec fn spec_render_overview(rs: Seq<RecordView>) -> Seq<char> {
    "# ADR Overview\n\n"@ + overview_entries(rs)
}

fn render_entry(record: &AdrRecord) -> (r: String)
    ensures
        r@ == overview_entry(record@),
{
    let mut linked = String::from_str("[");
    linked.append("ADR");
    let id = listed_id(record.file_name.as_str(), record.id);
    linked.append(id.as_str());
    linked.append(" - ");
    match &record.title {
        Some(t) => linked.append(t.as_str()),
        None => linked.append("(missing title)"),
    }
    linked.append("](");
    linked.append(record.file_name.as_str());
    linked.append(")");
    let status: &str = match &record.status {
        Some(s) => s.as_str(),
        None => "UNKNOWN",
    };
    let empty = String::new();
    let labels_text = match &record.labels {
        Some(l) => normalize_labels(l.as_str()),
        None => normalize_labels(empty.as_str()),
    };
    let decorated = match style_for_status(status) {
        RenderStyle::Bold => {
            let mut d = String::from_str("**");
            d.append(linked.as_str());
            d.append("**");
            d
        },
        RenderStyle::Strike => {
            let mut d = String::from_str("~~");
            d.append(linked.as_str());
            d.append("~~");
            d
        },
        RenderStyle::Plain => linked,
    };
    let expired = vec!['E', 'X', 'P', 'I', 'R', 'E', 'D'];
    assert(expired@ =~= word_expired());
    let suffix = if chars_eq(&trim_chars(&chars_of(status)), &expired) {
        String::from_str(" expired")
    } else {
        match superseded_by_id(status) {
            Some(id) => {
                let mut t = String::from_str(" superseded by ");
                t.append(id.as_str());
                t
            },
            None => String::new(),
        }
    };
    let mut out = String::from_str("- ");
    out.append(decorated.as_str());
    if !labels_text.as_str().is_empty() {
        out.append(" ");
        out.append(labels_text.as_str());
    }
    out.append(suffix.as_str());
    out.append("\n");
    assert(out@ =~= overview_entry(record@));
    out
}

/// Renders the overview document: a heading, then one line per ADR in the
/// order given, each a link decorated according to the ADR's status.
pub fn render_overview(records: &[AdrRecord]) -> (r: String)
    ensures
        r@ == spec_render_overview(record_views(records@)),
{
    let mut out = String::from_str("# ADR Overview\n\n");
    let ghost rs = record_views(records@);
    let mut i: usize = 0;
    while i < records.len()
        invariant
            0 <= i <= records@.len(),
            rs == record_views(records@),
            out@ == "# ADR Overview\n\n"@ + overview_entries(rs.take(i as int)),
        decreases records@.len() - i,
    {
        let e = render_entry(&records[i]);
        out.append(e.as_str());
        assert(rs.take(i + 1).drop_last() =~= rs.take(i as int));
        assert(out@ =~= "# ADR Overview\n\n"@ + overview_entries(rs.take(i + 1)));
        i = i + 1;
    }
    assert(rs.take(records@.len() as int) =~= rs);
    out
}

// ---------------------------------------------------------------------------
// Ordering the records

/// `r` placed into `sorted` after every record whose id is not larger.
pub open spec fn insert_by_id(sorted: Seq<RecordView>, r: RecordView) -> Seq<RecordView>
    decreases sorted.len(),
{
    if sorted.len() == 0 {
        seq![r]
    } else if sorted.last().id <= r.id {
        sorted.push(r)
    } else {
        insert_by_id(sorted.drop_last(), r).push(sorted.last())
    }
}

/// The records ordered by id; records with equal ids keep their order (what the
/// stable `sort_by_key` on the id gives).
pub open spec fn sort_by_id(rs: Seq<RecordView>) -> Seq<RecordView>
    decreases rs.len(),
{
    if rs.len() == 0 {
        seq![]
    } else {
        insert_by_id(sort_by_id(rs.drop_last()), rs.last())
    }
}

proof fn lemma_insert_by_id_at(s: Seq<RecordView>, r: RecordView, j: int)
    requires
        0 <= j <= s.len(),
        forall|t: int| j <= t < s.len() ==> (#[trigger] s[t]).id > r.id,
        j > 0 ==> s[j - 1].id <= r.id,
    ensures
        insert_by_id(s, r) == s.take(j).push(r) + s.skip(j),
    decreases s.len(),
{
    if s.len() == 0 {
        assert(s.take(j).push(r) + s.skip(j) =~= seq![r]);
    } else if j == s.len() {
        assert(s.take(j).push(r) + s.skip(j) =~= s.push(r));
    } else {
        let d = s.drop_last();
        assert forall|t: int| j <= t < d.len() implies (#[trigger] d[t]).id > r.id by {
            assert(d[t] == s[t]);
        }
        lemma_insert_by_id_at(d, r, j);
        assert(s.take(j).push(r) + s.skip(j) =~= (d.take(j).push(r) + d.skip(j)).push(s.last()));
    }
}

/// Orders the records by id, keeping the order of records with equal ids.
pub fn sort_records_by_id(records: Vec<AdrRecord>) -> (r: Vec<AdrRecord>)
    ensures
        record_views(r@) == sort_by_id(record_views(records@)),
{
    let ghost input = record_views(records@);
    let total = records.len();
    let mut rest = records;
    let mut out: Vec<AdrRecord> = Vec::new();
    let mut n: usize = 0;
    while rest.len() > 0
        invariant
            n + rest@.len() == input.len(),
            input.len() == total,
            record_views(rest@) == input.skip(n as int),
            record_views(out@) == sort_by_id(input.take(n as int)),
        decreases rest@.len(),
    {
        let ghost old_rest = rest@;
        let r = rest.remove(0);
        let ghost sorted = record_views(out@);
        assert(r@ == input[n as int]) by {
            assert(record_views(old_rest)[0] == old_rest[0]@);
            assert(input.skip(n as int)[0] == input[n as int]);
        }
        assert(rest@ =~= old_rest.drop_first());
        let mut j: usize = out.len();
        while j > 0 && out[j - 1].id > r.id
            invariant
                0 <= j <= out@.len(),
                sorted == record_views(out@),
                forall|t: int| j <= t < sorted.len() ==> (#[trigger] sorted[t]).id > r.id,
            decreases j,
        {
            j = j - 1;
        }
        proof {
            lemma_insert_by_id_at(sorted, r@, j as int);
        }
        out.insert(j, r);
        assert(record_views(out@) =~= sorted.take(j as int).push(r@) + sorted.skip(j as int));
        assert(input.take(n + 1).drop_last() =~= input.take(n as int));
        assert forall|t: int| 0 <= t < rest@.len() implies record_views(rest@)[t] == input.skip(
            n + 1,
        )[t] by {
            assert(record_views(old_rest)[t + 1] == old_rest[t + 1]@);
            assert(input.skip(n as int)[t + 1] == input[n + 1 + t]);
        }
        assert(record_views(rest@) =~= input.skip(n + 1));
        n = n + 1;
    }
    assert(input.take(n as int) =~= input);
    out
}

// ---------------------------------------------------------------------------
// The status file

/// The trimmed, non-blank lines, in order.
pub open spec fn nonblank_trimmed(ls: Seq<Seq<char>>) -> Seq<Seq<char>>
    decreases ls.len(),
{
    if ls.len() == 0 {
        seq![]
    } else {
        nonblank_trimmed(ls.drop_last()) + keep_label(trim(ls.last()))
    }
}

/// The status words listed in the text of a `.adr-status` file: its lines,
/// trimmed, blank ones dropped.
pub open spec fn spec_parse_statuses(content: Seq<char>) -> Seq<Seq<char>> {
    nonblank_trimmed(lines(content))
}

/// The status words listed in the text of a `.adr-status` file.
pub fn parse_statuses(content: &str) -> (r: Vec<String>)
    ensures
        views(r@) == spec_parse_statuses(content@),
{
    let ls = lines_of(content);
    let ghost lv = views(ls@);
    let mut out: Vec<String> = Vec::new();
    let mut i: usize = 0;
    while i < ls.len()
        invariant
            0 <= i <= ls@.len(),
            lv == views(ls@),
            views(out@) == nonblank_trimmed(lv.take(i as int)),
        decreases ls@.len() - i,
    {
        let t = trim_str(ls[i].as_str());
        let ghost before = views(out@);
        if !t.as_str().is_empty() {
            out.push(t);
        }
        assert(lv.take(i + 1).drop_last() =~= lv.take(i as int));
        assert(views(out@) =~= before + keep_label(trim(lv[i as int])));
        i = i + 1;
    }
    assert(lv.take(ls@.len() as int) =~= lv);
    out
}

// ---------------------------------------------------------------------------
// The whole command

/// Why `toc` failed.
#[derive(Debug)]
pub enum TocError {
    ResolveAdrDirectory(crate::resolver::ResolveError),
    ReadAdrDirectory { path: String, source: std::io::Error },
    ReadAdrDirectoryEntry { path: String, source: std::io::Error },
    ReadAdrFile { path: String, source: std::io::Error },
    ReadStatusFile { path: String, source: std::io::Error },
    WriteOverviewFile { path: String, source: std::io::Error },
}

/// The name of the overview document inside the ADR directory.
pub const OVERVIEW_FILE: &'static str = "adr-overview.md";

/// A warning reported by `toc`.
#[derive(Debug, Clone, PartialEq, Eq)]
pub struct TocWarning {
    pub message: String,
}

/// What `toc` reports: its warnings, in order.
#[derive(Debug, Clone, PartialEq, Eq)]
pub struct TocResult {
    pub warnings: Vec<TocWarning>,
}

/// The texts of the warnings.
pub open spec fn warning_texts(ws: Seq<TocWarning>) -> Seq<Seq<char>> {
    ws.map_values(|w: TocWarning| w.message@)
}

/// An entry of the ADR directory: its name, whether it is a regular file, and
/// its text (read only where `is_adr_file` asks for it, empty otherwise).
#[derive(Debug, Clone, PartialEq, Eq)]
pub struct AdrSource {
    pub file_name: String,
    pub is_file: bool,
    pub content: String,
}

/// The entry is an ADR file: a regular file whose name carries an ADR id.
pub open spec fn is_adr_source(file_name: Seq<char>, is_file: bool) -> bool {
    is_file && spec_extract_id(file_name) is Some
}

/// Whether an entry of the ADR directory is an ADR file, whose text `toc`
/// reads and parses; every other entry is skipped.
pub fn is_adr_file(file_name: &str, is_file: bool) -> (r: bool)
    ensures
        r == is_adr_source(file_name@, is_file),
{
    is_file && extract_id_from_filename(file_name).is_some()
}

/// What `toc` produces: the text of `adr-overview.md` and the report.
#[derive(Debug, Clone, PartialEq, Eq)]
pub struct TocOutput {
    pub overview: String,
    pub result: TocResult,
}

/// The record of an ADR file: its text parsed under the id of its name.
pub open spec fn source_record(src: AdrSource, valid_statuses: Seq<Seq<char>>) -> RecordView {
    spec_parse_adr(
        spec_extract_id(src.file_name@)->0,
        src.file_name@,
        src.content@,
        valid_statuses,
    )
}

/// The records of the ADR files among the entries, in the order given; other
/// entries are left out.
pub open spec fn source_records(srcs: Seq<AdrSource>, valid_statuses: Seq<Seq<char>>) -> Seq<
    RecordView,
>
    decreases srcs.len(),
{
    if srcs.len() == 0 {
        seq![]
    } else {
        source_records(srcs.drop_last(), valid_statuses) + if is_adr_source(
            srcs.last().file_name@,
            srcs.last().is_file,
        ) {
            seq![source_record(srcs.last(), valid_statuses)]
        } else {
            seq![]
        }
    }
}

/// The ids of the records.
pub open spec fn view_ids(rs: Seq<RecordView>) -> Seq<u32> {
    rs.map_values(|r: RecordView| r.id)
}

/// The file names of the records.
pub open spec fn view_names(rs: Seq<RecordView>) -> Seq<Seq<char>> {
    rs.map_values(|r: RecordView| r.file_name)
}

/// The warnings of the records, one record after the other.
pub open spec fn record_warnings(rs: Seq<RecordView>) -> Seq<Seq<char>>
    decreases rs.len(),
{
    if rs.len() == 0 {
        seq![]
    } else {
        record_warnings(rs.drop_last()) + rs.last().warnings
    }
}

/// The records `toc` works on: those of the ADR files, ordered by id.
pub open spec fn toc_records(status_content: Seq<char>, srcs: Seq<AdrSource>) -> Seq<RecordView> {
    sort_by_id(source_records(srcs, spec_parse_statuses(status_content)))
}

/// The overview that `toc` writes.
pub open spec fn toc_overview(status_content: Seq<char>, srcs: Seq<AdrSource>) -> Seq<char> {
    spec_render_overview(toc_records(status_content, srcs))
}

/// The warnings that `toc` reports: first the gaps in the id sequence, then the
/// warnings of each ADR in id order.
pub open spec fn toc_warnings(status_content: Seq<char>, srcs: Seq<AdrSource>) -> Seq<Seq<char>> {
    let rs = toc_records(status_content, srcs);
    spec_sequence_warnings(view_ids(rs), id_width(view_names(rs))) + record_warnings(rs)
}

/// The work of `toc` on the contents of the ADR directory: `status_content` is
/// the text of `.adr-status`, `sources` the entries of the directory. Entries
/// that are not regular files, or whose names carry no ADR id, are ignored; the
/// others are parsed, checked and ordered by id. Returns the overview document
/// and the warnings.
pub fn run(status_content: &str, sources: &[AdrSource]) -> (r: TocOutput)
    ensures
        r.overview@ == toc_overview(status_content@, sources@),
        warning_texts(r.result.warnings@) == toc_warnings(status_content@, sources@),
{
    let valid_statuses = parse_statuses(status_content);
    let ghost vs = views(valid_statuses@);
    let mut records: Vec<AdrRecord> = Vec::new();
    let mut i: usize = 0;
    while i < sources.len()
        invariant
            0 <= i <= sources@.len(),
            vs == views(valid_statuses@),
            record_views(records@) == source_records(sources@.take(i as int), vs),
        decreases sources@.len() - i,
    {
        let ghost before = record_views(records@);
        let src = &sources[i];
        assert(sources@.take(i + 1).drop_last() =~= sources@.take(i as int));
        let id_of_file = if src.is_file {
            extract_id_from_filename(src.file_name.as_str())
        } else {
            None
        };
        match id_of_file {
            Some(id) => {
                let rec = parse_adr(
                    id,
                    src.file_name.as_str(),
                    src.content.as_str(),
                    valid_statuses.as_slice(),
                );
                records.push(rec);
                assert(record_views(records@) =~= before.push(rec@));
            },
            None => {},
        }
        assert(record_views(records@) =~= source_records(sources@.take(i + 1), vs));
        i = i + 1;
    }
    assert(sources@.take(sources@.len() as int) =~= sources@);
    let records = sort_records_by_id(records);
    let ghost rs = record_views(records@);
    assert(record_ids(records@) =~= view_ids(rs));
    assert(record_names(records@) =~= view_names(rs));
    let mut warnings = collect_sequence_warnings(records.as_slice());
    let mut k: usize = 0;
    let ghost seqw = views(warnings@);
    while k < records.len()
        invariant
            0 <= k <= records@.len(),
            rs == record_views(records@),
            views(warnings@) == seqw + record_warnings(rs.take(k as int)),
        decreases records@.len() - k,
    {
        let ghost before = views(warnings@);
        let mut j: usize = 0;
        while j < records[k].warnings.len()
            invariant
                0 <= j <= records@[k as int].warnings@.len(),
                k < records@.len(),
                views(warnings@) == before + views(records@[k as int].warnings@).take(j as int),
            decreases records@[k as int].warnings@.len() - j,
        {
            let w = records[k].warnings[j].clone();
            push_message(&mut warnings, w);
            assert(views(warnings@) =~= before + views(records@[k as int].warnings@).take(j + 1));
            j = j + 1;
        }
        assert(views(records@[k as int].warnings@).take(j as int) =~= rs[k as int].warnings);
        assert(rs.take(k + 1).drop_last() =~= rs.take(k as int));
        assert(views(warnings@) =~= seqw + record_warnings(rs.take(k + 1)));
        k = k + 1;
    }
    assert(rs.take(records@.len() as int) =~= rs);
    let overview = render_overview(records.as_slice());
    let mut report: Vec<TocWarning> = Vec::new();
    let mut m: usize = 0;
    let ghost all = views(warnings@);
    while m < warnings.len()
        invariant
            0 <= m <= warnings@.len(),
            all == views(warnings@),
            warning_texts(report@) == all.take(m as int),
        decreases warnings@.len() - m,
    {
        let ghost before = warning_texts(report@);
        let message = warnings[m].clone();
        assert(message@ == all[m as int]);
        report.push(TocWarning { message });
        assert(warning_texts(report@) =~= before.push(all[m as int]));
        assert(all.take(m + 1) =~= all.take(m as int).push(all[m as int]));
        m = m + 1;
    }
    assert(all.take(warnings@.len() as int) =~= all);
    TocOutput { overview, result: TocResult { warnings: report } }
}

// ---------------------------------------------------------------------------
// Laws of the overview

/// The records are in increasing order of id.
pub open spec fn sorted_by_id(rs: Seq<RecordView>) -> bool {
    forall|i: int, j: int| 0 <= i < j < rs.len() ==> rs[i].id <= rs[j].id
}

/// Where `insert_by_id` places a record: after the last record whose id is not larger.
pub open spec fn insert_position(s: Seq<RecordView>, r: RecordView) -> int
    decreases s.len(),
{
    if s.len() == 0 {
        0
    } else if s.last().id <= r.id {
        s.len() as int
    } else {
        insert_position(s.drop_last(), r)
    }
}

proof fn lemma_insert_by_id_is_insert(s: Seq<RecordView>, r: RecordView)
    ensures
        0 <= insert_position(s, r) <= s.len(),
        insert_by_id(s, r) == s.insert(insert_position(s, r), r),
        forall|t: int| insert_position(s, r) <= t < s.len() ==> (#[trigger] s[t]).id > r.id,
        insert_position(s, r) > 0 ==> s[insert_position(s, r) - 1].id <= r.id,
    decreases s.len(),
{
    if s.len() == 0 {
        assert(s.insert(0, r) =~= seq![r]);
    } else if s.last().id <= r.id {
        assert(s.insert(s.len() as int, r) =~= s.push(r));
    } else {
        let d = s.drop_last();
        lemma_insert_by_id_is_insert(d, r);
        let j = insert_position(d, r);
        assert(s.insert(j, r) =~= d.insert(j, r).push(s.last()));
        assert forall|t: int| j <= t < s.len() implies (#[trigger] s[t]).id > r.id by {
            if t < d.len() {
                assert(s[t] == d[t]);
            }
        }
    }
}

/// Ordering by id gives the same records, in increasing order of id.
pub proof fn lemma_sort_by_id(rs: Seq<RecordView>)
    ensures
        sorted_by_id(sort_by_id(rs)),
        sort_by_id(rs).to_multiset() == rs.to_multiset(),
        sort_by_id(rs).len() == rs.len(),
    decreases rs.len(),
{
    broadcast use vstd::seq_lib::group_to_multiset_ensures;

    if rs.len() > 0 {
        let d = rs.drop_last();
        lemma_sort_by_id(d);
        let s = sort_by_id(d);
        let r = rs.last();
        lemma_insert_by_id_is_insert(s, r);
        let j = insert_position(s, r);
        let out = s.insert(j, r);
        assert forall|a: int, b: int| 0 <= a < b < out.len() implies out[a].id <= out[b].id by {
            if b < j {
                assert(out[a] == s[a] && out[b] == s[b]);
            } else if b == j {
                assert(out[a] == s[a]);
                assert(s[a].id <= s[j - 1].id);
            } else if a < j {
                assert(out[a] == s[a] && out[b] == s[b - 1]);
                assert(s[b - 1].id > r.id);
            } else if a == j {
                assert(out[b] == s[b - 1]);
            } else {
                assert(out[a] == s[a - 1] && out[b] == s[b - 1]);
            }
        }
        assert(rs =~= d.push(r));
    } else {
        assert(rs.to_multiset() =~= vstd::multiset::Multiset::empty());
        assert(sort_by_id(rs).to_multiset() =~= vstd::multiset::Multiset::empty());
    }
}

/// The overview lists the ADRs in increasing order of id, each ADR file once:
/// the records it shows are exactly those of the files that carry an id.
pub proof fn law_overview_in_id_order(status_content: Seq<char>, srcs: Seq<AdrSource>)
    ensures
        sorted_by_id(toc_records(status_content, srcs)),
        toc_records(status_content, srcs).to_multiset() == source_records(
            srcs,
            spec_parse_statuses(status_content),
        ).to_multiset(),
{
    lemma_sort_by_id(source_records(srcs, spec_parse_statuses(status_content)));
}

/// The entries that are ADR files.
pub open spec fn adr_file_filter() -> spec_fn(AdrSource) -> bool {
    |src: AdrSource| is_adr_source(src.file_name@, src.is_file)
}

/// An ADR file to its record.
pub open spec fn record_of(valid_statuses: Seq<Seq<char>>) -> spec_fn(AdrSource) -> RecordView {
    |src: AdrSource| source_record(src, valid_statuses)
}

proof fn lemma_source_records_filter(srcs: Seq<AdrSource>, vs: Seq<Seq<char>>)
    ensures
        source_records(srcs, vs) == srcs.filter(adr_file_filter()).map_values(record_of(vs)),
    decreases srcs.len(),
{
    reveal(Seq::filter);
    if srcs.len() > 0 {
        lemma_source_records_filter(srcs.drop_last(), vs);
        let sub = srcs.drop_last().filter(adr_file_filter());
        if is_adr_source(srcs.last().file_name@, srcs.last().is_file) {
            assert(srcs.filter(adr_file_filter()) == sub.push(srcs.last()));
            assert(sub.push(srcs.last()).map_values(record_of(vs)) =~= sub.map_values(
                record_of(vs),
            ).push(source_record(srcs.last(), vs)));
        } else {
            assert(srcs.filter(adr_file_filter()) == sub);
        }
        assert(source_records(srcs, vs) =~= srcs.filter(adr_file_filter()).map_values(
            record_of(vs),
        ));
    } else {
        assert(srcs.filter(adr_file_filter()) =~= srcs);
        assert(source_records(srcs, vs) =~= srcs.filter(adr_file_filter()).map_values(
            record_of(vs),
        ));
    }
}

/// `toc` lists exactly the ADR files of the directory: its records are, in id
/// order, the parsed texts of the entries that are regular files whose names
/// carry an ADR id, each once; every other entry (the overview, `.adr-status`,
/// directories, other files) gives no record.
pub proof fn law_records_are_the_adr_files(status_content: Seq<char>, srcs: Seq<AdrSource>)
    ensures
        sorted_by_id(toc_records(status_content, srcs)),
        toc_records(status_content, srcs).to_multiset() == srcs.filter(adr_file_filter()).map_values(
            record_of(spec_parse_statuses(status_content)),
        ).to_multiset(),
{
    law_overview_in_id_order(status_content, srcs);
    lemma_source_records_filter(srcs, spec_parse_statuses(status_content));
}

proof fn lemma_missing_ids_from(ids: Seq<u32>, a: int, hi: int, w: nat)
    ensures
        forall|e: int|
            a <= e <= hi && !ids.contains(e as u32) ==> #[trigger] missing_ids_from(ids, a, hi, w).contains(
                msg_missing_in_sequence(e as u32, w),
            ),
        (forall|e: int| a <= e <= hi ==> #[trigger] ids.contains(e as u32)) ==> missing_ids_from(ids, a, hi, w).len() == 0,
    decreases hi + 1 - a,
{
    if a <= hi {
        lemma_missing_ids_from(ids, a + 1, hi, w);
        let rest = missing_ids_from(ids, a + 1, hi, w);
        let head: Seq<Seq<char>> = if ids.contains(a as u32) {
            seq![]
        } else {
            seq![msg_missing_in_sequence(a as u32, w)]
        };
        assert forall|e: int|
            a <= e <= hi && !ids.contains(e as u32) implies #[trigger] missing_ids_from(ids, a, hi, w).contains(msg_missing_in_sequence(e as u32, w)) by {
            if e == a {
                assert((head + rest)[0] == msg_missing_in_sequence(a as u32, w));
            } else {
                assert(rest.contains(msg_missing_in_sequence(e as u32, w)));
                let k = choose|k: int| 0 <= k < rest.len() && rest[k] == msg_missing_in_sequence(e as u32, w);
                assert((head + rest)[head.len() + k] == rest[k]);
            }
            assert(missing_ids_from(ids, a, hi, w) == head + rest);
        }
        if forall|e: int| a <= e <= hi ==> #[trigger] ids.contains(e as u32) {
            assert(ids.contains(a as u32));
            assert(forall|e: int| a + 1 <= e <= hi ==> #[trigger] ids.contains(e as u32));
        }
    }
}

/// Every id between the smallest and the largest ADR id that no ADR has gets a
/// warning, in whatever width the ids are written, and an unbroken sequence of
/// ids gets none.
pub proof fn law_sequence_gaps_are_reported(ids: Seq<u32>, width: nat)
    requires
        ids.len() > 0,
    ensures
        forall|e: u32|
            min_id(ids) <= e <= max_id(ids) && !ids.contains(e) ==> #[trigger] spec_sequence_warnings(
                ids,
                width,
            ).contains(msg_missing_in_sequence(e, width)),
        (forall|e: u32| min_id(ids) <= e <= max_id(ids) ==> #[trigger] ids.contains(e))
            ==> spec_sequence_warnings(ids, width).len() == 0,
{
    lemma_missing_ids_from(ids, min_id(ids) as int, max_id(ids) as int, width);
    assert forall|e: u32|
        min_id(ids) <= e <= max_id(ids) && !ids.contains(e) implies #[trigger] spec_sequence_warnings(
        ids,
        width,
    ).contains(msg_missing_in_sequence(e, width)) by {
        assert(ids.contains((e as int) as u32) == ids.contains(e));
    }
    if forall|e: u32| min_id(ids) <= e <= max_id(ids) ==> #[trigger] ids.contains(e) {
        assert forall|e: int| min_id(ids) <= e <= max_id(ids) implies #[trigger] ids.contains(
            e as u32,
        ) by {
            let x = e as u32;
            assert(min_id(ids) <= x <= max_id(ids));
        }
    }
}

/// ADRs in status `DRAFT` or `PROPOSED` are shown in bold.
pub proof fn law_draft_and_proposed_are_bold(status: Seq<char>)
    requires
        trim(status) == word_draft() || trim(status) == word_proposed(),
    ensures
        spec_style_for_status(status) == RenderStyle::Bold,
{
}

/// An `EXPIRED` ADR is struck through and marked `expired`.
pub proof fn law_expired_is_struck_and_marked(status: Seq<char>)
    requires
        trim(status) == word_expired(),
    ensures
        spec_style_for_status(status) == RenderStyle::Strike,
        entry_suffix(status) == " expired"@,
{
    assert(word_expired() != word_draft()) by {
        assert(word_expired().len() != word_draft().len());
    }
    assert(word_expired() != word_proposed()) by {
        assert(word_expired()[0] != word_proposed()[0]);
    }
}

proof fn lemma_superseded_split(id: Seq<char>)
    ensures
        split_once(word_superseded() + by_separator() + id, by_separator()) == Some(
            (word_superseded(), id),
        ),
{
    let s = word_superseded() + by_separator() + id;
    assert(crate::text::occurs_at(s, by_separator(), 10)) by {
        assert(s.subrange(10, 14) =~= by_separator());
    }
    assert forall|t: int| 0 <= t < 10 implies !crate::text::occurs_at(s, by_separator(), t) by {
        assert(s.subrange(t, t + 4)[0] == s[t]);
    }
    crate::text::lemma_find_first(s, by_separator(), 0, 10);
    assert(s.take(10) =~= word_superseded());
    assert(s.skip(14) =~= id);
}

/// An ADR in status `SUPERSEDED by <id>` is struck through and names the ADR
/// that superseded it; where the id is a run of digits, the status is also
/// well-formed, and it is valid wherever `SUPERSEDED` is a listed status.
pub proof fn law_superseded_is_struck_and_names_successor(id: Seq<char>)
    requires
        id.len() > 0,
        !crate::text::is_ws(id[0]),
        !crate::text::is_ws(id.last()),
    ensures
        spec_style_for_status(word_superseded() + by_separator() + id) == RenderStyle::Strike,
        spec_superseded_by_id(word_superseded() + by_separator() + id) == Some(id),
        entry_suffix(word_superseded() + by_separator() + id) == " superseded by "@ + id,
        all_digits(id) ==> spec_is_valid_superseded_status(word_superseded() + by_separator() + id),
        forall|valid: Seq<Seq<char>>, f: Seq<char>|
            all_digits(id) && valid.contains(word_superseded()) ==> #[trigger] status_warnings(
                Some(word_superseded() + by_separator() + id),
                valid,
                f,
            ) == Seq::<Seq<char>>::empty(),
{
    let s = word_superseded() + by_separator() + id;
    lemma_superseded_split(id);
    crate::text::lemma_trim_noop(word_superseded());
    crate::text::lemma_trim_noop(id);
    crate::text::lemma_trim_noop(s);
    assert(trim(s) != word_expired()) by {
        assert(s.len() != word_expired().len());
    }
    assert(trim(s) != word_draft()) by {
        assert(s.len() != word_draft().len());
    }
    assert(trim(s) != word_proposed()) by {
        assert(s.len() != word_proposed().len());
    }
    assert(trim(s) != word_superseded()) by {
        assert(s.len() != word_superseded().len());
    }
    assert(s.take(10) =~= word_superseded());
    assert(starts_with(s, word_superseded()));
    assert(base_status(s) == word_superseded());
    assert forall|valid: Seq<Seq<char>>, f: Seq<char>|
        all_digits(id) && valid.contains(word_superseded()) implies #[trigger] status_warnings(
        Some(s),
        valid,
        f,
    ) == Seq::<Seq<char>>::empty() by {
        assert(status_warnings(Some(s), valid, f) =~= Seq::<Seq<char>>::empty());
    }
}

// ---------------------------------------------------------------------------
// Laws of the reported warnings

proof fn lemma_record_warnings_contains(rs: Seq<RecordView>)
    ensures
        forall|i: int, j: int|
            0 <= i < rs.len() && 0 <= j < rs[i].warnings.len() ==> record_warnings(rs).contains(
                #[trigger] rs[i].warnings[j],
            ),
    decreases rs.len(),
{
    if rs.len() > 0 {
        let d = rs.drop_last();
        lemma_record_warnings_contains(d);
        let all = record_warnings(rs);
        assert(all == record_warnings(d) + rs.last().warnings);
        assert forall|i: int, j: int|
            0 <= i < rs.len() && 0 <= j < rs[i].warnings.len() implies all.contains(
            #[trigger] rs[i].warnings[j],
        ) by {
            if i < rs.len() - 1 {
                assert(d[i] == rs[i]);
                assert(record_warnings(d).contains(d[i].warnings[j]));
                let k = choose|k: int|
                    0 <= k < record_warnings(d).len() && record_warnings(d)[k] == d[i].warnings[j];
                assert(all[k] == rs[i].warnings[j]);
            } else {
                assert(all[record_warnings(d).len() + j] == rs[i].warnings[j]);
            }
        }
    }
}

/// `toc` drops no warning of any ADR: every warning of every record that it
/// parsed is among the warnings it reports.
pub proof fn law_every_adr_warning_is_reported(status_content: Seq<char>, srcs: Seq<AdrSource>)
    ensures
        forall|i: int, j: int|
            0 <= i < toc_records(status_content, srcs).len() && 0 <= j < toc_records(
                status_content,
                srcs,
            )[i].warnings.len() ==> toc_warnings(status_content, srcs).contains(
                #[trigger] toc_records(status_content, srcs)[i].warnings[j],
            ),
{
    let rs = toc_records(status_content, srcs);
    let gaps = spec_sequence_warnings(view_ids(rs), id_width(view_names(rs)));
    lemma_record_warnings_contains(rs);
    assert(toc_warnings(status_content, srcs) == gaps + record_warnings(rs));
    assert forall|i: int, j: int|
        0 <= i < rs.len() && 0 <= j < rs[i].warnings.len() implies toc_warnings(
        status_content,
        srcs,
    ).contains(#[trigger] rs[i].warnings[j]) by {
        let k = choose|k: int|
            0 <= k < record_warnings(rs).len() && record_warnings(rs)[k] == rs[i].warnings[j];
        assert((gaps + record_warnings(rs))[gaps.len() + k] == rs[i].warnings[j]);
    }
}

/// No warning of `ws` begins as an id-mismatch warning does, with `I`.
pub open spec fn unlike_mismatch(ws: Seq<Seq<char>>) -> bool {
    forall|k: int| 0 <= k < ws.len() ==> (#[trigger] ws[k]).len() > 0 && ws[k][0] != 'I'
}

proof fn lemma_unlike_concat(a: Seq<Seq<char>>, b: Seq<Seq<char>>)
    requires
        unlike_mismatch(a),
        unlike_mismatch(b),
    ensures
        unlike_mismatch(a + b),
{
    assert forall|k: int| 0 <= k < (a + b).len() implies (#[trigger] (a + b)[k]).len() > 0 && (a
        + b)[k][0] != 'I' by {
        if k < a.len() {
            assert((a + b)[k] == a[k]);
        } else {
            assert((a + b)[k] == b[k - a.len()]);
        }
    }
}

proof fn lemma_messages_unlike_mismatch(f: Seq<char>, header: Option<Seq<char>>)
    ensures
        unlike_mismatch(spec_parse_header(header, f).2),
        forall|v: Option<Seq<char>>, key: Seq<char>| #[trigger] unlike_mismatch(
            metadata_warnings(v, key, f),
        ),
        forall|v: Option<Seq<char>>| #[trigger] unlike_mismatch(date_warnings(v, f)),
        forall|v: Option<Seq<char>>, valid: Seq<Seq<char>>| #[trigger] unlike_mismatch(
            status_warnings(v, valid, f),
        ),
        forall|v: Option<Seq<char>>| #[trigger] unlike_mismatch(author_warnings(v, f)),
{
    reveal_strlit("missing header line in '");
    reveal_strlit("invalid header format in '");
    reveal_strlit("invalid ADR ID in header of '");
    reveal_strlit("missing title value in header of '");
    reveal_strlit("missing metadata line '* ");
    reveal_strlit("invalid date '");
    reveal_strlit("invalid status '");
    reveal_strlit("invalid superseded status '");
    reveal_strlit("empty author value in '");
    assert(msg_missing_header(f)[0] == 'm');
    assert(msg_invalid_header(f)[0] == 'i');
    assert(msg_invalid_header_id(f)[0] == 'i');
    assert(msg_missing_title(f)[0] == 'm');
    let h = spec_parse_header(header, f).2;
    assert forall|k: int| 0 <= k < h.len() implies (#[trigger] h[k]).len() > 0 && h[k][0]
        != 'I' by {
        assert(h[k] == msg_missing_header(f) || h[k] == msg_invalid_header(f) || h[k]
            == msg_invalid_header_id(f) || h[k] == msg_missing_title(f));
    }
    assert forall|v: Option<Seq<char>>, key: Seq<char>| #[trigger] unlike_mismatch(
        metadata_warnings(v, key, f),
    ) by {
        assert(msg_missing_metadata(key, f)[0] == 'm');
    }
    assert forall|v: Option<Seq<char>>| #[trigger] unlike_mismatch(date_warnings(v, f)) by {
        if let Some(d) = v {
            assert(msg_invalid_date(d, f)[0] == 'i');
        }
    }
    assert forall|v: Option<Seq<char>>, valid: Seq<Seq<char>>| #[trigger] unlike_mismatch(
        status_warnings(v, valid, f),
    ) by {
        if let Some(s) = v {
            assert(msg_invalid_status(s, f)[0] == 'i');
            assert(msg_invalid_superseded(s, f)[0] == 'i');
            let w = status_warnings(v, valid, f);
            assert forall|k: int| 0 <= k < w.len() implies (#[trigger] w[k]).len() > 0 && w[k][0]
                != 'I' by {
                assert(w[k] == msg_invalid_status(s, f) || w[k] == msg_invalid_superseded(s, f));
            }
        }
    }
    assert forall|v: Option<Seq<char>>| #[trigger] unlike_mismatch(author_warnings(v, f)) by {
        assert(msg_empty_author(f)[0] == 'e');
    }
}

/// The id in the header of an ADR is checked against the id of its file name
/// both ways: where the header gives the id `d`, the ADR's warnings report an
/// id mismatch exactly when `d` differs from the file's id, whether it is
/// larger or smaller.
pub proof fn law_header_id_mismatch_is_reported(
    file_id: u32,
    f: Seq<char>,
    content: Seq<char>,
    valid_statuses: Seq<Seq<char>>,
    d: u32,
)
    requires
        spec_parse_header(header_line(lines(content)), f).0 == Some(d),
    ensures
        spec_parse_adr(file_id, f, content, valid_statuses).warnings.contains(
            msg_id_mismatch(f, file_id, d),
        ) <==> d != file_id,
{
    let ls = lines(content);
    let h = spec_parse_header(header_line(ls), f).2;
    let date = metadata_value(ls, "Date"@);
    let status = metadata_value(ls, "Status"@);
    let author = metadata_value(ls, "Author"@);
    let labels = metadata_value(ls, "Labels"@);
    let m = mismatch_warnings(Some(d), file_id, f);
    let w1 = h + m;
    let w2 = w1 + metadata_warnings(date, "Date"@, f);
    let w3 = w2 + metadata_warnings(status, "Status"@, f);
    let w4 = w3 + metadata_warnings(author, "Author"@, f);
    let w5 = w4 + metadata_warnings(labels, "Labels"@, f);
    let w6 = w5 + date_warnings(date, f);
    let w7 = w6 + status_warnings(status, valid_statuses, f);
    let ws = w7 + author_warnings(author, f);
    assert(spec_parse_adr(file_id, f, content, valid_statuses).warnings == ws);
    let msg = msg_id_mismatch(f, file_id, d);
    if d != file_id {
        assert(w1[h.len() as int] == msg);
        assert(ws[h.len() as int] == msg);
    } else {
        reveal_strlit("ID mismatch in '");
        assert(msg.len() > 0 && msg[0] == 'I');
        assert(m =~= Seq::<Seq<char>>::empty());
        lemma_messages_unlike_mismatch(f, header_line(ls));
        assert(w1 =~= h);
        lemma_unlike_concat(w1, metadata_warnings(date, "Date"@, f));
        lemma_unlike_concat(w2, metadata_warnings(status, "Status"@, f));
        lemma_unlike_concat(w3, metadata_warnings(author, "Author"@, f));
        lemma_unlike_concat(w4, metadata_warnings(labels, "Labels"@, f));
        lemma_unlike_concat(w5, date_warnings(date, f));
        lemma_unlike_concat(w6, status_warnings(status, valid_statuses, f));
        lemma_unlike_concat(w7, author_warnings(author, f));
        if ws.contains(msg) {
            let k = choose|k: int| 0 <= k < ws.len() && ws[k] == msg;
            assert(ws[k][0] != 'I');
        }
    }
}

/// A status is checked against the statuses listed in `.adr-status`, not
/// against any fixed list: it is reported as invalid exactly when its status
/// word is not among the listed ones.
pub proof fn law_status_checked_against_listed_statuses(
    s: Seq<char>,
    valid_statuses: Seq<Seq<char>>,
    f: Seq<char>,
)
    ensures
        status_warnings(Some(s), valid_statuses, f).contains(msg_invalid_status(s, f)) <==> !valid_statuses.contains(
            base_status(s),
        ),
{
    reveal_strlit("invalid status '");
    reveal_strlit("invalid superseded status '");
    let w = status_warnings(Some(s), valid_statuses, f);
    let msg = msg_invalid_status(s, f);
    if !valid_statuses.contains(base_status(s)) {
        assert(w[0] == msg);
    } else {
        assert(msg[9] == 't');
        assert(msg_invalid_superseded(s, f)[9] == 'u');
        if w.contains(msg) {
            let k = choose|k: int| 0 <= k < w.len() && w[k] == msg;
            assert(w[k] == msg_invalid_superseded(s, f));
        }
    }
}

// ---------------------------------------------------------------------------
// Laws of the labels

/// `s` holds no comma.
pub open spec fn no_comma(s: Seq<char>) -> bool {
    forall|k: int| 0 <= k < s.len() ==> s[k] != ','
}

proof fn lemma_labels_acc_skip(s: Seq<char>, i: int, m: int, start: int)
    requires
        0 <= i <= m <= s.len(),
        forall|k: int| i <= k < m ==> s[k] != ',',
    ensures
        labels_acc(s, i, start) == labels_acc(s, m, start),
    decreases m - i,
{
    if i < m {
        lemma_labels_acc_skip(s, i + 1, m, start);
    }
}

proof fn lemma_labels_acc_shift(p: Seq<char>, b: Seq<char>, k: int, st: int)
    requires
        0 <= st <= k <= b.len(),
    ensures
        labels_acc(p + b, p.len() + k, p.len() + st) == labels_acc(b, k, st),
    decreases b.len() - k,
{
    let s = p + b;
    if k < b.len() {
        assert(s[p.len() + k] == b[k]);
        if b[k] == ',' {
            assert(s.subrange(p.len() + st, p.len() + k) =~= b.subrange(st, k));
            lemma_labels_acc_shift(p, b, k + 1, k + 1);
        } else {
            lemma_labels_acc_shift(p, b, k + 1, st);
        }
    } else {
        assert(s.subrange(p.len() + st, s.len() as int) =~= b.subrange(st, b.len() as int));
    }
}

/// A `Labels` value without a comma is one label: itself, trimmed, or no label
/// where it is blank.
pub proof fn law_single_label(a: Seq<char>)
    requires
        no_comma(a),
    ensures
        label_list(a) == (if trim(a).len() > 0 {
            seq![trim(a)]
        } else {
            seq![]
        }),
{
    lemma_labels_acc_skip(a, 0, a.len() as int, 0);
    assert(a.subrange(0, a.len() as int) =~= a);
}

/// Each comma ends a label: the labels of `a,b`, where `a` holds no comma, are
/// `a` trimmed (unless it is blank) followed by all the labels of `b`, however
/// many there are.
pub proof fn law_labels_split_at_comma(a: Seq<char>, b: Seq<char>)
    requires
        no_comma(a),
    ensures
        label_list(a + seq![','] + b) == (if trim(a).len() > 0 {
            seq![trim(a)]
        } else {
            seq![]
        }) + label_list(b),
{
    let p = a + seq![','];
    let s = p + b;
    assert(a + seq![','] + b == s);
    assert forall|k: int| 0 <= k < a.len() implies s[k] != ',' by {
        assert(s[k] == a[k]);
    }
    lemma_labels_acc_skip(s, 0, a.len() as int, 0);
    assert(s[a.len() as int] == ',');
    assert(s.subrange(0, a.len() as int) =~= a);
    lemma_labels_acc_shift(p, b, 0, 0);
}

proof fn lemma_join_prepend(x: Seq<char>, ls: Seq<Seq<char>>, sep: Seq<char>)
    requires
        ls.len() > 0,
    ensures
        crate::text::join(seq![x] + ls, sep) == x + sep + crate::text::join(ls, sep),
    decreases ls.len(),
{
    let all = seq![x] + ls;
    if ls.len() == 1 {
        assert(all.drop_last() =~= seq![x]);
        assert(crate::text::join(seq![x], sep) == x);
        assert(crate::text::join(ls, sep) == ls[0]);
    } else {
        lemma_join_prepend(x, ls.drop_last(), sep);
        assert(all.drop_last() =~= seq![x] + ls.drop_last());
        assert(all.last() == ls.last());
    }
}

/// The overview shows one label as `(a)`.
pub proof fn law_one_label_rendered(a: Seq<char>)
    requires
        no_comma(a),
        trim(a).len() > 0,
    ensures
        spec_normalize_labels(a) == "("@ + trim(a) + ")"@,
{
    law_single_label(a);
}

/// The overview shows every label, however many: the labels of `a,b`, with `a`
/// a label and `b` holding labels, are shown as `(a, ` followed by what `b`
/// alone is shown as, without its opening bracket.
pub proof fn law_labels_rendered_one_after_another(a: Seq<char>, b: Seq<char>)
    requires
        no_comma(a),
        trim(a).len() > 0,
        label_list(b).len() > 0,
    ensures
        spec_normalize_labels(a + seq![','] + b) == "("@ + trim(a) + ", "@ + spec_normalize_labels(
            b,
        ).skip(1),
{
    law_labels_split_at_comma(a, b);
    lemma_join_prepend(trim(a), label_list(b), ", "@);
    reveal_strlit("(");
    let jb = crate::text::join(label_list(b), ", "@);
    assert(("("@ + jb + ")"@).skip(1) =~= jb + ")"@);
    assert(spec_normalize_labels(a + seq![','] + b) =~= "("@ + trim(a) + ", "@ + (jb + ")"@));
}

} // verus!
