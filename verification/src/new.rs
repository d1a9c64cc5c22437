//! The `new` command: choosing the id of a new ADR, naming its file and filling
//! in the template.

use vstd::prelude::*;
use crate::id::{extract_id_from_filename, format_id, id_text, lemma_id_text_digits, spec_extract_id};
use crate::text::{
    replace_from, chars_of, lemma_find_first, occurs_at, ends_with, is_control_char, replace, replace_chars, string_of, trim, trim_chars,
};

verus! {

/// Why `new` failed.
#[derive(Debug)]
pub enum NewError {
    ResolveAdrDirectory(crate::resolver::ResolveError),
    ReadTemplate { path: String, source: std::io::Error },
    ReadAdrDirectory { path: String, source: std::io::Error },
    ReadAdrDirectoryEntry { path: String, source: std::io::Error },
    IdOverflow { max: String },
    InvalidTitle { title: String, reason: String },
    CreateAdrFile { path: String, source: std::io::Error },
    TocTrigger(TocTriggerError),
}

/// The overview could not be regenerated after the new ADR was written.
#[derive(Debug)]
pub struct TocTriggerError;

// ---------------------------------------------------------------------------
// The next id

/// The largest id among the ADR file names, `0` where there is none.
pub open spec fn max_file_id(names: Seq<Seq<char>>) -> u32
    decreases names.len(),
{
    if names.len() == 0 {
        0
    } else {
        let m = max_file_id(names.drop_last());
        match spec_extract_id(names.last()) {
            Some(id) => if id > m {
                id
            } else {
                m
            },
            None => m,
        }
    }
}

/// The id of a new ADR is one more than the largest id in use (`max + 1`).
pub fn next_adr_id(file_names: &[String]) -> (r: Result<u32, NewError>)
    ensures
        match r {
            Ok(n) => max_file_id(crate::text::views(file_names@)) < u32::MAX && n == max_file_id(
                crate::text::views(file_names@),
            ) + 1,
            Err(e) => max_file_id(crate::text::views(file_names@)) == u32::MAX && (e matches NewError::IdOverflow {
                max,
            } && max@ == id_text(u32::MAX)),
        },
{
    let ghost names = crate::text::views(file_names@);
    let mut max_id: u32 = 0;
    let mut i: usize = 0;
    while i < file_names.len()
        invariant
            0 <= i <= file_names@.len(),
            names == crate::text::views(file_names@),
            max_id == max_file_id(names.take(i as int)),
        decreases file_names@.len() - i,
    {
        assert(names.take(i + 1).drop_last() =~= names.take(i as int));
        if let Some(id) = extract_id_from_filename(file_names[i].as_str()) {
            if id > max_id {
                max_id = id;
            }
        }
        i = i + 1;
    }
    assert(names.take(file_names@.len() as int) =~= names);
    match max_id.checked_add(1) {
        Some(n) => Ok(n),
        None => Err(NewError::IdOverflow { max: format_id(max_id) }),
    }
}

// ---------------------------------------------------------------------------
// The file name

/// A character that file names may not hold: a control character or one of
/// `< > : " / \ | ? *`.
pub open spec fn is_invalid_title_char(c: char) -> bool {
    is_control_char(c) || c == '<' || c == '>' || c == ':' || c == '"' || c == '/' || c == '\\'
        || c == '|' || c == '?' || c == '*'
}

/// The first character from index `i` on that file names may not hold.
pub open spec fn first_invalid_from(s: Seq<char>, i: int) -> Option<char>
    decreases s.len() - i,
{
    if i < 0 || i >= s.len() {
        None
    } else if is_invalid_title_char(s[i]) {
        Some(s[i])
    } else {
        first_invalid_from(s, i + 1)
    }
}

/// The first character of the title that file names may not hold.
pub fn first_invalid_title_char(title: &str) -> (r: Option<char>)
    ensures
        r == first_invalid_from(title@, 0),
{
    let s = chars_of(title);
    let mut i: usize = 0;
    while i < s.len()
        invariant
            0 <= i <= s@.len(),
            s@ == title@,
            first_invalid_from(title@, 0) == first_invalid_from(title@, i as int),
        decreases s@.len() - i,
    {
        let c = s[i];
        if c <= '\u{1f}' || ('\u{7f}' <= c && c <= '\u{9f}') || c == '<' || c == '>' || c == ':'
            || c == '"' || c == '/' || c == '\\' || c == '|' || c == '?' || c == '*' {
            return Some(c);
        }
        i = i + 1;
    }
    None
}

pub open spec fn reason_empty() -> Seq<char> {
    "title must not be empty"@
}

pub open spec fn reason_trailing() -> Seq<char> {
    "title must not end with a space or dot"@
}

pub open spec fn reason_invalid_char(c: char) -> Seq<char> {
    "character '"@ + seq![c] + "' is not allowed in file names"@
}

/// Why a title cannot name a file, if it cannot: it is blank, it ends with a
/// space or a dot, or it holds a character that file names may not hold.
pub open spec fn title_problem(title: Seq<char>) -> Option<Seq<char>> {
    if trim(title).len() == 0 {
        Some(reason_empty())
    } else if ends_with(title, seq![' ']) || ends_with(title, seq!['.']) {
        Some(reason_trailing())
    } else {
        match first_invalid_from(title, 0) {
            Some(c) => Some(reason_invalid_char(c)),
            None => None,
        }
    }
}

/// The title as it appears in the file name: spaces become dashes.
pub open spec fn title_slug(title: Seq<char>) -> Seq<char> {
    replace(title, seq![' '], seq!['-'])
}

/// The part of the file name that comes from the title: the title with its
/// spaces replaced by dashes, or the reason why it cannot name a file.
pub fn normalize_title_for_filename(title: &str) -> (r: Result<String, NewError>)
    ensures
        match title_problem(title@) {
            Some(reason) => r matches Err(NewError::InvalidTitle { title: t, reason: why }) && t@
                == title@ && why@ == reason,
            None => r matches Ok(s) && s@ == title_slug(title@),
        },
{
    let s = chars_of(title);
    if trim_chars(&s).len() == 0 {
        return Err(
            NewError::InvalidTitle {
                title: String::from_str(title),
                reason: String::from_str("title must not be empty"),
            },
        );
    }
    let last = s[s.len() - 1];
    proof {
        let tail = title@.skip(title@.len() - 1);
        assert(tail =~= seq![last]);
        assert(ends_with(title@, seq![' ']) <==> last == ' ') by {
            if last != ' ' {
                assert(tail[0] != seq![' '][0]);
            }
        }
        assert(ends_with(title@, seq!['.']) <==> last == '.') by {
            if last != '.' {
                assert(tail[0] != seq!['.'][0]);
            }
        }
    }
    if last == ' ' || last == '.' {
        return Err(
            NewError::InvalidTitle {
                title: String::from_str(title),
                reason: String::from_str("title must not end with a space or dot"),
            },
        );
    }
    if let Some(c) = first_invalid_title_char(title) {
        let mut reason = String::from_str("character '");
        let cv = vec![c];
        assert(cv@ =~= seq![c]);
        let cs = string_of(cv);
        reason.append(cs.as_str());
        reason.append("' is not allowed in file names");
        return Err(NewError::InvalidTitle { title: String::from_str(title), reason });
    }
    let space = vec![' '];
    let dash = vec!['-'];
    assert(space@ =~= seq![' ']);
    assert(dash@ =~= seq!['-']);
    Ok(string_of(replace_chars(&s, &space, &dash)))
}

// ---------------------------------------------------------------------------
// The content

/// The template with its placeholders filled in: `` `ID` ``, `` `TITLE` ``,
/// `` `YYYY-MM-DD` `` and `` `STATUS` `` (always `DRAFT`), while `` `AUTHOR` `` and
/// `` `LABELS` `` are left empty; each placeholder is replaced everywhere, in
/// that order.
pub open spec fn spec_render_template(
    template: Seq<char>,
    id: Seq<char>,
    title: Seq<char>,
    date: Seq<char>,
) -> Seq<char> {
    let t1 = replace(template, seq!['`', 'I', 'D', '`'], id);
    let t2 = replace(t1, seq!['`', 'T', 'I', 'T', 'L', 'E', '`'], title);
    let t3 = replace(t2, seq!['`', 'Y', 'Y', 'Y', 'Y', '-', 'M', 'M', '-', 'D', 'D', '`'], date);
    let t4 = replace(t3, seq!['`', 'S', 'T', 'A', 'T', 'U', 'S', '`'], "DRAFT"@);
    let t5 = replace(t4, seq!['`', 'A', 'U', 'T', 'H', 'O', 'R', '`'], seq![]);
    replace(t5, seq!['`', 'L', 'A', 'B', 'E', 'L', 'S', '`'], seq![])
}

/// Fills in the template of a new ADR.
pub fn render_template(template: &str, id: &str, title: &str, date: &str) -> (r: String)
    ensures
        r@ == spec_render_template(template@, id@, title@, date@),
{
    let p_id = vec!['`', 'I', 'D', '`'];
    let p_title = vec!['`', 'T', 'I', 'T', 'L', 'E', '`'];
    let p_date = vec!['`', 'Y', 'Y', 'Y', 'Y', '-', 'M', 'M', '-', 'D', 'D', '`'];
    let p_status = vec!['`', 'S', 'T', 'A', 'T', 'U', 'S', '`'];
    let p_author = vec!['`', 'A', 'U', 'T', 'H', 'O', 'R', '`'];
    let p_labels = vec!['`', 'L', 'A', 'B', 'E', 'L', 'S', '`'];
    assert(p_id@ =~= seq!['`', 'I', 'D', '`']);
    assert(p_title@ =~= seq!['`', 'T', 'I', 'T', 'L', 'E', '`']);
    assert(p_date@ =~= seq!['`', 'Y', 'Y', 'Y', 'Y', '-', 'M', 'M', '-', 'D', 'D', '`']);
    assert(p_status@ =~= seq!['`', 'S', 'T', 'A', 'T', 'U', 'S', '`']);
    assert(p_author@ =~= seq!['`', 'A', 'U', 'T', 'H', 'O', 'R', '`']);
    assert(p_labels@ =~= seq!['`', 'L', 'A', 'B', 'E', 'L', 'S', '`']);
    let empty: Vec<char> = Vec::new();
    assert(empty@ =~= Seq::<char>::empty());
    let t1 = replace_chars(&chars_of(template), &p_id, &chars_of(id));
    let t2 = replace_chars(&t1, &p_title, &chars_of(title));
    let t3 = replace_chars(&t2, &p_date, &chars_of(date));
    let t4 = replace_chars(&t3, &p_status, &chars_of("DRAFT"));
    let t5 = replace_chars(&t4, &p_author, &empty);
    let t6 = replace_chars(&t5, &p_labels, &empty);
    string_of(t6)
}

// ---------------------------------------------------------------------------
// The whole command

/// A new ADR: the name of its file and its text.
#[derive(Debug, Clone, PartialEq, Eq)]
pub struct NewAdr {
    pub file_name: String,
    pub content: String,
}

/// The file name of ADR `id`: `<id>-<title slug>.md`.
pub open spec fn adr_file_name(id: u32, slug: Seq<char>) -> Seq<char> {
    id_text(id) + seq!['-'] + slug + seq!['.', 'm', 'd']
}

/// Every id in use is at most the largest one.
pub proof fn lemma_max_file_id(names: Seq<Seq<char>>)
    ensures
        forall|i: int|
            0 <= i < names.len() ==> (#[trigger] spec_extract_id(names[i]) matches Some(k) ==> k
                <= max_file_id(names)),
    decreases names.len(),
{
    if names.len() > 0 {
        lemma_max_file_id(names.drop_last());
        assert forall|i: int| 0 <= i < names.len() implies (#[trigger] spec_extract_id(
            names[i],
        ) matches Some(k) ==> k <= max_file_id(names)) by {
            if i < names.len() - 1 {
                assert(names[i] == names.drop_last()[i]);
            }
        }
    }
}

/// The id that `new` chooses is in use by no ADR file of the directory: it is
/// larger than every id found in the file names.
pub proof fn law_next_id_is_unused(names: Seq<Seq<char>>)
    requires
        max_file_id(names) < u32::MAX,
    ensures
        forall|i: int|
            0 <= i < names.len() ==> (#[trigger] spec_extract_id(names[i]) matches Some(k) ==> k
                < max_file_id(names) + 1),
{
    lemma_max_file_id(names);
}

proof fn lemma_first_invalid_none(s: Seq<char>, i: int)
    requires
        0 <= i,
        first_invalid_from(s, i) is None,
    ensures
        forall|k: int| i <= k < s.len() ==> !is_invalid_title_char(#[trigger] s[k]),
    decreases s.len() - i,
{
    if i < s.len() {
        lemma_first_invalid_none(s, i + 1);
    }
}

proof fn lemma_slug_chars(s: Seq<char>, i: int)
    requires
        0 <= i <= s.len(),
        forall|k: int| 0 <= k < s.len() ==> !is_invalid_title_char(#[trigger] s[k]),
    ensures
        replace_from(s, seq![' '], seq!['-'], i).len() == s.len() - i,
        forall|k: int|
            0 <= k < replace_from(s, seq![' '], seq!['-'], i).len() ==> #[trigger] replace_from(
                s,
                seq![' '],
                seq!['-'],
                i,
            )[k] != ' ' && !is_invalid_title_char(replace_from(s, seq![' '], seq!['-'], i)[k]),
    decreases s.len() - i,
{
    if i < s.len() {
        lemma_slug_chars(s, i + 1);
        let rest = replace_from(s, seq![' '], seq!['-'], i + 1);
        let head: Seq<char> = if s.subrange(i, i + 1) == seq![' '] {
            seq!['-']
        } else {
            seq![s[i]]
        };
        if s.subrange(i, i + 1) != seq![' '] {
            assert(s[i] != ' ') by {
                if s[i] == ' ' {
                    assert(s.subrange(i, i + 1) =~= seq![' ']);
                }
            }
        }
        assert(replace_from(s, seq![' '], seq!['-'], i) == head + rest);
        assert forall|k: int|
            0 <= k < replace_from(s, seq![' '], seq!['-'], i).len() implies #[trigger] replace_from(
            s,
            seq![' '],
            seq!['-'],
            i,
        )[k] != ' ' && !is_invalid_title_char(replace_from(s, seq![' '], seq!['-'], i)[k]) by {
            if k > 0 {
                assert((head + rest)[k] == rest[k - 1]);
            }
        }
    }
}

/// A title that `new` accepts gives a file name part of the same length with no
/// space in it and no character that file names may not hold.
pub proof fn law_accepted_title_names_a_file(title: Seq<char>)
    requires
        title_problem(title) is None,
    ensures
        title_slug(title).len() == title.len(),
        forall|k: int|
            0 <= k < title_slug(title).len() ==> #[trigger] title_slug(title)[k] != ' '
                && !is_invalid_title_char(title_slug(title)[k]),
{
    lemma_first_invalid_none(title, 0);
    lemma_slug_chars(title, 0);
}

/// The file that `new` creates is found again under its id: whatever the title,
/// the id read back from the name `<id>-<title slug>.md` is the id it was
/// written with.
pub proof fn law_file_name_carries_id(id: u32, slug: Seq<char>)
    ensures
        spec_extract_id(adr_file_name(id, slug)) == Some(id),
{
    let t = id_text(id);
    let name = adr_file_name(id, slug);
    lemma_id_text_digits(id);
    assert(name.skip(name.len() - 3) =~= seq!['.', 'm', 'd']);
    let stem = name.take(name.len() - 3);
    assert(stem =~= t + seq!['-'] + slug);
    assert(occurs_at(stem, seq!['-'], t.len() as int)) by {
        assert(stem.subrange(t.len() as int, t.len() + 1int) =~= seq!['-']);
    }
    assert forall|k: int| 0 <= k < t.len() implies !occurs_at(stem, seq!['-'], k) by {
        assert(stem.subrange(k, k + 1)[0] == t[k]);
        assert(crate::text::is_digit(t[k]));
    }
    lemma_find_first(stem, seq!['-'], 0, t.len() as int);
    assert(stem.take(t.len() as int) =~= t);
}

/// The work of `new` on what it has read: the title given, the text of the
/// template, the names of the files in the ADR directory and today's date.
/// The new ADR takes the next id; its file is named `<id>-<title slug>.md`
/// and filled in from the template. The id is chosen before the title is
/// checked, so an exhausted id range is reported first.
pub fn run(title: &str, template: &str, file_names: &[String], date: &str) -> (r: Result<
    NewAdr,
    NewError,
>)
    ensures
        ({
            let names = crate::text::views(file_names@);
            let m = max_file_id(names);
            if m == u32::MAX {
                r matches Err(NewError::IdOverflow { max }) && max@ == id_text(u32::MAX)
            } else {
                match title_problem(title@) {
                    Some(reason) => r matches Err(NewError::InvalidTitle { title: t, reason: why })
                        && t@ == title@ && why@ == reason,
                    None => r matches Ok(adr) && adr.file_name@ == adr_file_name(
                        (m + 1) as u32,
                        title_slug(title@),
                    ) && adr.content@ == spec_render_template(
                        template@,
                        id_text((m + 1) as u32),
                        title@,
                        date@,
                    ),
                }
            }
        }),
{
    let next_id = match next_adr_id(file_names) {
        Ok(n) => n,
        Err(e) => return Err(e),
    };
    let id_string = format_id(next_id);
    let slug = match normalize_title_for_filename(title) {
        Ok(s) => s,
        Err(e) => return Err(e),
    };
    let mut file_name = String::from_str(id_string.as_str());
    let dash_v = vec!['-'];
    assert(dash_v@ =~= seq!['-']);
    file_name.append(string_of(dash_v).as_str());
    file_name.append(slug.as_str());
    let md = vec!['.', 'm', 'd'];
    assert(md@ =~= seq!['.', 'm', 'd']);
    file_name.append(string_of(md).as_str());
    assert(file_name@ =~= adr_file_name(next_id, title_slug(title@)));
    let content = render_template(template, id_string.as_str(), title, date);
    Ok(NewAdr { file_name, content })
}

/// A character that a file name may not hold: a control character
/// (U+0000 to U+001F, U+007F to U+009F) or one of `< > : " / \ | ? *`.
pub open spec fn forbidden_in_file_name(c: char) -> bool {
    ||| c <= '\u{1f}'
    ||| ('\u{7f}' <= c && c <= '\u{9f}')
    ||| c == '<'
    ||| c == '>'
    ||| c == ':'
    ||| c == '"'
    ||| c == '/'
    ||| c == '\\'
    ||| c == '|'
    ||| c == '?'
    ||| c == '*'
}

proof fn lemma_first_invalid_absent(s: Seq<char>, i: int)
    requires
        0 <= i,
        forall|k: int| 0 <= k < s.len() ==> !forbidden_in_file_name(#[trigger] s[k]),
    ensures
        first_invalid_from(s, i) is None,
    decreases s.len() - i,
{
    if i < s.len() {
        assert(!forbidden_in_file_name(s[i]));
        lemma_first_invalid_absent(s, i + 1);
    }
}

proof fn lemma_first_invalid_present(s: Seq<char>, i: int, j: int)
    requires
        0 <= i <= j < s.len(),
        forbidden_in_file_name(s[j]),
    ensures
        first_invalid_from(s, i) matches Some(c) && forbidden_in_file_name(c) && s.contains(c),
    decreases j - i,
{
    if is_invalid_title_char(s[i]) {
        assert(s[i] == s[i]);
    } else {
        lemma_first_invalid_present(s, i + 1, j);
    }
}

proof fn lemma_replace_spaces(s: Seq<char>, i: int)
    requires
        0 <= i <= s.len(),
    ensures
        replace_from(s, seq![' '], seq!['-'], i).len() == s.len() - i,
        forall|k: int|
            0 <= k < s.len() - i ==> #[trigger] replace_from(s, seq![' '], seq!['-'], i)[k] == (if s[i
                + k] == ' ' {
                '-'
            } else {
                s[i + k]
            }),
    decreases s.len() - i,
{
    if i < s.len() {
        lemma_replace_spaces(s, i + 1);
        let rest = replace_from(s, seq![' '], seq!['-'], i + 1);
        if s[i] == ' ' {
            assert(s.subrange(i, i + 1) =~= seq![' ']);
            assert(replace_from(s, seq![' '], seq!['-'], i) == seq!['-'] + rest);
        } else {
            assert(s.subrange(i, i + 1) != seq![' ']) by {
                assert(s.subrange(i, i + 1)[0] == s[i]);
            }
            assert(replace_from(s, seq![' '], seq!['-'], i) == seq![s[i]] + rest);
        }
        assert forall|k: int| 0 <= k < s.len() - i implies #[trigger] replace_from(
            s,
            seq![' '],
            seq!['-'],
            i,
        )[k] == (if s[i + k] == ' ' {
            '-'
        } else {
            s[i + k]
        }) by {
            if k > 0 {
                assert(replace_from(s, seq![' '], seq!['-'], i)[k] == rest[k - 1]);
            }
        }
    }
}

/// A title is refused for its characters only where it holds a control
/// character or one of `< > : " / \ | ? *`: a title that is not blank, does not
/// end with a space or a dot, and holds none of those is accepted, and its
/// file name part is the title with each space turned into a dash and every
/// other character kept; a title that holds one of them is refused, naming
/// such a character of the title.
pub proof fn law_title_refused_only_for_forbidden_chars(title: Seq<char>)
    requires
        trim(title).len() > 0,
        title.len() > 0,
        title.last() != ' ',
        title.last() != '.',
    ensures
        (forall|k: int| 0 <= k < title.len() ==> !forbidden_in_file_name(#[trigger] title[k]))
            ==> title_problem(title) is None,
        (exists|k: int| 0 <= k < title.len() && forbidden_in_file_name(#[trigger] title[k]))
            ==> (title_problem(title) matches Some(reason) && exists|c: char|
            forbidden_in_file_name(c) && title.contains(c) && reason == #[trigger] reason_invalid_char(
                c,
            )),
        title_slug(title).len() == title.len(),
        forall|k: int|
            0 <= k < title.len() ==> #[trigger] title_slug(title)[k] == (if title[k] == ' ' {
                '-'
            } else {
                title[k]
            }),
{
    let tail = title.skip(title.len() - 1);
    assert(tail[0] == title.last());
    assert(!ends_with(title, seq![' '])) by {
        if ends_with(title, seq![' ']) {
            assert(tail[0] == seq![' '][0]);
        }
    }
    assert(!ends_with(title, seq!['.'])) by {
        if ends_with(title, seq!['.']) {
            assert(tail[0] == seq!['.'][0]);
        }
    }
    if forall|k: int| 0 <= k < title.len() ==> !forbidden_in_file_name(#[trigger] title[k]) {
        lemma_first_invalid_absent(title, 0);
    }
    if exists|k: int| 0 <= k < title.len() && forbidden_in_file_name(#[trigger] title[k]) {
        let j = choose|k: int| 0 <= k < title.len() && forbidden_in_file_name(#[trigger] title[k]);
        lemma_first_invalid_present(title, 0, j);
        let c = first_invalid_from(title, 0)->0;
        assert(title_problem(title) == Some(reason_invalid_char(c)));
    }
    lemma_replace_spaces(title, 0);
    assert forall|k: int| 0 <= k < title.len() implies #[trigger] title_slug(title)[k] == (if title[k]
        == ' ' {
        '-'
    } else {
        title[k]
    }) by {
        assert(replace_from(title, seq![' '], seq!['-'], 0)[k] == (if title[0 + k] == ' ' {
            '-'
        } else {
            title[0 + k]
        }));
    }
}

} // verus!
