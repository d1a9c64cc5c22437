//! ADR ids: how they are written (zero-padded to three digits, or as a file
//! name writes them) and how they are read back from file names such as
//! `0005-Decision-X.md`.

use vstd::prelude::*;
use crate::text::{all_digits, chars_of, ends_with, find_chars, slice_chars, split_once, string_of};

verus! {

/// The character of the decimal digit `d`.
pub open spec fn digit_char(d: nat) -> char {
    (d + 48) as char
}

/// The value of the decimal digit character `c`.
pub open spec fn digit_value(c: char) -> nat {
    (c as int - 48) as nat
}

/// The decimal representation of `n`, without leading zeros.
pub open spec fn decimal(n: nat) -> Seq<char>
    decreases n,
{
    if n < 10 {
        seq![digit_char(n)]
    } else {
        decimal(n / 10).push(digit_char(n % 10))
    }
}

/// `s` preceded by as many `'0'` as it takes to reach `width` characters.
pub open spec fn zero_pad(s: Seq<char>, width: nat) -> Seq<char> {
    if s.len() >= width {
        s
    } else {
        Seq::new((width - s.len()) as nat, |i: int| '0') + s
    }
}

/// An id written in decimal, zero-padded to `width` digits.
pub open spec fn padded_id(id: u32, width: nat) -> Seq<char> {
    zero_pad(decimal(id as nat), width)
}

/// An id as the tool writes it: decimal, zero-padded to three digits.
pub open spec fn id_text(id: u32) -> Seq<char> {
    padded_id(id, 3)
}

/// The number that a string of decimal digits denotes.
pub open spec fn digits_value(s: Seq<char>) -> nat
    decreases s.len(),
{
    if s.len() == 0 {
        0
    } else {
        digits_value(s.drop_last()) * 10 + digit_value(s.last())
    }
}

/// `str::parse::<u32>` on a non-empty string of ASCII digits: the number it
/// denotes, or `None` where that does not fit in a `u32`.
pub open spec fn parse_digits(s: Seq<char>) -> Option<u32> {
    if digits_value(s) <= u32::MAX {
        Some(digits_value(s) as u32)
    } else {
        None
    }
}

proof fn lemma_decimal_digits(n: nat)
    ensures
        all_digits(decimal(n)),
        1 <= decimal(n).len() <= 1 + n,
    decreases n,
{
    if n >= 10 {
        lemma_decimal_digits(n / 10);
    }
}

fn push_decimal(n: u32, out: &mut Vec<char>)
    ensures
        final(out)@ == old(out)@ + decimal(n as nat),
    decreases n,
{
    if n >= 10 {
        push_decimal(n / 10, out);
    }
    let d: u8 = (n % 10) as u8;
    out.push((48u8 + d) as char);
    assert(old(out)@ + decimal(n as nat) =~= final(out)@) by {
        if n >= 10 {
            assert(decimal(n as nat) == decimal((n / 10) as nat).push(digit_char((n % 10) as nat)));
        }
    }
}

/// `s` preceded by as many `'0'` as it takes to reach `width` characters.
fn zero_pad_chars(s: &Vec<char>, width: usize) -> (r: Vec<char>)
    ensures
        r@ == zero_pad(s@, width as nat),
{
    let mut out: Vec<char> = Vec::new();
    let mut k: usize = s.len();
    while k < width
        invariant
            s@.len() <= k,
            k <= width || k == s@.len(),
            out@ == Seq::new((k - s@.len()) as nat, |i: int| '0'),
        decreases width - k,
    {
        out.push('0');
        k = k + 1;
        assert(out@ =~= Seq::new((k - s@.len()) as nat, |i: int| '0'));
    }
    let ghost pad = out@;
    let mut i: usize = 0;
    while i < s.len()
        invariant
            0 <= i <= s@.len(),
            out@ == pad + s@.take(i as int),
        decreases s@.len() - i,
    {
        out.push(s[i]);
        i = i + 1;
        assert(out@ =~= pad + s@.take(i as int));
    }
    assert(s@.take(s@.len() as int) =~= s@);
    assert(out@ =~= zero_pad(s@, width as nat));
    out
}

/// Writes an id in decimal, zero-padded to `width` digits, as
/// `format!("{id:0width$}")` does.
pub fn format_id_width(id: u32, width: usize) -> (s: String)
    ensures
        s@ == padded_id(id, width as nat),
{
    let mut digits: Vec<char> = Vec::new();
    push_decimal(id, &mut digits);
    assert(digits@ =~= decimal(id as nat));
    string_of(zero_pad_chars(&digits, width))
}

/// Writes an id the way ADR files and messages show it: `1` becomes `001`,
/// `123` stays `123`.
pub fn format_id(id: u32) -> (s: String)
    ensures
        s@ == id_text(id),
{
    format_id_width(id, 3)
}

proof fn lemma_digit_roundtrip(d: nat)
    requires
        d < 10,
    ensures
        digit_value(digit_char(d)) == d,
{
    assert(((d + 48) as char) as int == d + 48);
}

proof fn lemma_digits_value_decimal(n: nat)
    ensures
        digits_value(decimal(n)) == n,
    decreases n,
{
    lemma_digit_roundtrip(n % 10);
    if n >= 10 {
        lemma_digits_value_decimal(n / 10);
        assert(decimal(n).drop_last() =~= decimal(n / 10));
        assert(decimal(n).last() == digit_char(n % 10));
        assert(n == (n / 10) * 10 + n % 10) by (nonlinear_arith);
        assert(digits_value(decimal(n)) == digits_value(decimal(n).drop_last()) * 10 + digit_value(
            decimal(n).last(),
        ));
    } else {
        assert(digits_value(decimal(n)) == digits_value(decimal(n).drop_last()) * 10 + digit_value(
            decimal(n).last(),
        ));
        assert(decimal(n).drop_last() =~= Seq::<char>::empty());
        assert(n % 10 == n);
    }
}

proof fn lemma_digits_value_zeros(z: Seq<char>, s: Seq<char>)
    requires
        forall|i: int| 0 <= i < z.len() ==> z[i] == '0',
    ensures
        digits_value(z + s) == digits_value(s),
    decreases s.len(), z.len(),
{
    if s.len() == 0 {
        if z.len() > 0 {
            assert((z + s).drop_last() =~= z.drop_last() + s);
            lemma_digits_value_zeros(z.drop_last(), s);
        }
        assert(z + s =~= z);
    } else {
        assert((z + s).drop_last() =~= z + s.drop_last());
        lemma_digits_value_zeros(z, s.drop_last());
    }
}

/// An id written by `format_id` is a non-empty run of digits that denotes the id.
pub proof fn lemma_id_text_digits(id: u32)
    ensures
        id_text(id).len() >= 1,
        all_digits(id_text(id)),
        digits_value(id_text(id)) == id,
{
    lemma_decimal_digits(id as nat);
    lemma_digits_value_decimal(id as nat);
    let d = decimal(id as nat);
    if d.len() < 3 {
        let z = Seq::new((3 - d.len()) as nat, |i: int| '0');
        lemma_digits_value_zeros(z, d);
        assert forall|i: int| 0 <= i < id_text(id).len() implies crate::text::is_digit(
            #[trigger] id_text(id)[i],
        ) by {
            if i >= z.len() {
                assert(id_text(id)[i] == d[i - z.len()]);
            }
        }
    }
}

/// The id digits of an ADR file name `<digits>-<rest>.md`: the name must end in
/// `.md`, and before that the part up to the first `-` must be a non-empty run
/// of ASCII digits.
pub open spec fn spec_file_id_digits(name: Seq<char>) -> Option<Seq<char>> {
    if ends_with(name, seq!['.', 'm', 'd']) {
        let stem = name.take(name.len() - 3);
        match split_once(stem, seq!['-']) {
            Some((id_part, _)) => {
                if id_part.len() == 0 || !all_digits(id_part) {
                    None
                } else {
                    Some(id_part)
                }
            },
            None => None,
        }
    } else {
        None
    }
}

/// `extract_id_from_filename`: the id of an ADR file name `<digits>-<rest>.md`,
/// where the digits denote a `u32`.
pub open spec fn spec_extract_id(name: Seq<char>) -> Option<u32> {
    match spec_file_id_digits(name) {
        Some(digits) => parse_digits(digits),
        None => None,
    }
}

proof fn lemma_digits_value_prefix(s: Seq<char>, k: int)
    requires
        0 <= k <= s.len(),
    ensures
        digits_value(s.take(k)) <= digits_value(s),
    decreases s.len(),
{
    if k < s.len() {
        assert(s.drop_last().take(k) =~= s.take(k));
        lemma_digits_value_prefix(s.drop_last(), k);
    } else {
        assert(s.take(k) =~= s);
    }
}

/// The number that a non-empty string of ASCII digits denotes, or `None` where
/// it does not fit in a `u32` (what `str::parse::<u32>` gives on such input).
pub fn parse_u32_digits(s: &Vec<char>) -> (r: Option<u32>)
    requires
        all_digits(s@),
    ensures
        r == parse_digits(s@),
{
    let mut acc: u32 = 0;
    let mut i: usize = 0;
    assert(s@.take(0) =~= Seq::<char>::empty());
    while i < s.len()
        invariant
            0 <= i <= s@.len(),
            all_digits(s@),
            acc as nat == digits_value(s@.take(i as int)),
        decreases s@.len() - i,
    {
        let c = s[i];
        assert('0' <= c && c <= '9');
        let d: u32 = (c as u32) - 48;
        assert(s@.take(i + 1).drop_last() =~= s@.take(i as int));
        assert(digits_value(s@.take(i + 1)) == acc * 10 + d);
        if acc > 429496729 || (acc == 429496729 && d > 5) {
            proof {
                lemma_digits_value_prefix(s@, i + 1);
            }
            return None;
        }
        acc = acc * 10 + d;
        i = i + 1;
    }
    assert(s@.take(s@.len() as int) =~= s@);
    Some(acc)
}

/// The id digits of an ADR file name such as `0005-Decision-X.md` (here
/// `0005`); `None` for names that do not have the form `<digits>-<rest>.md`.
pub fn file_id_digits(file_name: &str) -> (r: Option<Vec<char>>)
    ensures
        match r {
            Some(d) => spec_file_id_digits(file_name@) == Some(d@),
            None => spec_file_id_digits(file_name@) is None,
        },
{
    let name = chars_of(file_name);
    let suffix = vec!['.', 'm', 'd'];
    assert(suffix@ =~= seq!['.', 'm', 'd']);
    if name.len() < 3 {
        return None;
    }
    if !crate::text::matches_at(&name, &suffix, name.len() - 3) {
        assert(!ends_with(name@, suffix@));
        return None;
    }
    assert(ends_with(name@, seq!['.', 'm', 'd']));
    let stem = slice_chars(&name, 0, name.len() - 3);
    assert(stem@ =~= name@.take(name@.len() - 3));
    let dash = vec!['-'];
    assert(dash@ =~= seq!['-']);
    match find_chars(&stem, &dash, 0) {
        None => None,
        Some(k) => {
            proof {
                crate::text::lemma_find_from(stem@, dash@, 0);
            }
            let id_part = slice_chars(&stem, 0, k);
            assert(id_part@ =~= stem@.take(k as int));
            if k == 0 || !crate::text::all_ascii_digits(&id_part) {
                return None;
            }
            Some(id_part)
        },
    }
}

/// The id of an ADR file name such as `0005-Decision-X.md` (here `5`); `None`
/// for names that do not have the form `<digits>-<rest>.md`, or whose digits do
/// not fit in a `u32`.
pub fn extract_id_from_filename(file_name: &str) -> (r: Option<u32>)
    ensures
        r == spec_extract_id(file_name@),
{
    match file_id_digits(file_name) {
        Some(d) => parse_u32_digits(&d),
        None => None,
    }
}

/// How an ADR is named where it is listed: the id digits of its file name,
/// zero-padded to three digits (`0001-a.md` gives `0001`, `7-a.md` gives
/// `007`); where the file name has no id digits, the id padded to three digits.
pub open spec fn spec_listed_id(file_name: Seq<char>, id: u32) -> Seq<char> {
    match spec_file_id_digits(file_name) {
        Some(d) => zero_pad(d, 3),
        None => id_text(id),
    }
}

/// Writes the id of an ADR as its file name writes it (see `spec_listed_id`).
pub fn listed_id(file_name: &str, id: u32) -> (s: String)
    ensures
        s@ == spec_listed_id(file_name@, id),
{
    match file_id_digits(file_name) {
        Some(d) => string_of(zero_pad_chars(&d, 3)),
        None => format_id(id),
    }
}

} // verus!
