//! Version ranges.
//!
//! A range is kept as the text that writes it, such as `^1.2.3` or
//! `>=1.0.0 <2.0.0`. Reading a range and testing a version against it are
//! done by the `node_semver` crate. Its parser aborts on an exact or tilde
//! range with a wildcard in certain places (`=*`, `~x`, `~1.x.3`); the texts
//! on which it does are told apart here, before the parser sees them, and
//! are not taken for ranges.

use crate::semver::{Identifier, Version, VersionView};
use crate::text::{chars_of, digit_value, digits_value, is_digit, is_digit_char};
use vstd::prelude::*;

verus! {

/// Whether `node_semver::Range::parse` accepts `text` as a range.
pub uninterp spec fn range_parses(text: Seq<char>) -> bool;

/// Whether `version` lies in the range that `node_semver::Range::parse`
/// reads from `range`, as `node_semver::Version::satisfies` decides it.
pub uninterp spec fn range_admits(version: VersionView, range: Seq<char>) -> bool;

/// The largest number that the range parser takes for a part of a version.
pub const MAX_SAFE_INTEGER: u64 = 900_719_925_474_099;

/// A character that stands for "any number" in a range.
pub open spec fn is_wildcard(c: char) -> bool {
    c == 'x' || c == 'X' || c == '*'
}

/// A space or a tab.
pub open spec fn is_blank(c: char) -> bool {
    c == ' ' || c == '\t'
}

/// The first position at or after `i` that holds no blank.
pub open spec fn after_blanks(text: Seq<char>, i: int) -> int
    decreases text.len() - i,
{
    if 0 <= i < text.len() && is_blank(text[i]) {
        after_blanks(text, i + 1)
    } else {
        i
    }
}

/// The first position at or after `i` that holds no digit.
pub open spec fn after_digits(text: Seq<char>, i: int) -> int
    decreases text.len() - i,
{
    if 0 <= i < text.len() && is_digit(text[i]) {
        after_digits(text, i + 1)
    } else {
        i
    }
}

/// The position after the character `c`, if it stands at `i`; else `i`.
pub open spec fn after_char(text: Seq<char>, i: int, c: char) -> int {
    if 0 <= i < text.len() && text[i] == c {
        i + 1
    } else {
        i
    }
}

/// Where the first number of a version is expected that is written from
/// `i` on: after blanks, a `v` if there is one, and blanks again.
pub open spec fn partial_at(text: Seq<char>, i: int) -> int {
    after_blanks(text, after_char(text, after_blanks(text, i), 'v'))
}

/// Whether a wildcard stands at `i`.
pub open spec fn wildcard_at(text: Seq<char>, i: int) -> bool {
    0 <= i < text.len() && is_wildcard(text[i])
}

/// Whether a dot stands at `i`.
pub open spec fn dot_at(text: Seq<char>, i: int) -> bool {
    0 <= i < text.len() && text[i] == '.'
}

/// Whether a number that the range parser takes stands at `i`: a row of
/// digits, as long as it goes, whose value is at most `MAX_SAFE_INTEGER`.
pub open spec fn number_at(text: Seq<char>, i: int) -> bool {
    0 <= i < after_digits(text, i) <= text.len() && digits_value(
        text.subrange(i, after_digits(text, i)),
    ) <= MAX_SAFE_INTEGER
}

/// How many bars stand in a row directly before `j`.
pub open spec fn bars_before(text: Seq<char>, j: int) -> nat
    decreases j,
{
    if 0 < j <= text.len() && text[j - 1] == '|' {
        1 + bars_before(text, j - 1)
    } else {
        0
    }
}

/// Whether the range parser looks for a part of a range at `j`: at the
/// start of the text, after a blank, and after bars that pair up.
pub open spec fn begins_part(text: Seq<char>, j: int) -> bool {
    j == 0 || is_blank(text[j - 1]) || (bars_before(text, j) > 0 && bars_before(text, j) % 2 == 0)
}

/// Whether a tilde range whose first number is expected at `m` makes the
/// range parser abort: the first number is a wildcard, or it is a number,
/// the second a wildcard and the third a number (`~1.x.3`).
pub open spec fn tilde_aborts(text: Seq<char>, m: int) -> bool {
    let dot = after_digits(text, m);
    wildcard_at(text, m) || (number_at(text, m) && dot_at(text, dot) && wildcard_at(text, dot + 1)
        && dot_at(text, dot + 2) && number_at(text, dot + 3))
}

/// Whether what is written after the `=` or the `~` at `j` makes the range
/// parser abort: after `=`, a version whose first number is a wildcard
/// (`=*`, `= v x`); after `~`, and a `>` if there is one, a version with
/// which a tilde range aborts.
pub open spec fn aborts_after(text: Seq<char>, j: int) -> bool {
    (text[j] == '=' && wildcard_at(text, partial_at(text, j + 1))) || (text[j] == '~'
        && tilde_aborts(text, partial_at(text, after_char(text, after_blanks(text, j + 1), '>'))))
}

/// Whether the range parser aborts on the part of a range that it looks
/// for at `j`.
pub open spec fn aborts_at(text: Seq<char>, j: int) -> bool {
    0 <= j < text.len() && begins_part(text, j) && aborts_after(text, j)
}

/// The range texts that this library hands to the range parser: those on
/// which it does not abort.
pub open spec fn range_is_supported(text: Seq<char>) -> bool {
    forall|j: int| 0 <= j < text.len() ==> !#[trigger] aborts_at(text, j)
}

/// A range text is valid when it is supported and parses.
pub open spec fn range_is_valid(text: Seq<char>) -> bool {
    range_is_supported(text) && range_parses(text)
}

fn skip_blanks(chars: &Vec<char>, from: usize) -> (to: usize)
    requires
        from <= chars.len(),
    ensures
        to == after_blanks(chars@, from as int),
        from <= to <= chars.len(),
{
    let mut i: usize = from;
    while i < chars.len() && (chars[i] == ' ' || chars[i] == '\t')
        invariant
            from <= i <= chars.len(),
            after_blanks(chars@, from as int) == after_blanks(chars@, i as int),
        decreases chars.len() - i,
    {
        i = i + 1;
    }
    i
}

fn skip_char(chars: &Vec<char>, from: usize, c: char) -> (to: usize)
    requires
        from <= chars.len(),
    ensures
        to == after_char(chars@, from as int, c),
        from <= to <= chars.len(),
{
    if from < chars.len() && chars[from] == c {
        from + 1
    } else {
        from
    }
}

fn skip_partial(chars: &Vec<char>, from: usize) -> (to: usize)
    requires
        from <= chars.len(),
    ensures
        to == partial_at(chars@, from as int),
        from <= to <= chars.len(),
{
    let v = skip_blanks(chars, from);
    let after_v = skip_char(chars, v, 'v');
    skip_blanks(chars, after_v)
}

fn has_wildcard_at(chars: &Vec<char>, i: usize) -> (wildcard: bool)
    ensures
        wildcard == wildcard_at(chars@, i as int),
{
    i < chars.len() && (chars[i] == 'x' || chars[i] == 'X' || chars[i] == '*')
}

fn has_dot_at(chars: &Vec<char>, i: usize) -> (dot: bool)
    ensures
        dot == dot_at(chars@, i as int),
{
    i < chars.len() && chars[i] == '.'
}

/// Reads the digits from `from` on: where they end, and whether they are a
/// number that the range parser takes.
fn read_number(chars: &Vec<char>, from: usize) -> (read: (usize, bool))
    requires
        from <= chars.len(),
    ensures
        read.0 == after_digits(chars@, from as int),
        from <= read.0 <= chars.len(),
        read.1 == number_at(chars@, from as int),
{
    let mut i: usize = from;
    let mut value: u64 = 0;
    let mut too_large = false;
    assert(chars@.subrange(from as int, from as int) =~= Seq::<char>::empty());
    while i < chars.len() && is_digit_char(chars[i])
        invariant
            from <= i <= chars.len(),
            after_digits(chars@, from as int) == after_digits(chars@, i as int),
            !too_large ==> value == digits_value(chars@.subrange(from as int, i as int)),
            too_large ==> digits_value(chars@.subrange(from as int, i as int)) > MAX_SAFE_INTEGER,
        decreases chars.len() - i,
    {
        let d = digit_value(chars[i]);
        proof {
            let longer = chars@.subrange(from as int, i + 1);
            assert(longer.drop_last() =~= chars@.subrange(from as int, i as int));
            assert(longer.last() == chars@[i as int]);
        }
        if too_large || value > MAX_SAFE_INTEGER {
            too_large = true;
        } else {
            value = value * 10 + d;
        }
        i = i + 1;
    }
    (i, from < i && !too_large && value <= MAX_SAFE_INTEGER)
}

fn tilde_range_aborts(chars: &Vec<char>, m: usize) -> (aborts: bool)
    requires
        m <= chars.len(),
    ensures
        aborts == tilde_aborts(chars@, m as int),
{
    if has_wildcard_at(chars, m) {
        return true;
    }
    let (dot, first) = read_number(chars, m);
    if !first || !has_dot_at(chars, dot) || !has_wildcard_at(chars, dot + 1) || !has_dot_at(
        chars,
        dot + 2,
    ) {
        return false;
    }
    let (_, third) = read_number(chars, dot + 3);
    third
}

fn range_aborts_after(chars: &Vec<char>, j: usize) -> (aborts: bool)
    requires
        j < chars.len(),
    ensures
        aborts == aborts_after(chars@, j as int),
{
    if chars[j] == '=' {
        let number = skip_partial(chars, j + 1);
        has_wildcard_at(chars, number)
    } else if chars[j] == '~' {
        let gt = skip_blanks(chars, j + 1);
        let after_gt = skip_char(chars, gt, '>');
        let number = skip_partial(chars, after_gt);
        tilde_range_aborts(chars, number)
    } else {
        false
    }
}

/// Tells whether `text` is a range text that this library hands to the range
/// parser.
pub fn is_supported_range(text: &str) -> (supported: bool)
    ensures
        supported == range_is_supported(text@),
{
    let chars = chars_of(text);
    let mut bars: usize = 0;
    let mut j: usize = 0;
    while j < chars.len()
        invariant
            j <= chars.len(),
            chars@ == text@,
            bars == bars_before(chars@, j as int),
            bars <= j,
            forall|k: int| 0 <= k < j ==> !#[trigger] aborts_at(chars@, k),
        decreases chars.len() - j,
    {
        let c = chars[j];
        let begins = j == 0 || chars[j - 1] == ' ' || chars[j - 1] == '\t' || (bars > 0 && bars
            % 2 == 0);
        if begins && range_aborts_after(&chars, j) {
            assert(aborts_at(chars@, j as int));
            return false;
        }
        if c == '|' {
            bars = bars + 1;
        } else {
            bars = 0;
        }
        j = j + 1;
    }
    true
}

/// Calls `node_semver::Range::parse` and tells whether it accepted the text.
/// The parser aborts where it reads an exact range (`=`) whose first number
/// is a wildcard, or a tilde range (`~`) whose first number is a wildcard,
/// or whose second number is a wildcard while the first and the third are
/// numbers. It reads such a range only where it looks for a part of a
/// range: at the start of the text, after a space or a tab, and after `||`.
/// A supported text has no such range in such a place, so the parser does
/// not abort on it.
#[verifier::external_body]
pub(crate) fn parses_as_range(text: &str) -> (accepted: bool)
    requires
        range_is_supported(text@),
    ensures
        accepted == range_parses(text@),
{
    node_semver::Range::parse(text).is_ok()
}

/// Calls `node_semver::Version::satisfies` on `version` and on the range
/// that `node_semver::Range::parse` reads from `range`. The range is read
/// anew at each call, since a range that has been read cannot be held as a
/// plain value.
#[verifier::external_body]
pub(crate) fn satisfies(version: &Version, range: &str) -> (admitted: bool)
    requires
        range_is_valid(range@),
    ensures
        admitted == range_admits(version@, range@),
{
    let ids = |v: &Vec<Identifier>| v.iter().map(|i| match i {
        Identifier::Numeric(n) => node_semver::Identifier::Numeric(*n),
        Identifier::AlphaNumeric(s) => node_semver::Identifier::AlphaNumeric(s.clone()),
    }).collect::<Vec<_>>();
    let v = node_semver::Version {
        major: version.major, minor: version.minor, patch: version.patch,
        build: ids(&version.build), pre_release: ids(&version.pre_release),
    };
    match node_semver::Range::parse(range) {
        Ok(parsed) => v.satisfies(&parsed),
        Err(_) => false,
    }
}

} // verus!
