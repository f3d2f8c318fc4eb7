//! The precedence of semantic versions.
//!
//! Two versions are compared by the `node_semver` crate. The order that it
//! implements is written down here as [`precedence`] and shown to be a total
//! preorder, in which two versions tie exactly when they differ in nothing
//! but build metadata.

use crate::semver::{Identifier, IdentifierView, Version, VersionView};
use vstd::prelude::*;

verus! {

/// The sign of `a - b`: -1, 0 or 1.
pub open spec fn order_numbers(a: u64, b: u64) -> int {
    if a < b {
        -1
    } else if a == b {
        0
    } else {
        1
    }
}

/// Lexicographic order of two texts by code point: -1 if `a` comes first,
/// 1 if `b` does, 0 if they are the same text. A proper prefix comes first.
pub open spec fn order_chars(a: Seq<char>, b: Seq<char>) -> int
    decreases a.len(),
{
    if a.len() == 0 {
        if b.len() == 0 {
            0
        } else {
            -1
        }
    } else if b.len() == 0 {
        1
    } else if a[0] != b[0] {
        if a[0] < b[0] {
            -1
        } else {
            1
        }
    } else {
        order_chars(a.skip(1), b.skip(1))
    }
}

/// Order of two identifiers: a numeric one comes before an alphanumeric one,
/// two numeric ones go by value, two alphanumeric ones by their text.
pub open spec fn order_identifier(a: IdentifierView, b: IdentifierView) -> int {
    match (a, b) {
        (IdentifierView::Numeric(x), IdentifierView::Numeric(y)) => order_numbers(x, y),
        (IdentifierView::Numeric(_), IdentifierView::AlphaNumeric(_)) => -1,
        (IdentifierView::AlphaNumeric(_), IdentifierView::Numeric(_)) => 1,
        (IdentifierView::AlphaNumeric(s), IdentifierView::AlphaNumeric(t)) => order_chars(s, t),
    }
}

/// Lexicographic order of two lists of identifiers. A proper prefix comes
/// first.
pub open spec fn order_identifiers(a: Seq<IdentifierView>, b: Seq<IdentifierView>) -> int
    decreases a.len(),
{
    if a.len() == 0 {
        if b.len() == 0 {
            0
        } else {
            -1
        }
    } else if b.len() == 0 {
        1
    } else if order_identifier(a[0], b[0]) != 0 {
        order_identifier(a[0], b[0])
    } else {
        order_identifiers(a.skip(1), b.skip(1))
    }
}

/// Order of two pre-release tags: a version without a tag comes after every
/// tagged version of the same `major.minor.patch`.
pub open spec fn order_pre_release(a: Seq<IdentifierView>, b: Seq<IdentifierView>) -> int {
    if a.len() == 0 && b.len() == 0 {
        0
    } else if a.len() == 0 {
        1
    } else if b.len() == 0 {
        -1
    } else {
        order_identifiers(a, b)
    }
}

/// Semantic-version precedence: -1 if `a` is the lower version, 1 if it is
/// the higher one, 0 if neither precedes the other. Major, minor and patch
/// decide in that order, then the pre-release tag. Build metadata plays no
/// part.
pub open spec fn precedence(a: VersionView, b: VersionView) -> int {
    if a.major != b.major {
        order_numbers(a.major, b.major)
    } else if a.minor != b.minor {
        order_numbers(a.minor, b.minor)
    } else if a.patch != b.patch {
        order_numbers(a.patch, b.patch)
    } else {
        order_pre_release(a.pre_release, b.pre_release)
    }
}

proof fn lemma_order_chars_flip(a: Seq<char>, b: Seq<char>)
    ensures
        order_chars(a, b) == -order_chars(b, a),
        -1 <= order_chars(a, b) <= 1,
        order_chars(a, b) == 0 ==> a == b,
    decreases a.len(),
{
    if a.len() > 0 && b.len() > 0 && a[0] == b[0] {
        lemma_order_chars_flip(a.skip(1), b.skip(1));
        if order_chars(a, b) == 0 {
            assert(a =~= seq![a[0]] + a.skip(1));
            assert(b =~= seq![b[0]] + b.skip(1));
        }
    } else if a.len() == 0 && b.len() == 0 {
        assert(a =~= b);
    }
}

proof fn lemma_order_chars_transitive(a: Seq<char>, b: Seq<char>, c: Seq<char>)
    requires
        order_chars(a, b) <= 0,
        order_chars(b, c) <= 0,
    ensures
        order_chars(a, c) <= 0,
        order_chars(a, c) == 0 ==> order_chars(a, b) == 0 && order_chars(b, c) == 0,
    decreases a.len(),
{
    if a.len() > 0 && b.len() > 0 && c.len() > 0 && a[0] == b[0] && b[0] == c[0] {
        lemma_order_chars_transitive(a.skip(1), b.skip(1), c.skip(1));
    }
}

proof fn lemma_order_identifier_flip(a: IdentifierView, b: IdentifierView)
    ensures
        order_identifier(a, b) == -order_identifier(b, a),
        -1 <= order_identifier(a, b) <= 1,
        order_identifier(a, b) == 0 ==> a == b,
{
    match (a, b) {
        (IdentifierView::AlphaNumeric(s), IdentifierView::AlphaNumeric(t)) => {
            lemma_order_chars_flip(s, t);
        },
        _ => {},
    }
}

proof fn lemma_order_identifier_transitive(
    a: IdentifierView,
    b: IdentifierView,
    c: IdentifierView,
)
    requires
        order_identifier(a, b) <= 0,
        order_identifier(b, c) <= 0,
    ensures
        order_identifier(a, c) <= 0,
        order_identifier(a, c) == 0 ==> order_identifier(a, b) == 0 && order_identifier(b, c)
            == 0,
{
    match (a, b, c) {
        (
            IdentifierView::AlphaNumeric(s),
            IdentifierView::AlphaNumeric(t),
            IdentifierView::AlphaNumeric(u),
        ) => {
            lemma_order_chars_transitive(s, t, u);
        },
        _ => {},
    }
}

proof fn lemma_order_identifiers_flip(a: Seq<IdentifierView>, b: Seq<IdentifierView>)
    ensures
        order_identifiers(a, b) == -order_identifiers(b, a),
        -1 <= order_identifiers(a, b) <= 1,
        order_identifiers(a, b) == 0 ==> a == b,
    decreases a.len(),
{
    if a.len() > 0 && b.len() > 0 {
        lemma_order_identifier_flip(a[0], b[0]);
        if order_identifier(a[0], b[0]) == 0 {
            lemma_order_identifiers_flip(a.skip(1), b.skip(1));
            if order_identifiers(a, b) == 0 {
                assert(a =~= seq![a[0]] + a.skip(1));
                assert(b =~= seq![b[0]] + b.skip(1));
            }
        }
    } else if a.len() == 0 && b.len() == 0 {
        assert(a =~= b);
    }
}

proof fn lemma_order_identifiers_transitive(
    a: Seq<IdentifierView>,
    b: Seq<IdentifierView>,
    c: Seq<IdentifierView>,
)
    requires
        order_identifiers(a, b) <= 0,
        order_identifiers(b, c) <= 0,
    ensures
        order_identifiers(a, c) <= 0,
        order_identifiers(a, c) == 0 ==> order_identifiers(a, b) == 0 && order_identifiers(b, c)
            == 0,
    decreases a.len(),
{
    if a.len() > 0 && b.len() > 0 && c.len() > 0 {
        lemma_order_identifier_flip(a[0], b[0]);
        lemma_order_identifier_flip(b[0], c[0]);
        lemma_order_identifier_flip(a[0], c[0]);
        lemma_order_identifier_transitive(a[0], b[0], c[0]);
        if order_identifier(a[0], b[0]) == 0 && order_identifier(b[0], c[0]) == 0 {
            lemma_order_identifiers_transitive(a.skip(1), b.skip(1), c.skip(1));
        }
    }
}

/// Precedence is antisymmetric: swapping the two versions flips the sign.
pub proof fn lemma_precedence_flips(a: VersionView, b: VersionView)
    ensures
        precedence(a, b) == -precedence(b, a),
        -1 <= precedence(a, b) <= 1,
{
    lemma_order_identifiers_flip(a.pre_release, b.pre_release);
}

/// Precedence is transitive: if `a` is not above `b` and `b` is not above
/// `c`, then `a` is not above `c`; and `a` ties with `c` only if all three
/// tie.
pub proof fn lemma_precedence_transitive(a: VersionView, b: VersionView, c: VersionView)
    requires
        precedence(a, b) <= 0,
        precedence(b, c) <= 0,
    ensures
        precedence(a, c) <= 0,
        precedence(a, c) == 0 ==> precedence(a, b) == 0 && precedence(b, c) == 0,
{
    if a.major == b.major && b.major == c.major && a.minor == b.minor && b.minor == c.minor
        && a.patch == b.patch && b.patch == c.patch {
        if a.pre_release.len() > 0 && b.pre_release.len() > 0 && c.pre_release.len() > 0 {
            lemma_order_identifiers_transitive(a.pre_release, b.pre_release, c.pre_release);
        }
    }
}

/// Two versions tie exactly when they differ in nothing but build metadata.
pub proof fn lemma_precedence_ties(a: VersionView, b: VersionView)
    ensures
        precedence(a, b) == 0 <==> a.major == b.major && a.minor == b.minor && a.patch
            == b.patch && a.pre_release == b.pre_release,
{
    lemma_order_identifiers_flip(a.pre_release, b.pre_release);
    if a.pre_release == b.pre_release {
        lemma_order_identifiers_reflexive(a.pre_release);
    }
    if a.pre_release.len() == 0 && b.pre_release.len() == 0 {
        assert(a.pre_release =~= b.pre_release);
    }
}

proof fn lemma_order_chars_reflexive(a: Seq<char>)
    ensures
        order_chars(a, a) == 0,
    decreases a.len(),
{
    if a.len() > 0 {
        lemma_order_chars_reflexive(a.skip(1));
    }
}

proof fn lemma_order_identifiers_reflexive(a: Seq<IdentifierView>)
    ensures
        order_identifiers(a, a) == 0,
    decreases a.len(),
{
    if a.len() > 0 {
        match a[0] {
            IdentifierView::AlphaNumeric(s) => {
                lemma_order_chars_reflexive(s);
            },
            _ => {},
        }
        lemma_order_identifiers_reflexive(a.skip(1));
    }
}

/// Calls the `<` of `node_semver::Version`, whose order is semantic-version
/// precedence: major, minor and patch as numbers, then a version without a
/// pre-release tag above one with a tag, then the tags identifier by
/// identifier, numeric before alphanumeric, a shorter tag before its
/// extensions.
#[verifier::external_body]
pub(crate) fn precedes(a: &Version, b: &Version) -> (lower: bool)
    ensures
        lower == (precedence(a@, b@) < 0),
{
    let ids = |v: &Vec<Identifier>| v.iter().map(|i| match i {
        Identifier::Numeric(n) => node_semver::Identifier::Numeric(*n),
        Identifier::AlphaNumeric(s) => node_semver::Identifier::AlphaNumeric(s.clone()),
    }).collect::<Vec<_>>();
    let x = node_semver::Version {
        major: a.major, minor: a.minor, patch: a.patch,
        build: ids(&a.build), pre_release: ids(&a.pre_release),
    };
    let y = node_semver::Version {
        major: b.major, minor: b.minor, patch: b.patch,
        build: ids(&b.build), pre_release: ids(&b.pre_release),
    };
    x < y
}

} // verus!
