//! Semantic versions, and how they are written.
//!
//! A [`Version`] holds its parts as plain values. Its text is
//! `major.minor.patch`, a pre-release tag after `-` and build metadata after
//! `+`; a well-formed version can be read back from its text in one way
//! only.

use crate::text::{
    chars_of, decimal, is_digit, is_digit_char, is_number, is_number_text, lemma_cut_is_unique,
    lemma_decimal_digits, lemma_decimal_injective, push_decimal, push_str, string_of,
};
use vstd::prelude::*;

verus! {

/// One dot-separated part of a pre-release or build tag.
#[derive(Clone, Debug, PartialEq, Eq)]
pub enum Identifier {
    /// A part made of digits only.
    Numeric(u64),
    /// A part with letters, digits and hyphens.
    AlphaNumeric(String),
}

/// A semantic version: `major.minor.patch`, an optional pre-release tag and
/// optional build metadata.
#[derive(Clone, Debug)]
pub struct Version {
    pub major: u64,
    pub minor: u64,
    pub patch: u64,
    pub build: Vec<Identifier>,
    pub pre_release: Vec<Identifier>,
}

/// The mathematical value of an [`Identifier`].
pub enum IdentifierView {
    Numeric(u64),
    AlphaNumeric(Seq<char>),
}

/// The mathematical value of a [`Version`].
pub struct VersionView {
    pub major: u64,
    pub minor: u64,
    pub patch: u64,
    pub build: Seq<IdentifierView>,
    pub pre_release: Seq<IdentifierView>,
}

impl View for Identifier {
    type V = IdentifierView;

    open spec fn view(&self) -> IdentifierView {
        match self {
            Identifier::Numeric(n) => IdentifierView::Numeric(*n),
            Identifier::AlphaNumeric(s) => IdentifierView::AlphaNumeric(s@),
        }
    }
}

/// The values of a list of identifiers, in order.
pub open spec fn identifier_views(ids: Seq<Identifier>) -> Seq<IdentifierView> {
    ids.map_values(|id: Identifier| id@)
}

impl View for Version {
    type V = VersionView;

    open spec fn view(&self) -> VersionView {
        VersionView {
            major: self.major,
            minor: self.minor,
            patch: self.patch,
            build: identifier_views(self.build@),
            pre_release: identifier_views(self.pre_release@),
        }
    }
}

/// Whether `c` may stand in an identifier: a digit, an ASCII letter or a
/// hyphen.
pub open spec fn is_tag_char(c: char) -> bool {
    is_digit(c) || ('a' <= c <= 'z') || ('A' <= c <= 'Z') || c == '-'
}

/// How an identifier is written.
pub open spec fn identifier_text(id: IdentifierView) -> Seq<char> {
    match id {
        IdentifierView::Numeric(n) => decimal(n as nat),
        IdentifierView::AlphaNumeric(s) => s,
    }
}

/// Whether an identifier is in the form in which a version is read from
/// text: an alphanumeric one is not empty, holds identifier characters
/// only, and is not the notation of a number.
pub open spec fn identifier_is_canonical(id: IdentifierView) -> bool {
    match id {
        IdentifierView::Numeric(_) => true,
        IdentifierView::AlphaNumeric(s) => {
            &&& s.len() > 0
            &&& forall|i: int| 0 <= i < s.len() ==> is_tag_char(#[trigger] s[i])
            &&& !is_number_text(s)
        },
    }
}

/// How a pre-release tag or build metadata is written: nothing for an empty
/// list, else `lead`, then the identifiers with dots between them.
pub open spec fn tag_text(lead: char, ids: Seq<IdentifierView>) -> Seq<char>
    decreases ids.len(),
{
    if ids.len() == 0 {
        Seq::empty()
    } else {
        seq![lead] + identifier_text(ids[0]) + tag_text('.', ids.skip(1))
    }
}

/// How a version is written: `major.minor.patch`, then `-` and the
/// pre-release tag if there is one, then `+` and the build metadata if there
/// is any.
pub open spec fn version_text(v: VersionView) -> Seq<char> {
    decimal(v.major as nat) + seq!['.'] + decimal(v.minor as nat) + seq!['.'] + decimal(
        v.patch as nat,
    ) + tag_text('-', v.pre_release) + tag_text('+', v.build)
}

/// Whether every identifier of a list is canonical.
pub open spec fn all_are_canonical(ids: Seq<IdentifierView>) -> bool {
    forall|i: int| 0 <= i < ids.len() ==> identifier_is_canonical(#[trigger] ids[i])
}

impl VersionView {
    /// Whether every identifier of the version is canonical.
    pub open spec fn well_formed(self) -> bool {
        all_are_canonical(self.pre_release) && all_are_canonical(self.build)
    }
}

/// Whether `c` can follow a written version without being taken for a part
/// of it.
pub open spec fn ends_version(c: char) -> bool {
    !is_tag_char(c) && c != '.' && c != '+'
}

proof fn lemma_identifier_text_chars(id: IdentifierView)
    requires
        identifier_is_canonical(id),
    ensures
        identifier_text(id).len() > 0,
        forall|i: int|
            0 <= i < identifier_text(id).len() ==> is_tag_char(#[trigger] identifier_text(id)[i]),
{
    match id {
        IdentifierView::Numeric(n) => {
            lemma_decimal_digits(n as nat);
        },
        IdentifierView::AlphaNumeric(s) => {},
    }
}

proof fn lemma_identifier_text_injective(a: IdentifierView, b: IdentifierView)
    requires
        identifier_is_canonical(a),
        identifier_is_canonical(b),
        identifier_text(a) == identifier_text(b),
    ensures
        a == b,
{
    match (a, b) {
        (IdentifierView::Numeric(x), IdentifierView::Numeric(y)) => {
            lemma_decimal_injective(x as nat, y as nat);
        },
        (IdentifierView::Numeric(x), IdentifierView::AlphaNumeric(t)) => {
            assert(decimal(x as nat) == t ==> is_number_text(t));
        },
        (IdentifierView::AlphaNumeric(s), IdentifierView::Numeric(y)) => {
            assert(decimal(y as nat) == s ==> is_number_text(s));
        },
        _ => {},
    }
}

proof fn lemma_tag_text_unique(
    lead: char,
    ids1: Seq<IdentifierView>,
    rest1: Seq<char>,
    ids2: Seq<IdentifierView>,
    rest2: Seq<char>,
)
    requires
        tag_text(lead, ids1) + rest1 == tag_text(lead, ids2) + rest2,
        forall|i: int| 0 <= i < ids1.len() ==> identifier_is_canonical(#[trigger] ids1[i]),
        forall|i: int| 0 <= i < ids2.len() ==> identifier_is_canonical(#[trigger] ids2[i]),
        rest1.len() > 0 ==> !is_tag_char(rest1[0]) && rest1[0] != '.' && rest1[0] != lead,
        rest2.len() > 0 ==> !is_tag_char(rest2[0]) && rest2[0] != '.' && rest2[0] != lead,
    ensures
        ids1 == ids2,
        rest1 == rest2,
    decreases ids1.len(),
{
    let t1 = tag_text(lead, ids1);
    let t2 = tag_text(lead, ids2);
    if ids1.len() == 0 && ids2.len() == 0 {
        assert(t1 + rest1 =~= rest1);
        assert(t2 + rest2 =~= rest2);
        assert(ids1 =~= ids2);
    } else if ids1.len() == 0 {
        assert(t1 + rest1 =~= rest1);
        assert((t2 + rest2)[0] == lead);
        assert(false);
    } else if ids2.len() == 0 {
        assert(t2 + rest2 =~= rest2);
        assert((t1 + rest1)[0] == lead);
        assert(false);
    } else {
        let h1 = identifier_text(ids1[0]);
        let h2 = identifier_text(ids2[0]);
        let u1 = tag_text('.', ids1.skip(1)) + rest1;
        let u2 = tag_text('.', ids2.skip(1)) + rest2;
        assert(t1 + rest1 =~= seq![lead] + (h1 + u1));
        assert(t2 + rest2 =~= seq![lead] + (h2 + u2));
        assert(h1 + u1 =~= (seq![lead] + (h1 + u1)).skip(1));
        assert(h2 + u2 =~= (seq![lead] + (h2 + u2)).skip(1));
        lemma_identifier_text_chars(ids1[0]);
        lemma_identifier_text_chars(ids2[0]);
        lemma_tail_begins(ids1.skip(1), rest1);
        lemma_tail_begins(ids2.skip(1), rest2);
        lemma_cut_is_unique(h1, u1, h2, u2, |c: char| !is_tag_char(c));
        lemma_identifier_text_injective(ids1[0], ids2[0]);
        assert forall|i: int| 0 <= i < ids1.skip(1).len() implies identifier_is_canonical(
            #[trigger] ids1.skip(1)[i],
        ) by {
            assert(ids1.skip(1)[i] == ids1[i + 1]);
        }
        assert forall|i: int| 0 <= i < ids2.skip(1).len() implies identifier_is_canonical(
            #[trigger] ids2.skip(1)[i],
        ) by {
            assert(ids2.skip(1)[i] == ids2[i + 1]);
        }
        lemma_tag_text_unique('.', ids1.skip(1), rest1, ids2.skip(1), rest2);
        assert(ids1 =~= seq![ids1[0]] + ids1.skip(1));
        assert(ids2 =~= seq![ids2[0]] + ids2.skip(1));
    }
}

proof fn lemma_tail_begins(ids: Seq<IdentifierView>, rest: Seq<char>)
    requires
        rest.len() > 0 ==> !is_tag_char(rest[0]),
    ensures
        (tag_text('.', ids) + rest).len() > 0 ==> !is_tag_char((tag_text('.', ids) + rest)[0]),
{
    if ids.len() == 0 {
        assert(tag_text('.', ids) + rest =~= rest);
    } else {
        assert((tag_text('.', ids) + rest)[0] == '.');
    }
}

proof fn lemma_tags_begin(pre: Seq<IdentifierView>, build: Seq<IdentifierView>, rest: Seq<char>)
    requires
        rest.len() > 0 ==> ends_version(rest[0]),
    ensures
        ({
            let t = tag_text('+', build) + rest;
            t.len() > 0 ==> !is_tag_char(t[0]) && t[0] != '.' && t[0] != '-'
        }),
        ({
            let t = tag_text('-', pre) + (tag_text('+', build) + rest);
            t.len() > 0 ==> !is_digit(t[0]) && t[0] != '.'
        }),
{
    let b = tag_text('+', build) + rest;
    if build.len() == 0 {
        assert(b =~= rest);
    } else {
        assert(b[0] == '+');
    }
    let t = tag_text('-', pre) + b;
    if pre.len() == 0 {
        assert(t =~= b);
    } else {
        assert(t[0] == '-');
    }
}

/// A number followed by a text that begins with no digit can be read back
/// in one way only.
proof fn lemma_number_unique(n1: nat, rest1: Seq<char>, n2: nat, rest2: Seq<char>)
    requires
        decimal(n1) + rest1 == decimal(n2) + rest2,
        rest1.len() > 0 ==> !is_digit(rest1[0]),
        rest2.len() > 0 ==> !is_digit(rest2[0]),
    ensures
        n1 == n2,
        rest1 == rest2,
{
    lemma_decimal_digits(n1);
    lemma_decimal_digits(n2);
    lemma_cut_is_unique(decimal(n1), rest1, decimal(n2), rest2, |c: char| !is_digit(c));
    lemma_decimal_injective(n1, n2);
}

proof fn lemma_after_dot(a: Seq<char>, b: Seq<char>)
    requires
        seq!['.'] + a == seq!['.'] + b,
    ensures
        a == b,
{
    assert(a =~= (seq!['.'] + a).skip(1));
    assert(b =~= (seq!['.'] + b).skip(1));
}

/// What follows the patch number of a written version that `rest` follows.
spec fn after_patch(v: VersionView, rest: Seq<char>) -> Seq<char> {
    tag_text('-', v.pre_release) + (tag_text('+', v.build) + rest)
}

/// What follows the major number and its dot.
spec fn after_major(v: VersionView, rest: Seq<char>) -> Seq<char> {
    decimal(v.minor as nat) + (seq!['.'] + (decimal(v.patch as nat) + after_patch(v, rest)))
}

proof fn lemma_version_text_parts(v: VersionView, rest: Seq<char>)
    ensures
        version_text(v) + rest == decimal(v.major as nat) + (seq!['.'] + after_major(v, rest)),
{
    assert(version_text(v) + rest =~= decimal(v.major as nat) + (seq!['.'] + after_major(
        v,
        rest,
    )));
}

/// A written version can be read back in one way only: if two well-formed
/// versions, each followed by a text that does not continue a version, give
/// the same text, then the versions are the same and so are the texts that
/// follow.
pub proof fn lemma_version_text_unique(
    v1: VersionView,
    rest1: Seq<char>,
    v2: VersionView,
    rest2: Seq<char>,
)
    requires
        v1.well_formed(),
        v2.well_formed(),
        version_text(v1) + rest1 == version_text(v2) + rest2,
        rest1.len() > 0 ==> ends_version(rest1[0]),
        rest2.len() > 0 ==> ends_version(rest2[0]),
    ensures
        v1 == v2,
        rest1 == rest2,
{
    lemma_version_text_parts(v1, rest1);
    lemma_version_text_parts(v2, rest2);
    lemma_tags_begin(v1.pre_release, v1.build, rest1);
    lemma_tags_begin(v2.pre_release, v2.build, rest2);
    let dot = seq!['.'];
    let m1 = after_major(v1, rest1);
    let m2 = after_major(v2, rest2);
    assert((dot + m1)[0] == '.');
    assert((dot + m2)[0] == '.');
    lemma_number_unique(v1.major as nat, dot + m1, v2.major as nat, dot + m2);
    lemma_after_dot(m1, m2);

    let from_patch1 = decimal(v1.patch as nat) + after_patch(v1, rest1);
    let from_patch2 = decimal(v2.patch as nat) + after_patch(v2, rest2);
    assert((dot + from_patch1)[0] == '.');
    assert((dot + from_patch2)[0] == '.');
    lemma_number_unique(v1.minor as nat, dot + from_patch1, v2.minor as nat, dot + from_patch2);
    lemma_after_dot(from_patch1, from_patch2);

    lemma_number_unique(
        v1.patch as nat,
        after_patch(v1, rest1),
        v2.patch as nat,
        after_patch(v2, rest2),
    );
    lemma_tag_text_unique(
        '-',
        v1.pre_release,
        tag_text('+', v1.build) + rest1,
        v2.pre_release,
        tag_text('+', v2.build) + rest2,
    );
    lemma_tag_text_unique('+', v1.build, rest1, v2.build, rest2);
}

proof fn lemma_tag_text_chars(lead: char, ids: Seq<IdentifierView>)
    requires
        forall|i: int| 0 <= i < ids.len() ==> identifier_is_canonical(#[trigger] ids[i]),
    ensures
        forall|i: int|
            0 <= i < tag_text(lead, ids).len() ==> {
                let c = #[trigger] tag_text(lead, ids)[i];
                is_tag_char(c) || c == '.' || c == lead
            },
    decreases ids.len(),
{
    if ids.len() > 0 {
        lemma_identifier_text_chars(ids[0]);
        assert forall|i: int| 0 <= i < ids.skip(1).len() implies identifier_is_canonical(
            #[trigger] ids.skip(1)[i],
        ) by {
            assert(ids.skip(1)[i] == ids[i + 1]);
        }
        lemma_tag_text_chars('.', ids.skip(1));
        let head = identifier_text(ids[0]);
        let tail = tag_text('.', ids.skip(1));
        let whole = tag_text(lead, ids);
        assert forall|i: int| 0 <= i < whole.len() implies {
            let c = #[trigger] whole[i];
            is_tag_char(c) || c == '.' || c == lead
        } by {
            if i == 0 {
                assert(whole[i] == lead);
            } else if i < 1 + head.len() {
                assert(whole[i] == head[i - 1]);
            } else {
                assert(whole[i] == tail[i - 1 - head.len()]);
            }
        }
    }
}

/// A written well-formed version holds identifier characters, dots and plus
/// signs only.
pub proof fn lemma_version_text_chars(v: VersionView)
    requires
        v.well_formed(),
    ensures
        forall|i: int|
            0 <= i < version_text(v).len() ==> {
                let c = #[trigger] version_text(v)[i];
                is_tag_char(c) || c == '.' || c == '+'
            },
{
    lemma_decimal_digits(v.major as nat);
    lemma_decimal_digits(v.minor as nat);
    lemma_decimal_digits(v.patch as nat);
    lemma_tag_text_chars('-', v.pre_release);
    lemma_tag_text_chars('+', v.build);
}

fn push_identifier(out: &mut Vec<char>, id: &Identifier)
    ensures
        final(out)@ == old(out)@ + identifier_text(id@),
{
    match id {
        Identifier::Numeric(n) => push_decimal(out, *n),
        Identifier::AlphaNumeric(s) => push_str(out, s.as_str()),
    }
}

fn push_tag(out: &mut Vec<char>, lead: char, ids: &Vec<Identifier>)
    ensures
        final(out)@ == old(out)@ + tag_text(lead, identifier_views(ids@)),
{
    let ghost views = identifier_views(ids@);
    let mut i: usize = 0;
    assert(views.skip(0) =~= views);
    while i < ids.len()
        invariant
            i <= ids.len(),
            views == identifier_views(ids@),
            out@ + tag_text(if i == 0 { lead } else { '.' }, views.skip(i as int)) == old(out)@
                + tag_text(lead, views),
        decreases ids.len() - i,
    {
        let ghost before = out@;
        let ghost cur = if i == 0 { lead } else { '.' };
        out.push(if i == 0 { lead } else { '.' });
        push_identifier(out, &ids[i]);
        proof {
            assert(views.skip(i as int)[0] == ids@[i as int]@);
            assert(views.skip(i as int).skip(1) =~= views.skip(i + 1));
            assert(out@ + tag_text('.', views.skip(i + 1)) =~= before + tag_text(
                cur,
                views.skip(i as int),
            ));
        }
        i = i + 1;
    }
    assert(out@ + tag_text(if i == 0 { lead } else { '.' }, views.skip(i as int)) =~= out@);
}

impl Version {
    /// Appends the version, as it is written, to `out`.
    pub fn push_text(&self, out: &mut Vec<char>)
        ensures
            final(out)@ == old(out)@ + version_text(self@),
    {
        push_decimal(out, self.major);
        out.push('.');
        push_decimal(out, self.minor);
        out.push('.');
        push_decimal(out, self.patch);
        push_tag(out, '-', &self.pre_release);
        push_tag(out, '+', &self.build);
        assert(out@ =~= old(out)@ + version_text(self@));
    }

    /// The version as it is written, for example `1.2.3-rc.1+build.5`.
    pub fn to_text(&self) -> (text: String)
        ensures
            text@ == version_text(self@),
    {
        let mut out: Vec<char> = Vec::new();
        self.push_text(&mut out);
        assert(out@ =~= version_text(self@));
        string_of(&out)
    }
}

fn holds_tag_chars(text: &str) -> (all: bool)
    ensures
        all == (forall|i: int| 0 <= i < text@.len() ==> is_tag_char(#[trigger] text@[i])),
{
    let chars = chars_of(text);
    let mut i: usize = 0;
    while i < chars.len()
        invariant
            i <= chars.len(),
            chars@ == text@,
            forall|k: int| 0 <= k < i ==> is_tag_char(#[trigger] chars@[k]),
        decreases chars.len() - i,
    {
        let c = chars[i];
        let tag_char = is_digit_char(c) || ('a' <= c && c <= 'z') || ('A' <= c && c <= 'Z') || c
            == '-';
        if !tag_char {
            return false;
        }
        i = i + 1;
    }
    true
}

fn all_canonical(ids: &Vec<Identifier>) -> (all: bool)
    ensures
        all == all_are_canonical(identifier_views(ids@)),
{
    let mut i: usize = 0;
    while i < ids.len()
        invariant
            i <= ids.len(),
            forall|k: int|
                0 <= k < i ==> identifier_is_canonical(#[trigger] identifier_views(ids@)[k]),
        decreases ids.len() - i,
    {
        if !ids[i].is_canonical() {
            assert(identifier_views(ids@)[i as int] == ids@[i as int]@);
            return false;
        }
        assert(identifier_views(ids@)[i as int] == ids@[i as int]@);
        i = i + 1;
    }
    true
}

impl Identifier {
    /// Tells whether the identifier is canonical.
    pub fn is_canonical(&self) -> (canonical: bool)
        ensures
            canonical == identifier_is_canonical(self@),
    {
        match self {
            Identifier::Numeric(_) => true,
            Identifier::AlphaNumeric(s) => {
                let text = s.as_str();
                !chars_of(text).is_empty() && holds_tag_chars(text) && !is_number(text)
            },
        }
    }
}

impl Version {
    /// Tells whether the version is well formed.
    pub fn is_well_formed(&self) -> (well_formed: bool)
        ensures
            well_formed == self@.well_formed(),
    {
        all_canonical(&self.pre_release) && all_canonical(&self.build)
    }
}

} // verus!
