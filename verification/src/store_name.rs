//! The names of the directories of the virtual store.
//!
//! One installed unit is a package name, a version and the fingerprint of the
//! peer dependencies it was resolved with. Its directory in the virtual store
//! is named after all three, by [`virtual_store_name`].

use crate::semver::{
    lemma_version_text_chars, lemma_version_text_unique, version_text, Version, VersionView,
};
use crate::text::{lemma_cut_is_unique, push_str, string_of};
use vstd::prelude::*;

verus! {

/// The name of a package: `bare`, or `@scope/bare`.
#[derive(Clone, Debug, PartialEq, Eq, Hash)]
pub struct PkgName {
    pub scope: Option<String>,
    pub bare: String,
}

/// The mathematical value of a [`PkgName`].
pub struct PkgNameView {
    pub scope: Option<Seq<char>>,
    pub bare: Seq<char>,
}

impl View for PkgName {
    type V = PkgNameView;

    open spec fn view(&self) -> PkgNameView {
        PkgNameView {
            scope: match self.scope {
                Some(s) => Some(s@),
                None => None,
            },
            bare: self.bare@,
        }
    }
}

/// A version together with the fingerprint of the peer dependencies that a
/// package was resolved with. The fingerprint is empty, or a row of
/// parenthesised groups such as `(react@17.0.2)(typescript@5.1.6)`.
#[derive(Clone, Debug)]
pub struct PkgVerPeer {
    pub version: Version,
    pub peer: String,
}

/// The mathematical value of a [`PkgVerPeer`].
pub struct PkgVerPeerView {
    pub version: VersionView,
    pub peer: Seq<char>,
}

impl View for PkgVerPeer {
    type V = PkgVerPeerView;

    open spec fn view(&self) -> PkgVerPeerView {
        PkgVerPeerView { version: self.version@, peer: self.peer@ }
    }
}

/// One installed unit: a package name, and the version and peers it was
/// resolved with.
#[derive(Clone, Debug)]
pub struct PkgNameVerPeer {
    pub name: PkgName,
    pub suffix: PkgVerPeer,
}

/// The mathematical value of a [`PkgNameVerPeer`].
pub struct PkgNameVerPeerView {
    pub name: PkgNameView,
    pub suffix: PkgVerPeerView,
}

impl View for PkgNameVerPeer {
    type V = PkgNameVerPeerView;

    open spec fn view(&self) -> PkgNameVerPeerView {
        PkgNameVerPeerView { name: self.name@, suffix: self.suffix@ }
    }
}

/// How a package name is written.
pub open spec fn name_text(name: PkgNameView) -> Seq<char> {
    match name.scope {
        Some(scope) => seq!['@'] + scope + seq!['/'] + name.bare,
        None => name.bare,
    }
}

/// How an installed unit is written: the name, `@`, the version, the peers.
pub open spec fn specifier_text(unit: PkgNameVerPeerView) -> Seq<char> {
    name_text(unit.name) + seq!['@'] + version_text(unit.suffix.version) + unit.suffix.peer
}

/// What becomes of one character in a directory name: a slash becomes a
/// plus sign, an opening parenthesis an underscore, a closing parenthesis
/// nothing; any other character stays.
pub open spec fn flat_char(c: char) -> Seq<char> {
    if c == ')' {
        Seq::empty()
    } else if c == '(' {
        seq!['_']
    } else if c == '/' {
        seq!['+']
    } else {
        seq![c]
    }
}

/// A text made fit for a directory name, character by character.
pub open spec fn flatten(text: Seq<char>) -> Seq<char>
    decreases text.len(),
{
    if text.len() == 0 {
        Seq::empty()
    } else {
        flat_char(text[0]) + flatten(text.skip(1))
    }
}

/// The name of the directory of an installed unit in the virtual store.
pub open spec fn virtual_store_name(unit: PkgNameVerPeerView) -> Seq<char> {
    flatten(specifier_text(unit))
}

impl PkgNameView {
    /// Whether the name is valid: the bare name is not empty, a scope, if
    /// there is one, is not empty, and neither holds an `@`, a slash or a
    /// parenthesis.
    pub open spec fn well_formed(self) -> bool {
        &&& self.bare.len() > 0
        &&& forall|i: int| 0 <= i < self.bare.len() ==> is_name_char(#[trigger] self.bare[i])
        &&& match self.scope {
            Some(scope) => {
                &&& scope.len() > 0
                &&& forall|i: int| 0 <= i < scope.len() ==> is_name_char(#[trigger] scope[i])
            },
            None => true,
        }
    }
}

/// Whether `c` may stand in a scope or a bare name.
pub open spec fn is_name_char(c: char) -> bool {
    c != '@' && c != '/' && c != '(' && c != ')'
}

/// Whether `text` holds nothing but characters of names.
pub open spec fn all_name_chars(text: Seq<char>) -> bool {
    forall|i: int| 0 <= i < text.len() ==> is_name_char(#[trigger] text[i])
}

/// The place of the first slash of `text`, or the length of `text` if it
/// has none.
pub open spec fn slash_at(text: Seq<char>) -> int
    decreases text.len(),
{
    if text.len() == 0 || text[0] == '/' {
        0
    } else {
        1 + slash_at(text.skip(1))
    }
}

/// Why a text is not the name of a package.
#[derive(Clone, Copy, Debug, PartialEq, Eq)]
pub enum ParsePkgNameError {
    /// There is no bare name.
    EmptyName,
    /// The text begins with `@` and has no slash to end the scope.
    MissingSlash,
    /// There is nothing between the `@` and the slash.
    EmptyScope,
    /// The scope or the bare name holds an `@`, a slash or a parenthesis.
    InvalidCharacter,
}

/// The name that `text` writes, or why it writes none. A text that begins
/// with `@` is a scope up to its first slash and a bare name after it; any
/// other text is a bare name.
pub open spec fn parsed_name(text: Seq<char>) -> Result<PkgNameView, ParsePkgNameError> {
    if text.len() == 0 {
        Err(ParsePkgNameError::EmptyName)
    } else if text[0] == '@' {
        let slash = slash_at(text);
        let scope = text.subrange(1, slash);
        let bare = text.subrange(slash + 1, text.len() as int);
        if slash == text.len() {
            Err(ParsePkgNameError::MissingSlash)
        } else if slash == 1 {
            Err(ParsePkgNameError::EmptyScope)
        } else if slash + 1 == text.len() {
            Err(ParsePkgNameError::EmptyName)
        } else if !all_name_chars(scope) || !all_name_chars(bare) {
            Err(ParsePkgNameError::InvalidCharacter)
        } else {
            Ok(PkgNameView { scope: Some(scope), bare })
        }
    } else if !all_name_chars(text) {
        Err(ParsePkgNameError::InvalidCharacter)
    } else {
        Ok(PkgNameView { scope: None, bare: text })
    }
}

/// The first slash of a text stands where no slash stands before it.
pub proof fn lemma_slash_at(text: Seq<char>, i: int)
    requires
        0 <= i <= text.len(),
        forall|j: int| 0 <= j < i ==> #[trigger] text[j] != '/',
        i < text.len() ==> text[i] == '/',
    ensures
        slash_at(text) == i,
    decreases text.len(),
{
    if i > 0 {
        let rest = text.skip(1);
        assert forall|j: int| 0 <= j < i - 1 implies #[trigger] rest[j] != '/' by {
            assert(rest[j] == text[j + 1]);
        }
        lemma_slash_at(rest, i - 1);
    }
}

/// Where the first slash stands, and that none stands before it.
pub proof fn lemma_slash_at_is_first(text: Seq<char>)
    ensures
        0 <= slash_at(text) <= text.len(),
        forall|j: int| 0 <= j < slash_at(text) ==> #[trigger] text[j] != '/',
        slash_at(text) < text.len() ==> text[slash_at(text)] == '/',
    decreases text.len(),
{
    if text.len() > 0 && text[0] != '/' {
        let rest = text.skip(1);
        lemma_slash_at_is_first(rest);
        assert forall|j: int| 0 <= j < slash_at(text) implies #[trigger] text[j] != '/' by {
            if j > 0 {
                assert(rest[j - 1] == text[j]);
            }
        }
        if slash_at(text) < text.len() {
            assert(rest[slash_at(rest)] == text[slash_at(text)]);
        }
    }
}

/// A name read from a text is valid, and is written as that text.
pub proof fn lemma_parsed_name_is_well_formed(text: Seq<char>)
    requires
        parsed_name(text) is Ok,
    ensures
        parsed_name(text)->Ok_0.well_formed(),
        name_text(parsed_name(text)->Ok_0) == text,
{
    if text[0] == '@' {
        lemma_slash_at_is_first(text);
        let slash = slash_at(text);
        let scope = text.subrange(1, slash);
        let bare = text.subrange(slash + 1, text.len() as int);
        assert(seq!['@'] + scope + seq!['/'] + bare =~= text);
    }
}

/// A valid name, written and read back, is the same name.
pub proof fn lemma_written_name_parses(name: PkgNameView)
    requires
        name.well_formed(),
    ensures
        parsed_name(name_text(name)) == Ok::<PkgNameView, ParsePkgNameError>(name),
{
    let text = name_text(name);
    match name.scope {
        Some(scope) => {
            let slash = scope.len() as int + 1;
            assert forall|j: int| 0 <= j < slash implies #[trigger] text[j] != '/' by {
                if j > 0 {
                    assert(text[j] == scope[j - 1]);
                }
            }
            assert(text[slash] == '/');
            lemma_slash_at(text, slash);
            assert(text.subrange(1, slash) =~= scope);
            assert(text.subrange(slash + 1, text.len() as int) =~= name.bare);
        },
        None => {
            assert(is_name_char(text[0]));
        },
    }
}

/// Two valid names that are written alike are the same name.
pub proof fn lemma_name_text_unique(a: PkgNameView, b: PkgNameView)
    requires
        a.well_formed(),
        b.well_formed(),
        name_text(a) == name_text(b),
    ensures
        a == b,
{
    lemma_written_name_parses(a);
    lemma_written_name_parses(b);
}

/// Whether `peer`, or the end of one, is made of groups that hold no
/// parenthesis, underscore or plus sign: every closing parenthesis but the
/// last is followed by an opening one, every opening parenthesis but one at
/// the start follows a closing one, and the text, unless empty, ends with a
/// closing parenthesis.
pub open spec fn is_peer_tail(peer: Seq<char>) -> bool {
    &&& forall|i: int| 0 <= i < peer.len() ==> #[trigger] peer[i] != '_' && peer[i] != '+'
    &&& forall|i: int| 0 <= i < peer.len() - 1 && #[trigger] peer[i] == ')' ==> peer[i + 1] == '('
    &&& forall|i: int| 0 < i < peer.len() && #[trigger] peer[i] == '(' ==> peer[i - 1] == ')'
    &&& peer.len() > 0 ==> peer.last() == ')'
}

/// Whether `peer` is a flat fingerprint: empty, or a row of parenthesised
/// groups, none of which holds a parenthesis, an underscore or a plus sign.
pub open spec fn is_flat_peer(peer: Seq<char>) -> bool {
    is_peer_tail(peer) && (peer.len() > 0 ==> peer[0] == '(')
}

/// Flattening a text made of two parts flattens each part.
pub proof fn lemma_flatten_concat(a: Seq<char>, b: Seq<char>)
    ensures
        flatten(a + b) == flatten(a) + flatten(b),
    decreases a.len(),
{
    if a.len() == 0 {
        assert(a + b =~= b);
        assert(flatten(a) + flatten(b) =~= flatten(b));
    } else {
        lemma_flatten_concat(a.skip(1), b);
        assert((a + b).skip(1) =~= a.skip(1) + b);
        assert(flatten(a + b) =~= flatten(a) + flatten(b));
    }
}

/// Flattening one character.
pub proof fn lemma_flatten_one(c: char)
    ensures
        flatten(seq![c]) == flat_char(c),
{
    assert(seq![c].skip(1).len() == 0);
    assert(flatten(seq![c].skip(1)) =~= Seq::<char>::empty());
    assert(flatten(seq![c]) =~= flat_char(c));
}

/// A text without slashes and parentheses is left as it is.
pub proof fn lemma_flatten_plain(text: Seq<char>)
    requires
        forall|i: int|
            0 <= i < text.len() ==> #[trigger] text[i] != '/' && text[i] != '(' && text[i] != ')',
    ensures
        flatten(text) == text,
    decreases text.len(),
{
    if text.len() > 0 {
        lemma_flatten_plain(text.skip(1));
        assert(text =~= seq![text[0]] + text.skip(1));
    } else {
        assert(text =~= Seq::<char>::empty());
    }
}

/// Flattening a text without parentheses keeps its length and adds no `@`.
proof fn lemma_flatten_name(text: Seq<char>)
    requires
        forall|i: int| 0 <= i < text.len() ==> #[trigger] text[i] != '(' && text[i] != ')',
    ensures
        flatten(text).len() == text.len(),
        forall|i: int|
            0 <= i < text.len() ==> (#[trigger] flatten(text)[i] == '@' <==> text[i] == '@'),
    decreases text.len(),
{
    if text.len() > 0 {
        lemma_flatten_name(text.skip(1));
        assert forall|i: int| 0 <= i < text.len() implies (#[trigger] flatten(text)[i] == '@'
            <==> text[i] == '@') by {
            if i > 0 {
                assert(flatten(text)[i] == flatten(text.skip(1))[i - 1]);
                assert(text.skip(1)[i - 1] == text[i]);
            }
        }
    }
}

proof fn lemma_peer_tail_skip(peer: Seq<char>)
    requires
        is_peer_tail(peer),
        peer.len() > 0,
    ensures
        is_peer_tail(peer.skip(1)),
        peer[0] == ')' && peer.len() > 1 ==> peer.skip(1)[0] == '(',
{
    let rest = peer.skip(1);
    assert forall|i: int| 0 <= i < rest.len() implies #[trigger] rest[i] != '_' && rest[i]
        != '+' by {
        assert(rest[i] == peer[i + 1]);
    }
    assert forall|i: int| 0 <= i < rest.len() - 1 && #[trigger] rest[i] == ')' implies rest[i
        + 1] == '(' by {
        assert(rest[i] == peer[i + 1]);
    }
    assert forall|i: int| 0 < i < rest.len() && #[trigger] rest[i] == '(' implies rest[i - 1]
        == ')' by {
        assert(rest[i] == peer[i + 1]);
    }
    if rest.len() > 0 {
        assert(rest.last() == peer.last());
    }
    if peer[0] == ')' && peer.len() > 1 {
        assert(peer[0] == ')');
    }
}

proof fn lemma_flatten_first(text: Seq<char>)
    requires
        text.len() > 0,
        text[0] != ')',
    ensures
        flatten(text).len() > 0,
        flatten(text)[0] == flat_char(text[0])[0],
        flatten(text).skip(1) == flatten(text.skip(1)),
    decreases text.len(),
{
    assert(flatten(text).skip(1) =~= flatten(text.skip(1)));
}

/// If the text after the first character of `p` begins with a closing
/// parenthesis, so does the text after the first character of `q`.
proof fn lemma_peer_tail_next(p: Seq<char>, q: Seq<char>)
    requires
        is_peer_tail(p),
        is_peer_tail(q),
        p.len() > 0,
        q.len() > 0,
        p[0] != ')',
        q[0] != ')',
        flatten(p.skip(1)) == flatten(q.skip(1)),
        p.len() > 1 && p[1] == ')',
    ensures
        q.len() > 1 && q[1] == ')',
{
    let p_rest = p.skip(1);
    let q_rest = q.skip(1);
    let p_after = p_rest.skip(1);
    lemma_peer_tail_skip(p);
    lemma_peer_tail_skip(q);
    lemma_peer_tail_skip(p_rest);
    assert(p_rest[0] == ')');
    assert(flatten(p_rest) == flatten(p_after));
    if q.len() == 1 {
        assert(q.last() == q[0]);
    } else if q[1] != ')' {
        assert(q_rest[0] == q[1]);
        lemma_flatten_first(q_rest);
        if p_after.len() > 0 {
            assert(p_after[0] == '(');
            lemma_flatten_first(p_after);
            assert(flatten(q_rest)[0] == '_');
            assert(q[1] == '(');
        }
    }
}

/// Two ends of flat fingerprints that flatten to the same text, and that
/// both begin with a closing parenthesis or both do not, are the same.
proof fn lemma_peer_tail_unique(p: Seq<char>, q: Seq<char>)
    requires
        is_peer_tail(p),
        is_peer_tail(q),
        flatten(p) == flatten(q),
        (p.len() > 0 && p[0] == ')') <==> (q.len() > 0 && q[0] == ')'),
    ensures
        p == q,
    decreases p.len(),
{
    if p.len() == 0 && q.len() == 0 {
        assert(p =~= q);
    } else if p.len() == 0 {
        lemma_flatten_first(q);
    } else if q.len() == 0 {
        lemma_flatten_first(p);
    } else {
        let p_rest = p.skip(1);
        let q_rest = q.skip(1);
        lemma_peer_tail_skip(p);
        lemma_peer_tail_skip(q);
        if p[0] == ')' {
            assert(flatten(p) == flatten(p_rest));
            assert(flatten(q) == flatten(q_rest));
        } else {
            lemma_flatten_first(p);
            lemma_flatten_first(q);
            assert(p[0] == q[0]);
            if p.len() > 1 && p[1] == ')' {
                lemma_peer_tail_next(p, q);
            }
            if q.len() > 1 && q[1] == ')' {
                lemma_peer_tail_next(q, p);
            }
            assert(p_rest.len() > 0 ==> p_rest[0] == p[1]);
            assert(q_rest.len() > 0 ==> q_rest[0] == q[1]);
        }
        lemma_peer_tail_unique(p_rest, q_rest);
        assert(p =~= seq![p[0]] + p_rest);
        assert(q =~= seq![q[0]] + q_rest);
    }
}

/// Two flat fingerprints that flatten to the same text are the same.
pub proof fn lemma_flat_peer_unique(p: Seq<char>, q: Seq<char>)
    requires
        is_flat_peer(p),
        is_flat_peer(q),
        flatten(p) == flatten(q),
    ensures
        p == q,
{
    lemma_peer_tail_unique(p, q);
}

impl PkgNameVerPeerView {
    /// Whether the unit has a well-formed name, a well-formed version and a
    /// flat fingerprint.
    pub open spec fn well_formed(self) -> bool {
        &&& self.name.well_formed()
        &&& self.suffix.version.well_formed()
        &&& is_flat_peer(self.suffix.peer)
    }
}

proof fn lemma_name_text_chars(name: PkgNameView)
    requires
        name.well_formed(),
    ensures
        name_text(name).len() > 0,
        forall|i: int|
            0 <= i < name_text(name).len() ==> #[trigger] name_text(name)[i] != '(' && name_text(
                name,
            )[i] != ')',
        forall|i: int| 0 < i < name_text(name).len() ==> #[trigger] name_text(name)[i] != '@',
{
    let text = name_text(name);
    match name.scope {
        Some(scope) => {
            assert forall|i: int| 0 <= i < text.len() implies #[trigger] text[i] != '('
                && text[i] != ')' && (i > 0 ==> text[i] != '@') by {
                if i == 0 {
                    assert(text[i] == '@');
                } else if i < 1 + scope.len() {
                    assert(text[i] == scope[i - 1]);
                } else if i == 1 + scope.len() {
                    assert(text[i] == '/');
                } else {
                    assert(text[i] == name.bare[i - 2 - scope.len()]);
                }
            }
        },
        None => {},
    }
}

proof fn lemma_store_name_parts(unit: PkgNameVerPeerView)
    requires
        unit.well_formed(),
    ensures
        virtual_store_name(unit) == flatten(name_text(unit.name)) + (seq!['@'] + (version_text(
            unit.suffix.version,
        ) + flatten(unit.suffix.peer))),
{
    let n = name_text(unit.name);
    let v = version_text(unit.suffix.version);
    let p = unit.suffix.peer;
    assert(specifier_text(unit) =~= n + (seq!['@'] + (v + p)));
    lemma_flatten_concat(n, seq!['@'] + (v + p));
    lemma_flatten_concat(seq!['@'], v + p);
    lemma_flatten_concat(v, p);
    lemma_flatten_one('@');
    lemma_version_text_chars(unit.suffix.version);
    lemma_flatten_plain(v);
}

/// The directory name is a function of the unit: two units with the same
/// name, version and fingerprint get the same directory.
pub proof fn lemma_store_name_is_stable(a: PkgNameVerPeerView, b: PkgNameVerPeerView)
    requires
        a.name == b.name,
        a.suffix.version == b.suffix.version,
        a.suffix.peer == b.suffix.peer,
    ensures
        virtual_store_name(a) == virtual_store_name(b),
{
}

/// Two well-formed units that differ in their version or in their
/// fingerprint get different directories, whatever their names are.
pub proof fn lemma_store_names_differ(a: PkgNameVerPeerView, b: PkgNameVerPeerView)
    requires
        a.well_formed(),
        b.well_formed(),
        a.suffix.version != b.suffix.version || a.suffix.peer != b.suffix.peer,
    ensures
        virtual_store_name(a) != virtual_store_name(b),
{
    if virtual_store_name(a) == virtual_store_name(b) {
        lemma_store_name_parts(a);
        lemma_store_name_parts(b);
        let name1 = flatten(name_text(a.name));
        let name2 = flatten(name_text(b.name));
        let v1 = version_text(a.suffix.version);
        let v2 = version_text(b.suffix.version);
        let peers1 = flatten(a.suffix.peer);
        let peers2 = flatten(b.suffix.peer);
        let tail1 = seq!['@'] + (v1 + peers1);
        let tail2 = seq!['@'] + (v2 + peers2);
        lemma_name_text_chars(a.name);
        lemma_name_text_chars(b.name);
        lemma_flatten_name(name_text(a.name));
        lemma_flatten_name(name_text(b.name));
        assert(name1.skip(1) + tail1 =~= (name1 + tail1).skip(1));
        assert(name2.skip(1) + tail2 =~= (name2 + tail2).skip(1));
        assert(tail1[0] == '@');
        assert(tail2[0] == '@');
        assert forall|i: int| 0 <= i < name1.skip(1).len() implies #[trigger] name1.skip(1)[i]
            != '@' by {
            assert(name1.skip(1)[i] == name1[i + 1]);
        }
        assert forall|i: int| 0 <= i < name2.skip(1).len() implies #[trigger] name2.skip(1)[i]
            != '@' by {
            assert(name2.skip(1)[i] == name2[i + 1]);
        }
        lemma_cut_is_unique(name1.skip(1), tail1, name2.skip(1), tail2, |c: char| c == '@');
        assert(v1 + peers1 =~= tail1.skip(1));
        assert(v2 + peers2 =~= tail2.skip(1));
        if a.suffix.peer.len() > 0 {
            lemma_flatten_first(a.suffix.peer);
        } else {
            assert(peers1.len() == 0);
        }
        if b.suffix.peer.len() > 0 {
            lemma_flatten_first(b.suffix.peer);
        } else {
            assert(peers2.len() == 0);
        }
        lemma_version_text_unique(a.suffix.version, peers1, b.suffix.version, peers2);
        lemma_flat_peer_unique(a.suffix.peer, b.suffix.peer);
    }
}

/// Makes `text` fit for a directory name.
pub fn flatten_chars(text: &Vec<char>) -> (flat: Vec<char>)
    ensures
        flat@ == flatten(text@),
{
    let mut flat: Vec<char> = Vec::new();
    let mut i: usize = 0;
    assert(text@.take(0) =~= Seq::<char>::empty());
    while i < text.len()
        invariant
            i <= text.len(),
            flat@ == flatten(text@.take(i as int)),
        decreases text.len() - i,
    {
        let c = text[i];
        proof {
            lemma_flatten_concat(text@.take(i as int), seq![c]);
            lemma_flatten_one(c);
            assert(text@.take(i + 1) =~= text@.take(i as int) + seq![c]);
        }
        if c == '(' {
            flat.push('_');
        } else if c == '/' {
            flat.push('+');
        } else if c != ')' {
            flat.push(c);
        }
        assert(flat@ =~= flatten(text@.take(i as int)) + flat_char(c));
        i = i + 1;
    }
    assert(text@.take(text.len() as int) =~= text@);
    flat
}

impl PkgName {
    /// Appends the name, as it is written, to `out`.
    pub fn push_text(&self, out: &mut Vec<char>)
        ensures
            final(out)@ == old(out)@ + name_text(self@),
    {
        match &self.scope {
            Some(scope) => {
                out.push('@');
                push_str(out, scope.as_str());
                out.push('/');
                push_str(out, self.bare.as_str());
                assert(out@ =~= old(out)@ + name_text(self@));
            },
            None => {
                push_str(out, self.bare.as_str());
            },
        }
    }

    /// The name as it is written: `bare`, or `@scope/bare`.
    pub fn to_text(&self) -> (text: String)
        ensures
            text@ == name_text(self@),
    {
        let mut out: Vec<char> = Vec::new();
        self.push_text(&mut out);
        assert(out@ =~= name_text(self@));
        string_of(&out)
    }
}

impl PkgNameVerPeer {
    /// The unit of the package `name` resolved to `suffix`.
    pub fn new(name: PkgName, suffix: PkgVerPeer) -> (unit: Self)
        ensures
            unit.name == name,
            unit.suffix == suffix,
    {
        PkgNameVerPeer { name, suffix }
    }

    /// The unit as it is written, for example
    /// `ts-node@10.9.1(@types/node@18.7.19)`.
    pub fn to_text(&self) -> (text: String)
        ensures
            text@ == specifier_text(self@),
    {
        let out = specifier_chars(&self.name, &self.suffix);
        string_of(&out)
    }

    /// The name of the unit's directory in the virtual store, for example
    /// `ts-node@10.9.1_@types+node@18.7.19`.
    pub fn to_virtual_store_name(&self) -> (name: String)
        ensures
            name@ == virtual_store_name(self@),
    {
        store_name_of(&self.name, &self.suffix)
    }
}

fn specifier_chars(name: &PkgName, suffix: &PkgVerPeer) -> (out: Vec<char>)
    ensures
        out@ == specifier_text(PkgNameVerPeerView { name: name@, suffix: suffix@ }),
{
    let mut out: Vec<char> = Vec::new();
    name.push_text(&mut out);
    out.push('@');
    suffix.version.push_text(&mut out);
    push_str(&mut out, suffix.peer.as_str());
    assert(out@ =~= specifier_text(PkgNameVerPeerView { name: name@, suffix: suffix@ }));
    out
}

/// The name of the directory, in the virtual store, of the package `name`
/// resolved to `suffix`.
pub fn store_name_of(name: &PkgName, suffix: &PkgVerPeer) -> (store_name: String)
    ensures
        store_name@ == virtual_store_name(PkgNameVerPeerView { name: name@, suffix: suffix@ }),
{
    let text = specifier_chars(name, suffix);
    let flat = flatten_chars(&text);
    string_of(&flat)
}

fn holds_name_chars(chars: &Vec<char>, from: usize, to: usize) -> (all: bool)
    requires
        from <= to <= chars.len(),
    ensures
        all == all_name_chars(chars@.subrange(from as int, to as int)),
{
    let ghost part = chars@.subrange(from as int, to as int);
    let mut i: usize = from;
    while i < to
        invariant
            from <= i <= to <= chars.len(),
            part == chars@.subrange(from as int, to as int),
            forall|j: int| 0 <= j < i - from ==> is_name_char(#[trigger] part[j]),
        decreases to - i,
    {
        let c = chars[i];
        if c == '@' || c == '/' || c == '(' || c == ')' {
            assert(part[i - from] == c);
            return false;
        }
        assert(part[i - from] == c);
        i = i + 1;
    }
    true
}

fn text_between(chars: &Vec<char>, from: usize, to: usize) -> (text: String)
    requires
        from <= to <= chars.len(),
    ensures
        text@ == chars@.subrange(from as int, to as int),
{
    let mut part: Vec<char> = Vec::new();
    let mut i: usize = from;
    while i < to
        invariant
            from <= i <= to <= chars.len(),
            part@ == chars@.subrange(from as int, i as int),
        decreases to - i,
    {
        part.push(chars[i]);
        i = i + 1;
        assert(part@ =~= chars@.subrange(from as int, i as int));
    }
    string_of(&part)
}

impl PkgName {
    /// Reads a name from `text`: `bare`, or `@scope/bare`. The name is
    /// valid, and is written as `text`; a text that writes no valid name is
    /// refused.
    pub fn parse(text: &str) -> (parsed: Result<PkgName, ParsePkgNameError>)
        ensures
            match parsed {
                Ok(name) => parsed_name(text@) == Ok::<PkgNameView, ParsePkgNameError>(name@),
                Err(e) => parsed_name(text@) == Err::<PkgNameView, ParsePkgNameError>(e),
            },
    {
        let chars = crate::text::chars_of(text);
        let len = chars.len();
        if len == 0 {
            return Err(ParsePkgNameError::EmptyName);
        }
        if chars[0] != '@' {
            if !holds_name_chars(&chars, 0, len) {
                assert(chars@.subrange(0, len as int) =~= chars@);
                return Err(ParsePkgNameError::InvalidCharacter);
            }
            assert(chars@.subrange(0, len as int) =~= chars@);
            return Ok(PkgName { scope: None, bare: text_between(&chars, 0, len) });
        }
        let mut slash: usize = 1;
        while slash < len && chars[slash] != '/'
            invariant
                1 <= slash <= len,
                len == chars.len(),
                chars@[0] == '@',
                forall|j: int| 0 <= j < slash ==> #[trigger] chars@[j] != '/',
            decreases len - slash,
        {
            slash = slash + 1;
        }
        proof {
            lemma_slash_at(chars@, slash as int);
        }
        if slash == len {
            return Err(ParsePkgNameError::MissingSlash);
        }
        if slash == 1 {
            return Err(ParsePkgNameError::EmptyScope);
        }
        if slash + 1 == len {
            return Err(ParsePkgNameError::EmptyName);
        }
        if !holds_name_chars(&chars, 1, slash) || !holds_name_chars(&chars, slash + 1, len) {
            return Err(ParsePkgNameError::InvalidCharacter);
        }
        Ok(
            PkgName {
                scope: Some(text_between(&chars, 1, slash)),
                bare: text_between(&chars, slash + 1, len),
            },
        )
    }
}

/// Tells whether `peer` is a flat fingerprint: empty, or a row of
/// parenthesised groups, none of which holds a parenthesis, an underscore
/// or a plus sign.
pub fn is_flat_fingerprint(peer: &str) -> (flat: bool)
    ensures
        flat == is_flat_peer(peer@),
{
    let chars = crate::text::chars_of(peer);
    let len = chars.len();
    if len == 0 {
        return true;
    }
    if chars[0] != '(' || chars[len - 1] != ')' {
        assert(chars@.last() == chars@[len - 1]);
        return false;
    }
    let mut i: usize = 0;
    while i < len
        invariant
            i <= len,
            len == chars.len(),
            chars@ == peer@,
            forall|k: int| 0 <= k < i ==> #[trigger] chars@[k] != '_' && chars@[k] != '+',
            forall|k: int| 0 <= k < i && k < len - 1 && #[trigger] chars@[k] == ')' ==> chars@[k + 1] == '(',
            forall|k: int| 0 < k < i && #[trigger] chars@[k] == '(' ==> chars@[k - 1] == ')',
        decreases len - i,
    {
        let c = chars[i];
        if c == '_' || c == '+' {
            return false;
        }
        if c == ')' && i + 1 < len && chars[i + 1] != '(' {
            return false;
        }
        if c == '(' && i > 0 && chars[i - 1] != ')' {
            return false;
        }
        i = i + 1;
    }
    assert(chars@.last() == chars@[len - 1]);
    true
}

impl PkgName {
    /// Tells whether the name is valid.
    pub fn is_well_formed(&self) -> (well_formed: bool)
        ensures
            well_formed == self@.well_formed(),
    {
        let bare = crate::text::chars_of(self.bare.as_str());
        assert(bare@.subrange(0, bare@.len() as int) =~= bare@);
        if bare.len() == 0 || !holds_name_chars(&bare, 0, bare.len()) {
            return false;
        }
        match &self.scope {
            Some(scope) => {
                let scope = crate::text::chars_of(scope.as_str());
                assert(scope@.subrange(0, scope@.len() as int) =~= scope@);
                scope.len() > 0 && holds_name_chars(&scope, 0, scope.len())
            },
            None => true,
        }
    }
}

impl PkgNameVerPeer {
    /// Tells whether the unit is well formed: whether it has a valid name,
    /// a well-formed version and a flat fingerprint.
    pub fn is_well_formed(&self) -> (well_formed: bool)
        ensures
            well_formed == self@.well_formed(),
    {
        self.name.is_well_formed() && self.suffix.version.is_well_formed() && is_flat_fingerprint(
            self.suffix.peer.as_str(),
        )
    }
}

} // verus!
