//! What a registry knows of a package, and the choice of one version of it.

use crate::precedence::{
    lemma_precedence_flips, lemma_precedence_transitive, precedence, precedes,
};
use crate::range::{is_supported_range, parses_as_range, range_admits, range_is_valid, satisfies};
use crate::semver::{version_text, Version, VersionView};
use crate::text::{copy_text, same_text, string_of};
use vstd::prelude::*;

verus! {

/// Where and how one version of a package is distributed.
#[derive(Clone, Debug, PartialEq, Eq)]
pub struct PackageDistribution {
    pub integrity: Option<String>,
    pub shasum: Option<String>,
    pub tarball: String,
    pub file_count: Option<usize>,
    pub unpacked_size: Option<usize>,
}

impl Default for PackageDistribution {
    fn default() -> (dist: Self)
        ensures
            dist.integrity is None,
            dist.shasum is None,
            dist.tarball@ == Seq::<char>::empty(),
            dist.file_count is None,
            dist.unpacked_size is None,
    {
        PackageDistribution {
            integrity: None,
            shasum: None,
            tarball: String::new(),
            file_count: None,
            unpacked_size: None,
        }
    }
}

/// The metadata of one version of a package. Each list of dependencies maps
/// a package name to the range asked of it; in a well-formed version no list
/// names a package twice.
#[derive(Clone, Debug)]
pub struct PackageVersion {
    pub name: String,
    pub version: Version,
    pub dist: PackageDistribution,
    pub dependencies: Option<Vec<(String, String)>>,
    pub dev_dependencies: Option<Vec<(String, String)>>,
    pub peer_dependencies: Option<Vec<(String, String)>>,
}

/// The metadata of a package: its name, its tags, each with the version it
/// points to, and its versions, each under the text of its number. In a
/// well-formed package no tag and no number occurs twice; where one does,
/// the first entry counts.
#[derive(Clone, Debug)]
pub struct Package {
    pub name: String,
    pub dist_tags: Vec<(String, String)>,
    pub versions: Vec<(String, PackageVersion)>,
}

/// A request for the metadata of a package: the address to get, and the
/// header to send with it.
#[derive(Clone, Debug, PartialEq, Eq)]
pub struct RegistryRequest {
    pub url: String,
    pub header_name: String,
    pub header_value: String,
}

/// Why a request to the registry failed: the address asked and the cause as
/// the client reported it.
#[derive(Clone, Debug, PartialEq, Eq)]
pub struct NetworkError {
    pub error: String,
    pub url: String,
}

/// What can go wrong when asking a registry and choosing a version.
#[derive(Clone, Debug, PartialEq, Eq)]
pub enum RegistryError {
    /// The request failed, or its answer could not be decoded.
    Network(NetworkError),
    /// The text is not a range.
    InvalidRange(String),
    /// The package has no tag `latest`.
    MissingDistTag,
    /// The tag `latest` points to a version that the package does not have.
    MissingVersion(String),
}

/// Whether some entry of `entries` has the key `key`.
pub open spec fn has_key<V>(entries: Seq<(String, V)>, key: Seq<char>) -> bool {
    exists|i: int| 0 <= i < entries.len() && (#[trigger] entries[i]).0@ == key
}

/// Whether entry `i` is the first of `entries` with the key `key`.
pub open spec fn is_first_with_key<V>(entries: Seq<(String, V)>, key: Seq<char>, i: int) -> bool {
    &&& 0 <= i < entries.len()
    &&& entries[i].0@ == key
    &&& forall|j: int| 0 <= j < i ==> (#[trigger] entries[j]).0@ != key
}

/// The place of the first entry with the key `key`, if there is one.
pub fn position_of<V>(entries: &Vec<(String, V)>, key: &str) -> (found: Option<usize>)
    ensures
        match found {
            Some(i) => is_first_with_key(entries@, key@, i as int),
            None => !has_key(entries@, key@),
        },
{
    let mut i: usize = 0;
    while i < entries.len()
        invariant
            i <= entries.len(),
            forall|j: int| 0 <= j < i ==> (#[trigger] entries@[j]).0@ != key@,
        decreases entries.len() - i,
    {
        if same_text(entries[i].0.as_str(), key) {
            return Some(i);
        }
        i = i + 1;
    }
    None
}

/// The entries of `extra` whose key no entry of `base` has, in their order.
pub open spec fn entries_lacking(base: Seq<(String, String)>, extra: Seq<(String, String)>) -> Seq<
    (String, String),
>
    decreases extra.len(),
{
    if extra.len() == 0 {
        Seq::empty()
    } else {
        let before = entries_lacking(base, extra.drop_last());
        if has_key(base, extra.last().0@) {
            before
        } else {
            before.push(extra.last())
        }
    }
}

/// The entries of a list that may be absent.
pub open spec fn entries_of(list: Option<Vec<(String, String)>>) -> Seq<(String, String)> {
    match list {
        Some(entries) => entries@,
        None => Seq::empty(),
    }
}

impl PackageVersion {
    /// What `dependencies` yields: the regular dependencies, then, if asked
    /// for, the peer dependencies that are not regular ones too.
    pub open spec fn spec_dependencies(&self, with_peer_dependencies: bool) -> Seq<
        (String, String),
    > {
        let regular = entries_of(self.dependencies);
        if with_peer_dependencies {
            regular + entries_lacking(regular, entries_of(self.peer_dependencies))
        } else {
            regular
        }
    }

    /// The packages that this version depends on, each with the range asked
    /// of it: the regular dependencies and, if `with_peer_dependencies`, the
    /// peer dependencies as well. A peer dependency that is a regular one
    /// too is left out, so that the regular entry stands.
    pub fn dependencies(&self, with_peer_dependencies: bool) -> (all: Vec<(String, String)>)
        ensures
            all@ == self.spec_dependencies(with_peer_dependencies),
    {
        let mut all: Vec<(String, String)> = Vec::new();
        let ghost regular = entries_of(self.dependencies);
        let ghost peers = entries_of(self.peer_dependencies);
        match &self.dependencies {
            Some(entries) => {
                let mut i: usize = 0;
                while i < entries.len()
                    invariant
                        i <= entries.len(),
                        all@ == entries@.take(i as int),
                    decreases entries.len() - i,
                {
                    all.push((entries[i].0.clone(), entries[i].1.clone()));
                    i = i + 1;
                    assert(all@ =~= entries@.take(i as int));
                }
                assert(entries@.take(entries.len() as int) =~= entries@);
            },
            None => {},
        }
        assert(all@ =~= regular);
        if with_peer_dependencies {
            match (&self.dependencies, &self.peer_dependencies) {
                (_, None) => {
                    assert(regular + entries_lacking(regular, peers) =~= regular);
                },
                (regular_list, Some(entries)) => {
                    let mut i: usize = 0;
                    while i < entries.len()
                        invariant
                            i <= entries.len(),
                            regular == entries_of(*regular_list),
                            all@ == regular + entries_lacking(regular, entries@.take(i as int)),
                        decreases entries.len() - i,
                    {
                        let known = match regular_list {
                            Some(list) => position_of(list, entries[i].0.as_str()).is_some(),
                            None => false,
                        };
                        proof {
                            assert(entries@.take(i + 1).drop_last() =~= entries@.take(i as int));
                            assert(entries@.take(i + 1).last() == entries@[i as int]);
                            assert(known == has_key(regular, entries@[i as int].0@));
                        }
                        if !known {
                            all.push((entries[i].0.clone(), entries[i].1.clone()));
                        }
                        i = i + 1;
                        assert(all@ =~= regular + entries_lacking(
                            regular,
                            entries@.take(i as int),
                        ));
                    }
                    assert(entries@.take(entries.len() as int) =~= entries@);
                },
            }
        }
        all
    }

    /// How this version is written into a manifest: the version alone if
    /// `save_exact`, else the version after a caret.
    pub fn serialize(&self, save_exact: bool) -> (text: String)
        ensures
            text@ == if save_exact {
                version_text(self.version@)
            } else {
                seq!['^'] + version_text(self.version@)
            },
    {
        let mut out: Vec<char> = Vec::new();
        if !save_exact {
            out.push('^');
        }
        self.version.push_text(&mut out);
        assert(save_exact ==> out@ =~= version_text(self.version@));
        string_of(&out)
    }
}

/// The version of entry `i` of a package's versions.
pub open spec fn version_at(versions: Seq<(String, PackageVersion)>, i: int) -> VersionView {
    versions[i].1.version@
}

/// Whether entry `b` is the choice among the first `n` entries of `versions`
/// for `range`: it satisfies the range, no entry that satisfies the range is
/// a higher version, and no later entry that satisfies it is as high.
pub open spec fn is_pinned_among(
    versions: Seq<(String, PackageVersion)>,
    range: Seq<char>,
    b: int,
    n: int,
) -> bool {
    &&& 0 <= b < n <= versions.len()
    &&& range_admits(version_at(versions, b), range)
    &&& forall|j: int|
        0 <= j < n && range_admits(#[trigger] version_at(versions, j), range) ==> precedence(
            version_at(versions, j),
            version_at(versions, b),
        ) <= 0
    &&& forall|j: int|
        b < j < n && range_admits(#[trigger] version_at(versions, j), range) ==> precedence(
            version_at(versions, j),
            version_at(versions, b),
        ) < 0
}

/// Whether entry `b` is the choice among all of `versions` for `range`: the
/// highest version that satisfies the range and, of several equally high
/// ones, the last.
pub open spec fn is_pinned(versions: Seq<(String, PackageVersion)>, range: Seq<char>, b: int) -> bool {
    is_pinned_among(versions, range, b, versions.len() as int)
}

/// Whether no entry of `versions` satisfies `range`.
pub open spec fn none_admitted(versions: Seq<(String, PackageVersion)>, range: Seq<char>) -> bool {
    forall|j: int|
        0 <= j < versions.len() ==> !range_admits(#[trigger] version_at(versions, j), range)
}

/// There is at most one choice: two entries that are both the choice for a
/// range are the same entry.
pub proof fn lemma_pinned_is_unique(
    versions: Seq<(String, PackageVersion)>,
    range: Seq<char>,
    a: int,
    b: int,
)
    requires
        is_pinned(versions, range, a),
        is_pinned(versions, range, b),
    ensures
        a == b,
{
    lemma_precedence_flips(version_at(versions, a), version_at(versions, b));
    if a < b {
        assert(range_admits(version_at(versions, b), range));
        assert(precedence(version_at(versions, b), version_at(versions, a)) < 0);
        assert(range_admits(version_at(versions, a), range));
        assert(precedence(version_at(versions, a), version_at(versions, b)) <= 0);
    } else if b < a {
        assert(range_admits(version_at(versions, a), range));
        assert(precedence(version_at(versions, a), version_at(versions, b)) < 0);
        assert(range_admits(version_at(versions, b), range));
        assert(precedence(version_at(versions, b), version_at(versions, a)) <= 0);
    }
}

/// What one more version does to the choice. A version that does not
/// satisfy the range changes nothing. One that satisfies it becomes the
/// choice if no version satisfied the range before, or if it is not lower
/// than the choice made before; else that choice stands.
pub proof fn lemma_pinned_with_one_more(
    versions: Seq<(String, PackageVersion)>,
    entry: (String, PackageVersion),
    range: Seq<char>,
    b: int,
)
    ensures
        ({
            let more = versions.push(entry);
            let added = entry.1.version@;
            &&& !range_admits(added, range) ==> (is_pinned(more, range, b) <==> is_pinned(
                versions,
                range,
                b,
            )) && (none_admitted(more, range) <==> none_admitted(versions, range))
            &&& range_admits(added, range) && none_admitted(versions, range) ==> is_pinned(
                more,
                range,
                versions.len() as int,
            )
            &&& range_admits(added, range) && is_pinned(versions, range, b) ==> if precedence(
                added,
                version_at(versions, b),
            ) >= 0 {
                is_pinned(more, range, versions.len() as int)
            } else {
                is_pinned(more, range, b)
            }
        }),
{
    let more = versions.push(entry);
    let added = entry.1.version@;
    let n = versions.len() as int;
    assert(version_at(more, n) == added);
    assert forall|j: int| 0 <= j < n implies #[trigger] version_at(more, j) == version_at(
        versions,
        j,
    ) by {}
    lemma_precedence_flips(added, added);
    if !range_admits(added, range) {
        if is_pinned(versions, range, b) {
            assert forall|j: int|
                0 <= j < n + 1 && range_admits(
                    #[trigger] version_at(more, j),
                    range,
                ) implies precedence(version_at(more, j), version_at(more, b)) <= 0 by {
                assert(version_at(more, j) == version_at(versions, j));
            }
            assert forall|j: int|
                b < j < n + 1 && range_admits(
                    #[trigger] version_at(more, j),
                    range,
                ) implies precedence(version_at(more, j), version_at(more, b)) < 0 by {
                assert(version_at(more, j) == version_at(versions, j));
            }
            assert(is_pinned(more, range, b));
        }
        if is_pinned(more, range, b) {
            assert(b < n);
            assert forall|j: int|
                0 <= j < n && range_admits(
                    #[trigger] version_at(versions, j),
                    range,
                ) implies precedence(version_at(versions, j), version_at(versions, b)) <= 0 by {
                assert(version_at(more, j) == version_at(versions, j));
            }
            assert forall|j: int|
                b < j < n && range_admits(
                    #[trigger] version_at(versions, j),
                    range,
                ) implies precedence(version_at(versions, j), version_at(versions, b)) < 0 by {
                assert(version_at(more, j) == version_at(versions, j));
            }
            assert(is_pinned(versions, range, b));
        }
        if none_admitted(versions, range) {
            assert forall|j: int| 0 <= j < more.len() implies !range_admits(
                #[trigger] version_at(more, j),
                range,
            ) by {
                if j < n {
                    assert(version_at(more, j) == version_at(versions, j));
                }
            }
        }
        if none_admitted(more, range) {
            assert forall|j: int| 0 <= j < versions.len() implies !range_admits(
                #[trigger] version_at(versions, j),
                range,
            ) by {
                assert(version_at(more, j) == version_at(versions, j));
            }
        }
    } else {
        if none_admitted(versions, range) {
            assert forall|j: int|
                0 <= j < n + 1 && range_admits(
                    #[trigger] version_at(more, j),
                    range,
                ) implies precedence(version_at(more, j), version_at(more, n)) <= 0 by {
                if j < n {
                    assert(version_at(more, j) == version_at(versions, j));
                }
            }
            assert(is_pinned(more, range, n));
        }
        if is_pinned(versions, range, b) {
            let chosen = version_at(versions, b);
            assert(version_at(more, b) == chosen);
            lemma_precedence_flips(added, chosen);
            if precedence(added, chosen) >= 0 {
                assert forall|j: int|
                    0 <= j < n + 1 && range_admits(
                        #[trigger] version_at(more, j),
                        range,
                    ) implies precedence(version_at(more, j), version_at(more, n)) <= 0 by {
                    if j < n {
                        assert(version_at(more, j) == version_at(versions, j));
                        lemma_precedence_transitive(version_at(versions, j), chosen, added);
                    }
                }
                assert(is_pinned(more, range, n));
            } else {
                assert forall|j: int|
                    0 <= j < n + 1 && range_admits(
                        #[trigger] version_at(more, j),
                        range,
                    ) implies precedence(version_at(more, j), version_at(more, b)) <= 0 by {
                    if j < n {
                        assert(version_at(more, j) == version_at(versions, j));
                    }
                }
                assert forall|j: int|
                    b < j < n + 1 && range_admits(
                        #[trigger] version_at(more, j),
                        range,
                    ) implies precedence(version_at(more, j), version_at(more, b)) < 0 by {
                    if j < n {
                        assert(version_at(more, j) == version_at(versions, j));
                    }
                }
                assert(is_pinned(more, range, b));
            }
        }
    }
}

proof fn lemma_pinned_moves(
    versions: Seq<(String, PackageVersion)>,
    range: Seq<char>,
    b: int,
    i: int,
)
    requires
        is_pinned_among(versions, range, b, i),
        i < versions.len(),
        range_admits(version_at(versions, i), range),
        precedence(version_at(versions, i), version_at(versions, b)) >= 0,
    ensures
        is_pinned_among(versions, range, i, i + 1),
{
    let top = version_at(versions, i);
    let old_top = version_at(versions, b);
    lemma_precedence_flips(top, old_top);
    lemma_precedence_flips(top, top);
    assert forall|j: int|
        0 <= j < i + 1 && range_admits(#[trigger] version_at(versions, j), range) implies precedence(
        version_at(versions, j),
        top,
    ) <= 0 by {
        if j < i {
            lemma_precedence_transitive(version_at(versions, j), old_top, top);
        }
    }
}

impl Package {
    /// The address under which `registry` tells of the package `name`: the
    /// registry's address with the name behind it.
    pub fn registry_url(name: &str, registry: &str) -> (url: String)
        ensures
            url@ == registry@ + name@,
    {
        let mut out: Vec<char> = Vec::new();
        crate::text::push_str(&mut out, registry);
        crate::text::push_str(&mut out, name);
        assert(out@ =~= registry@ + name@);
        string_of(&out)
    }

    /// The request that asks `registry` for the package `name`: a GET of
    /// `registry_url(name, registry)` that announces JSON as its content
    /// type.
    pub fn registry_request(name: &str, registry: &str) -> (request: RegistryRequest)
        ensures
            request.url@ == registry@ + name@,
            request.header_name@ == "content-type"@,
            request.header_value@ == "application/json"@,
    {
        RegistryRequest {
            url: Package::registry_url(name, registry),
            header_name: copy_text("content-type"),
            header_value: copy_text("application/json"),
        }
    }

    /// Concludes a request for the package `name` to `registry`. `answer`
    /// is what came of sending `registry_request(name, registry)` and
    /// decoding the body: the package, or the cause of the failure as the
    /// client reported it. A failure, of the transport or of the
    /// decoding alike, is reported with the address that was asked.
    pub fn fetch_from_registry(name: &str, registry: &str, answer: Result<Package, String>) -> (fetched:
        Result<Package, RegistryError>)
        ensures
            match answer {
                Ok(package) => fetched == Ok::<Package, RegistryError>(package),
                Err(cause) => fetched matches Err(RegistryError::Network(e)) && e.error == cause
                    && e.url@ == registry@ + name@,
            },
    {
        match answer {
            Ok(package) => Ok(package),
            Err(cause) => Err(
                RegistryError::Network(
                    NetworkError { error: cause, url: Package::registry_url(name, registry) },
                ),
            ),
        }
    }

    /// The version that `version_range` asks for: of the versions that
    /// satisfy the range the highest by semantic-version precedence, and
    /// none if no version satisfies it. A text that is not a range is an
    /// error.
    pub fn pinned_version(&self, version_range: &str) -> (pinned: Result<
        Option<&PackageVersion>,
        RegistryError,
    >)
        ensures
            match pinned {
                Ok(Some(version)) => range_is_valid(version_range@) && exists|b: int|
                    #[trigger] is_pinned(self.versions@, version_range@, b) && *version
                        == self.versions@[b].1,
                Ok(None) => range_is_valid(version_range@) && none_admitted(
                    self.versions@,
                    version_range@,
                ),
                Err(RegistryError::InvalidRange(text)) => !range_is_valid(version_range@)
                    && text@ == version_range@,
                Err(_) => false,
            },
    {
        if !is_supported_range(version_range) || !parses_as_range(version_range) {
            return Err(RegistryError::InvalidRange(copy_text(version_range)));
        }
        let mut best: Option<usize> = None;
        let mut i: usize = 0;
        while i < self.versions.len()
            invariant
                i <= self.versions.len(),
                range_is_valid(version_range@),
                match best {
                    Some(b) => is_pinned_among(self.versions@, version_range@, b as int, i as int),
                    None => forall|j: int|
                        0 <= j < i ==> !range_admits(
                            #[trigger] version_at(self.versions@, j),
                            version_range@,
                        ),
                },
            decreases self.versions.len() - i,
        {
            let candidate = &self.versions[i].1;
            if satisfies(&candidate.version, version_range) {
                match best {
                    None => {
                        proof {
                            lemma_precedence_flips(candidate.version@, candidate.version@);
                        }
                        best = Some(i);
                    },
                    Some(b) => {
                        if !precedes(&candidate.version, &self.versions[b].1.version) {
                            proof {
                                lemma_pinned_moves(
                                    self.versions@,
                                    version_range@,
                                    b as int,
                                    i as int,
                                );
                            }
                            best = Some(i);
                        }
                    },
                }
            }
            i = i + 1;
        }
        match best {
            Some(b) => {
                assert(is_pinned(self.versions@, version_range@, b as int));
                Ok(Some(&self.versions[b].1))
            },
            None => Ok(None),
        }
    }

    /// The version that the tag `latest` points to. A package without that
    /// tag, or whose tag points to a version it does not have, is an error.
    pub fn latest(&self) -> (latest: Result<&PackageVersion, RegistryError>)
        ensures
            match latest {
                Ok(version) => exists|t: int, v: int|
                    #[trigger] is_first_with_key(self.dist_tags@, "latest"@, t)
                        && #[trigger] is_first_with_key(
                        self.versions@,
                        self.dist_tags@[t].1@,
                        v,
                    ) && *version == self.versions@[v].1,
                Err(RegistryError::MissingDistTag) => !has_key(self.dist_tags@, "latest"@),
                Err(RegistryError::MissingVersion(number)) => exists|t: int|
                    #[trigger] is_first_with_key(self.dist_tags@, "latest"@, t) && number@
                        == self.dist_tags@[t].1@ && !has_key(self.versions@, number@),
                Err(_) => false,
            },
    {
        match position_of(&self.dist_tags, "latest") {
            None => Err(RegistryError::MissingDistTag),
            Some(t) => {
                let number = &self.dist_tags[t].1;
                match position_of(&self.versions, number.as_str()) {
                    None => {
                        assert(is_first_with_key(self.dist_tags@, "latest"@, t as int));
                        Err(RegistryError::MissingVersion(number.clone()))
                    },
                    Some(v) => {
                        assert(is_first_with_key(self.dist_tags@, "latest"@, t as int));
                        assert(is_first_with_key(
                            self.versions@,
                            self.dist_tags@[t as int].1@,
                            v as int,
                        ));
                        Ok(&self.versions[v].1)
                    },
                }
            },
        }
    }
}

impl PartialEq for Package {
    /// Two packages are equal when they have the same name, whatever
    /// versions each holds.
    fn eq(&self, other: &Self) -> (equal: bool) {
        self.name == other.name
    }
}

impl vstd::std_specs::cmp::PartialEqSpecImpl for Package {
    open spec fn obeys_eq_spec() -> bool {
        true
    }

    open spec fn eq_spec(&self, other: &Package) -> bool {
        self.name@ == other.name@
    }
}

/// Whether no two entries of `entries` have the same key.
pub open spec fn keys_are_unique<V>(entries: Seq<(String, V)>) -> bool {
    forall|i: int, j: int|
        0 <= i < j < entries.len() ==> (#[trigger] entries[i]).0@ != (#[trigger] entries[j]).0@
}

/// Tells whether no two entries of `entries` have the same key.
pub fn has_unique_keys<V>(entries: &Vec<(String, V)>) -> (unique: bool)
    ensures
        unique == keys_are_unique(entries@),
{
    let mut j: usize = 0;
    while j < entries.len()
        invariant
            j <= entries.len(),
            forall|a: int, b: int|
                0 <= a < b < j ==> (#[trigger] entries@[a]).0@ != (#[trigger] entries@[b]).0@,
        decreases entries.len() - j,
    {
        let mut i: usize = 0;
        while i < j
            invariant
                i <= j < entries.len(),
                forall|a: int| 0 <= a < i ==> (#[trigger] entries@[a]).0@ != entries@[j as int].0@,
            decreases j - i,
        {
            if same_text(entries[i].0.as_str(), entries[j].0.as_str()) {
                assert(entries@[i as int].0@ == entries@[j as int].0@);
                return false;
            }
            i = i + 1;
        }
        j = j + 1;
    }
    true
}

fn list_has_unique_keys(list: &Option<Vec<(String, String)>>) -> (unique: bool)
    ensures
        unique == keys_are_unique(entries_of(*list)),
{
    match list {
        Some(entries) => has_unique_keys(entries),
        None => true,
    }
}

/// In a list without repeated keys, an entry with a key is the first with
/// that key.
pub proof fn lemma_unique_key_is_first<V>(entries: Seq<(String, V)>, key: Seq<char>, i: int)
    requires
        keys_are_unique(entries),
        0 <= i < entries.len(),
        entries[i].0@ == key,
    ensures
        is_first_with_key(entries, key, i),
{
    assert forall|j: int| 0 <= j < i implies (#[trigger] entries[j]).0@ != key by {
        assert(entries[j].0@ != entries[i].0@);
    }
}

impl PackageVersion {
    /// Whether each list of dependencies names every package once.
    pub open spec fn well_formed(&self) -> bool {
        &&& keys_are_unique(entries_of(self.dependencies))
        &&& keys_are_unique(entries_of(self.dev_dependencies))
        &&& keys_are_unique(entries_of(self.peer_dependencies))
    }

    /// Tells whether the version is well formed.
    pub fn is_well_formed(&self) -> (well_formed: bool)
        ensures
            well_formed == self.well_formed(),
    {
        list_has_unique_keys(&self.dependencies) && list_has_unique_keys(&self.dev_dependencies)
            && list_has_unique_keys(&self.peer_dependencies)
    }
}

/// Whether every version of a list is well formed.
pub open spec fn versions_are_well_formed(versions: Seq<(String, PackageVersion)>) -> bool {
    forall|i: int| 0 <= i < versions.len() ==> (#[trigger] versions[i]).1.well_formed()
}

impl Package {
    /// Whether the package has each tag once and each version number once,
    /// and every version is well formed.
    pub open spec fn well_formed(&self) -> bool {
        &&& keys_are_unique(self.dist_tags@)
        &&& keys_are_unique(self.versions@)
        &&& versions_are_well_formed(self.versions@)
    }

    /// Tells whether the package is well formed.
    pub fn is_well_formed(&self) -> (well_formed: bool)
        ensures
            well_formed == self.well_formed(),
    {
        if !has_unique_keys(&self.dist_tags) || !has_unique_keys(&self.versions) {
            return false;
        }
        let mut i: usize = 0;
        while i < self.versions.len()
            invariant
                i <= self.versions.len(),
                forall|k: int| 0 <= k < i ==> (#[trigger] self.versions@[k]).1.well_formed(),
            decreases self.versions.len() - i,
        {
            if !self.versions[i].1.is_well_formed() {
                return false;
            }
            i = i + 1;
        }
        true
    }
}

/// Every entry kept comes from `extra` and has a key that `base` lacks.
proof fn lemma_lacking_comes_from(base: Seq<(String, String)>, extra: Seq<(String, String)>, k: int)
    requires
        0 <= k < entries_lacking(base, extra).len(),
    ensures
        !has_key(base, entries_lacking(base, extra)[k].0@),
        exists|j: int|
            0 <= j < extra.len() && #[trigger] extra[j] == entries_lacking(base, extra)[k],
    decreases extra.len(),
{
    let init = extra.drop_last();
    let before = entries_lacking(base, init);
    if k < before.len() {
        lemma_lacking_comes_from(base, init, k);
        let j = choose|j: int| 0 <= j < init.len() && #[trigger] init[j] == before[k];
        assert(extra[j] == init[j]);
    } else {
        assert(extra[extra.len() - 1] == entries_lacking(base, extra)[k]);
    }
}

/// Every entry of `extra` whose key `base` lacks is kept.
proof fn lemma_lacking_keeps(base: Seq<(String, String)>, extra: Seq<(String, String)>, j: int)
    requires
        0 <= j < extra.len(),
        !has_key(base, extra[j].0@),
    ensures
        exists|k: int|
            0 <= k < entries_lacking(base, extra).len() && #[trigger] entries_lacking(
                base,
                extra,
            )[k] == extra[j],
    decreases extra.len(),
{
    let init = extra.drop_last();
    let before = entries_lacking(base, init);
    let all = entries_lacking(base, extra);
    if j < init.len() {
        assert(init[j] == extra[j]);
        lemma_lacking_keeps(base, init, j);
        let k = choose|k: int| 0 <= k < before.len() && #[trigger] before[k] == init[j];
        assert(all[k] == before[k]);
    } else {
        assert(all[all.len() - 1] == extra[j]);
    }
}

/// Keeping entries of a list without repeated keys repeats no key.
proof fn lemma_lacking_is_unique(base: Seq<(String, String)>, extra: Seq<(String, String)>)
    requires
        keys_are_unique(extra),
    ensures
        keys_are_unique(entries_lacking(base, extra)),
    decreases extra.len(),
{
    if extra.len() > 0 {
        let init = extra.drop_last();
        let before = entries_lacking(base, init);
        let all = entries_lacking(base, extra);
        assert(keys_are_unique(init)) by {
            assert forall|i: int, j: int| 0 <= i < j < init.len() implies (#[trigger] init[i]).0@
                != (#[trigger] init[j]).0@ by {
                assert(init[i] == extra[i]);
                assert(init[j] == extra[j]);
            }
        }
        lemma_lacking_is_unique(base, init);
        assert forall|i: int, j: int| 0 <= i < j < all.len() implies (#[trigger] all[i]).0@ != (
        #[trigger] all[j]).0@ by {
            assert(all[i] == before[i]);
            if j < before.len() {
                assert(all[j] == before[j]);
            } else {
                lemma_lacking_comes_from(base, init, i);
                let m = choose|m: int| 0 <= m < init.len() && #[trigger] init[m] == before[i];
                assert(extra[m] == init[m]);
                assert(extra[extra.len() - 1] == all[j]);
            }
        }
    }
}

/// The list of all dependencies holds a name exactly when the regular or
/// the peer dependencies hold it, and the entry that the regular
/// dependencies have for a name is the one that the list has for it: a
/// peer dependency never takes the place of a regular one.
pub proof fn lemma_regular_dependency_stands(version: PackageVersion, key: Seq<char>)
    ensures
        has_key(version.spec_dependencies(true), key) <==> has_key(
            entries_of(version.dependencies),
            key,
        ) || has_key(entries_of(version.peer_dependencies), key),
        forall|i: int| #[trigger]
            is_first_with_key(entries_of(version.dependencies), key, i) ==> is_first_with_key(
                version.spec_dependencies(true),
                key,
                i,
            ),
{
    let regular = entries_of(version.dependencies);
    let peers = entries_of(version.peer_dependencies);
    let lacking = entries_lacking(regular, peers);
    let all = version.spec_dependencies(true);
    if has_key(all, key) {
        let i = choose|i: int| 0 <= i < all.len() && (#[trigger] all[i]).0@ == key;
        if i < regular.len() {
            assert(regular[i].0@ == key);
        } else {
            let k = i - regular.len();
            assert(lacking[k] == all[i]);
            lemma_lacking_comes_from(regular, peers, k);
            let j = choose|j: int| 0 <= j < peers.len() && #[trigger] peers[j] == lacking[k];
            assert(peers[j].0@ == key);
        }
    }
    if has_key(regular, key) {
        let i = choose|i: int| 0 <= i < regular.len() && (#[trigger] regular[i]).0@ == key;
        assert(all[i].0@ == key);
    } else if has_key(peers, key) {
        let j = choose|j: int| 0 <= j < peers.len() && (#[trigger] peers[j]).0@ == key;
        lemma_lacking_keeps(regular, peers, j);
        let k = choose|k: int| 0 <= k < lacking.len() && #[trigger] lacking[k] == peers[j];
        assert(all[regular.len() + k].0@ == key);
    }
    assert forall|i: int| #[trigger]
        is_first_with_key(regular, key, i) implies is_first_with_key(all, key, i) by {
        assert(all[i] == regular[i]);
        assert forall|j: int| 0 <= j < i implies (#[trigger] all[j]).0@ != key by {
            assert(all[j] == regular[j]);
        }
    }
}

/// If the regular dependencies name no package twice and the peer
/// dependencies name none twice, the list of all dependencies names none
/// twice.
pub proof fn lemma_dependencies_are_unique(version: PackageVersion, with_peer_dependencies: bool)
    requires
        keys_are_unique(entries_of(version.dependencies)),
        keys_are_unique(entries_of(version.peer_dependencies)),
    ensures
        keys_are_unique(version.spec_dependencies(with_peer_dependencies)),
{
    let regular = entries_of(version.dependencies);
    let peers = entries_of(version.peer_dependencies);
    let lacking = entries_lacking(regular, peers);
    let all = version.spec_dependencies(with_peer_dependencies);
    lemma_lacking_is_unique(regular, peers);
    if with_peer_dependencies {
        assert forall|i: int, j: int| 0 <= i < j < all.len() implies (#[trigger] all[i]).0@ != (
        #[trigger] all[j]).0@ by {
            if j < regular.len() {
                assert(all[i] == regular[i]);
                assert(all[j] == regular[j]);
            } else if i < regular.len() {
                assert(all[i] == regular[i]);
                assert(all[j] == lacking[j - regular.len()]);
                lemma_lacking_comes_from(regular, peers, j - regular.len());
            } else {
                assert(all[i] == lacking[i - regular.len()]);
                assert(all[j] == lacking[j - regular.len()]);
            }
        }
    }
}

} // verus!
