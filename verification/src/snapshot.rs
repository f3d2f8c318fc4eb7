//! What the installation reads of a lockfile, of a manifest and of the
//! configuration.

use crate::store_name::{name_text, PkgName, PkgNameVerPeer, PkgVerPeer};
use crate::text::same_text;
use vstd::prelude::*;

verus! {

/// The groups into which a manifest sorts its dependencies.
#[derive(Clone, Copy, Debug, PartialEq, Eq)]
pub enum DependencyGroup {
    Prod,
    Dev,
    Optional,
    Peer,
}

/// How the files of a package are brought from the store into its
/// directory.
#[derive(Clone, Copy, Debug, PartialEq, Eq)]
pub enum PackageImportMethod {
    Auto,
    Hardlink,
    Copy,
    Clone,
    CloneOrCopy,
}

/// The part of the configuration that the installation reads: the directory
/// of the virtual store and the project's `node_modules` directory.
#[derive(Clone, Debug)]
pub struct Npmrc {
    pub virtual_store_dir: String,
    pub modules_dir: String,
}

/// A direct dependency as the lockfile records it: the range that the
/// manifest asks for, and the version and peers it was resolved to.
#[derive(Clone, Debug)]
pub struct ResolvedDependencySpec {
    pub specifier: String,
    pub version: PkgVerPeer,
}

/// The direct dependencies of one project, by group. In a well-formed
/// project each package name occurs once within a group.
#[derive(Clone, Debug)]
pub struct ProjectSnapshot {
    pub dependencies: Option<Vec<(PkgName, ResolvedDependencySpec)>>,
    pub optional_dependencies: Option<Vec<(PkgName, ResolvedDependencySpec)>>,
    pub dev_dependencies: Option<Vec<(PkgName, ResolvedDependencySpec)>>,
}

/// The projects of a workspace, each under its directory.
#[derive(Clone, Debug)]
pub struct MultiProjectSnapshot {
    pub importers: Vec<(String, ProjectSnapshot)>,
}

/// The root of a lockfile: one project, or a workspace of several.
#[derive(Clone, Debug)]
pub enum RootProjectSnapshot {
    Multi(MultiProjectSnapshot),
    Single(ProjectSnapshot),
}

/// A dependency that the lockfile records by its path in the registry.
#[derive(Clone, Debug)]
pub struct DependencyPath {
    pub custom_registry: Option<String>,
    pub package_specifier: PkgNameVerPeer,
}

/// A dependency of an installed package, in one of the two forms in which a
/// lockfile records it.
#[derive(Clone, Debug)]
pub enum PackageSnapshotDependency {
    /// The version and peers; the name is the key under which it stands.
    PkgVerPeer(PkgVerPeer),
    /// A path that carries its own name, version and peers.
    DependencyPath(DependencyPath),
}

/// The entries of a list that may be absent.
pub open spec fn resolved_entries(list: Option<Vec<(PkgName, ResolvedDependencySpec)>>) -> Seq<
    (PkgName, ResolvedDependencySpec),
> {
    match list {
        Some(entries) => entries@,
        None => Seq::empty(),
    }
}

/// Whether no two entries of `entries` have names that are written alike.
pub open spec fn names_are_unique<V>(entries: Seq<(PkgName, V)>) -> bool {
    forall|i: int, j: int|
        0 <= i < j < entries.len() ==> name_text((#[trigger] entries[i]).0@) != name_text(
            (#[trigger] entries[j]).0@,
        )
}

/// Tells whether no two entries of `entries` have names that are written
/// alike.
pub fn has_unique_names<V>(entries: &Vec<(PkgName, V)>) -> (unique: bool)
    ensures
        unique == names_are_unique(entries@),
{
    let mut texts: Vec<String> = Vec::new();
    let mut k: usize = 0;
    while k < entries.len()
        invariant
            k <= entries.len(),
            texts@.len() == k,
            forall|a: int| 0 <= a < k ==> (#[trigger] texts@[a])@ == name_text(entries@[a].0@),
        decreases entries.len() - k,
    {
        texts.push(entries[k].0.to_text());
        k = k + 1;
    }
    let mut j: usize = 0;
    while j < entries.len()
        invariant
            j <= entries.len(),
            texts@.len() == entries.len(),
            forall|a: int|
                0 <= a < entries.len() ==> (#[trigger] texts@[a])@ == name_text(entries@[a].0@),
            forall|a: int, b: int|
                0 <= a < b < j ==> name_text((#[trigger] entries@[a]).0@) != name_text(
                    (#[trigger] entries@[b]).0@,
                ),
        decreases entries.len() - j,
    {
        let mut i: usize = 0;
        while i < j
            invariant
                i <= j < entries.len(),
                texts@.len() == entries.len(),
                forall|a: int|
                    0 <= a < entries.len() ==> (#[trigger] texts@[a])@ == name_text(
                        entries@[a].0@,
                    ),
                forall|a: int|
                    0 <= a < i ==> name_text((#[trigger] entries@[a]).0@) != name_text(
                        entries@[j as int].0@,
                    ),
            decreases j - i,
        {
            if same_text(texts[i].as_str(), texts[j].as_str()) {
                assert(texts@[i as int]@ == name_text(entries@[i as int].0@));
                assert(texts@[j as int]@ == name_text(entries@[j as int].0@));
                assert(name_text(entries@[i as int].0@) == name_text(entries@[j as int].0@));
                return false;
            }
            assert(texts@[i as int]@ == name_text(entries@[i as int].0@));
            assert(texts@[j as int]@ == name_text(entries@[j as int].0@));
            i = i + 1;
        }
        j = j + 1;
    }
    true
}

fn list_has_unique_names(list: &Option<Vec<(PkgName, ResolvedDependencySpec)>>) -> (unique: bool)
    ensures
        unique == names_are_unique(resolved_entries(*list)),
{
    match list {
        Some(entries) => has_unique_names(entries),
        None => true,
    }
}

impl ProjectSnapshot {
    /// Whether each group names every package once.
    pub open spec fn well_formed(&self) -> bool {
        &&& names_are_unique(resolved_entries(self.dependencies))
        &&& names_are_unique(resolved_entries(self.optional_dependencies))
        &&& names_are_unique(resolved_entries(self.dev_dependencies))
    }

    /// Tells whether the project is well formed.
    pub fn is_well_formed(&self) -> (well_formed: bool)
        ensures
            well_formed == self.well_formed(),
    {
        list_has_unique_names(&self.dependencies) && list_has_unique_names(
            &self.optional_dependencies,
        ) && list_has_unique_names(&self.dev_dependencies)
    }

    /// The list that the lockfile has for one group. It has none for the
    /// peer group.
    pub open spec fn spec_list(&self, group: DependencyGroup) -> Option<
        Vec<(PkgName, ResolvedDependencySpec)>,
    > {
        match group {
            DependencyGroup::Prod => self.dependencies,
            DependencyGroup::Optional => self.optional_dependencies,
            DependencyGroup::Dev => self.dev_dependencies,
            DependencyGroup::Peer => None,
        }
    }

    /// The dependencies of one group.
    pub open spec fn spec_group(&self, group: DependencyGroup) -> Seq<
        (PkgName, ResolvedDependencySpec),
    > {
        resolved_entries(self.spec_list(group))
    }

    /// The dependencies of the groups `groups`: those of the first group,
    /// then those of the second, and so on.
    pub open spec fn spec_by_groups(&self, groups: Seq<DependencyGroup>) -> Seq<
        (PkgName, ResolvedDependencySpec),
    >
        decreases groups.len(),
    {
        if groups.len() == 0 {
            Seq::empty()
        } else {
            self.spec_by_groups(groups.drop_last()) + self.spec_group(groups.last())
        }
    }

    /// The list of one group, if the lockfile has it.
    pub fn get_map_by_group(&self, group: DependencyGroup) -> (list: Option<
        &Vec<(PkgName, ResolvedDependencySpec)>,
    >)
        ensures
            match list {
                Some(entries) => self.spec_list(group) == Some(*entries),
                None => self.spec_list(group) is None,
            },
    {
        match group {
            DependencyGroup::Prod => self.dependencies.as_ref(),
            DependencyGroup::Optional => self.optional_dependencies.as_ref(),
            DependencyGroup::Dev => self.dev_dependencies.as_ref(),
            DependencyGroup::Peer => None,
        }
    }

    /// The dependencies of the groups `groups`, group after group, each
    /// with its name.
    pub fn dependencies_by_groups(&self, groups: &Vec<DependencyGroup>) -> (all: Vec<
        (&PkgName, &ResolvedDependencySpec),
    >)
        ensures
            all@.len() == self.spec_by_groups(groups@).len(),
            forall|i: int|
                0 <= i < all@.len() ==> *(#[trigger] all@[i]).0 == self.spec_by_groups(groups@)[i].0
                    && *all@[i].1 == self.spec_by_groups(groups@)[i].1,
    {
        let mut all: Vec<(&PkgName, &ResolvedDependencySpec)> = Vec::new();
        let mut g: usize = 0;
        assert(groups@.take(0) =~= Seq::<DependencyGroup>::empty());
        while g < groups.len()
            invariant
                g <= groups.len(),
                all@.len() == self.spec_by_groups(groups@.take(g as int)).len(),
                forall|i: int|
                    0 <= i < all@.len() ==> *(#[trigger] all@[i]).0 == self.spec_by_groups(
                        groups@.take(g as int),
                    )[i].0 && *all@[i].1 == self.spec_by_groups(groups@.take(g as int))[i].1,
            decreases groups.len() - g,
        {
            let ghost done = self.spec_by_groups(groups@.take(g as int));
            let ghost group = self.spec_group(groups@[g as int]);
            proof {
                assert(groups@.take(g + 1).drop_last() =~= groups@.take(g as int));
                assert(groups@.take(g + 1).last() == groups@[g as int]);
                assert(self.spec_by_groups(groups@.take(g + 1)) == done + group);
            }
            match self.get_map_by_group(groups[g]) {
                Some(entries) => {
                    let mut i: usize = 0;
                    while i < entries.len()
                        invariant
                            i <= entries.len(),
                            entries@ == group,
                            all@.len() == done.len() + i,
                            forall|k: int|
                                0 <= k < all@.len() ==> *(#[trigger] all@[k]).0 == (done + group)[k].0
                                    && *all@[k].1 == (done + group)[k].1,
                        decreases entries.len() - i,
                    {
                        all.push((&entries[i].0, &entries[i].1));
                        i = i + 1;
                    }
                },
                None => {},
            }
            g = g + 1;
        }
        assert(groups@.take(groups.len() as int) =~= groups@);
        all
    }
}

} // verus!
