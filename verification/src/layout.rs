//! Planning the links of an installation.
//!
//! Nothing here touches the filesystem. Each function computes the links to
//! make, as plain values; the caller makes them, in any order or all at
//! once, and hands the outcomes back to be judged.

use crate::registry::keys_are_unique;
use crate::snapshot::{
    names_are_unique, DependencyGroup, Npmrc, PackageImportMethod, PackageSnapshotDependency,
    ProjectSnapshot, ResolvedDependencySpec, RootProjectSnapshot,
};
use crate::store_name::{
    name_text, store_name_of, virtual_store_name, PkgName, PkgNameVerPeerView, PkgNameView,
};
use crate::text::copy_text;
use vstd::prelude::*;

verus! {

/// A path given as a directory and the components to adjoin to it, one
/// after the other.
#[derive(Clone, Debug, PartialEq, Eq)]
pub struct JoinedPath {
    pub base: String,
    pub components: Vec<String>,
}

/// The mathematical value of a [`JoinedPath`].
pub struct JoinedPathView {
    pub base: Seq<char>,
    pub components: Seq<Seq<char>>,
}

impl View for JoinedPath {
    type V = JoinedPathView;

    open spec fn view(&self) -> JoinedPathView {
        JoinedPathView {
            base: self.base@,
            components: self.components@.map_values(|c: String| c@),
        }
    }
}

/// A link to make from a file of the store into the directory of a package.
#[derive(Clone, Debug, PartialEq, Eq)]
pub struct FileLink {
    /// The file in the store.
    pub source: String,
    /// Where the link goes.
    pub target: JoinedPath,
}

/// The mathematical value of a [`FileLink`].
pub struct FileLinkView {
    pub source: Seq<char>,
    pub target: JoinedPathView,
}

impl View for FileLink {
    type V = FileLinkView;

    open spec fn view(&self) -> FileLinkView {
        FileLinkView { source: self.source@, target: self.target@ }
    }
}

/// A symbolic link to make to the directory of a package.
#[derive(Clone, Debug, PartialEq, Eq)]
pub struct PackageSymlink {
    /// The directory that the link points to.
    pub symlink_target: JoinedPath,
    /// Where the link goes.
    pub symlink_path: JoinedPath,
}

/// The mathematical value of a [`PackageSymlink`].
pub struct PackageSymlinkView {
    pub symlink_target: JoinedPathView,
    pub symlink_path: JoinedPathView,
}

impl View for PackageSymlink {
    type V = PackageSymlinkView;

    open spec fn view(&self) -> PackageSymlinkView {
        PackageSymlinkView {
            symlink_target: self.symlink_target@,
            symlink_path: self.symlink_path@,
        }
    }
}

/// Why a file could not be linked.
#[derive(Clone, Debug, PartialEq, Eq)]
pub enum LinkFileError {
    /// The directory for the link could not be made.
    CreateDir { dirname: String, error: String },
    /// The link itself could not be made.
    CreateLink { from: String, to: String, error: String },
}

/// Why the files of a package could not be brought into its directory.
#[derive(Clone, Debug, PartialEq, Eq)]
pub enum CreateCasFilesError {
    /// A file could not be linked.
    LinkFile(LinkFileError),
    /// The work was given up before every link had been tried; the cause
    /// as the runtime reported it.
    Interrupted(String),
}

/// Why a symbolic link could not be made: where it was to go, and the
/// cause.
#[derive(Clone, Debug, PartialEq, Eq)]
pub struct SymlinkFailure {
    pub path: String,
    pub cause: String,
}

/// What can go wrong when linking packages.
#[derive(Clone, Debug, PartialEq, Eq)]
pub enum SymlinkError {
    /// The lockfile describes a workspace of several projects.
    UnsupportedWorkspace,
    /// Some symbolic links could not be made: the failure of each of them,
    /// in the order of the plan.
    SymlinkCreationFailed(Vec<SymlinkFailure>),
}

/// The link that brings the file `source` of the store into the directory
/// `dir_path` under the name `entry`.
pub open spec fn file_link(dir_path: Seq<char>, entry: Seq<char>, source: Seq<char>) -> FileLinkView {
    FileLinkView {
        source,
        target: JoinedPathView { base: dir_path, components: seq![entry] },
    }
}

/// The links that fill the directory `dir_path` with the files `cas_paths`,
/// one for each file, in their order.
pub open spec fn file_links(dir_path: Seq<char>, cas_paths: Seq<(String, String)>) -> Seq<
    FileLinkView,
> {
    Seq::new(cas_paths.len(), |i: int| file_link(dir_path, cas_paths[i].0@, cas_paths[i].1@))
}

/// The links that `create_cas_files` plans: none if the directory exists,
/// else one for each file.
pub open spec fn cas_plan(dir_exists: bool, dir_path: Seq<char>, cas_paths: Seq<(String, String)>) -> Seq<
    FileLinkView,
> {
    if dir_exists {
        Seq::empty()
    } else {
        file_links(dir_path, cas_paths)
    }
}

/// The views of the links of a plan.
pub open spec fn file_link_views(plan: Seq<FileLink>) -> Seq<FileLinkView> {
    plan.map_values(|link: FileLink| link@)
}

/// The views of the symbolic links of a plan.
pub open spec fn symlink_views(plan: Seq<PackageSymlink>) -> Seq<PackageSymlinkView> {
    plan.map_values(|link: PackageSymlink| link@)
}

/// The symbolic link that makes the package `name`, installed as `unit`,
/// visible in the directory `modules_dir`: it goes to `modules_dir/name`
/// and points to `store_dir/<directory of the unit>/node_modules/name`.
pub open spec fn package_symlink(
    name: PkgNameView,
    unit: PkgNameVerPeerView,
    store_dir: Seq<char>,
    modules_dir: Seq<char>,
) -> PackageSymlinkView {
    PackageSymlinkView {
        symlink_target: JoinedPathView {
            base: store_dir,
            components: seq![virtual_store_name(unit), "node_modules"@, name_text(name)],
        },
        symlink_path: JoinedPathView { base: modules_dir, components: seq![name_text(name)] },
    }
}

/// The installed unit that a dependency recorded under `name` stands for.
pub open spec fn unit_of(name: PkgNameView, dependency: PackageSnapshotDependency) -> PkgNameVerPeerView {
    match dependency {
        PackageSnapshotDependency::PkgVerPeer(ver_peer) => PkgNameVerPeerView {
            name,
            suffix: ver_peer@,
        },
        PackageSnapshotDependency::DependencyPath(path) => path.package_specifier@,
    }
}

/// The symbolic links for the dependencies of an installed package, one
/// for each dependency, in their order.
pub open spec fn layout_symlinks(
    dependencies: Seq<(PkgName, PackageSnapshotDependency)>,
    virtual_root: Seq<char>,
    virtual_node_modules_dir: Seq<char>,
) -> Seq<PackageSymlinkView> {
    Seq::new(
        dependencies.len(),
        |i: int|
            package_symlink(
                dependencies[i].0@,
                unit_of(dependencies[i].0@, dependencies[i].1),
                virtual_root,
                virtual_node_modules_dir,
            ),
    )
}

/// The symbolic links for the direct dependencies of a project, one for
/// each dependency, in their order.
pub open spec fn direct_symlinks(
    dependencies: Seq<(PkgName, ResolvedDependencySpec)>,
    virtual_store_dir: Seq<char>,
    modules_dir: Seq<char>,
) -> Seq<PackageSymlinkView> {
    Seq::new(
        dependencies.len(),
        |i: int|
            package_symlink(
                dependencies[i].0@,
                PkgNameVerPeerView { name: dependencies[i].0@, suffix: dependencies[i].1.version@ },
                virtual_store_dir,
                modules_dir,
            ),
    )
}

/// The first failure among `outcomes`, if there is one.
pub open spec fn first_failure<E>(outcomes: Seq<Result<(), E>>) -> Option<E>
    decreases outcomes.len(),
{
    if outcomes.len() == 0 {
        None
    } else if let Err(e) = outcomes[0] {
        Some(e)
    } else {
        first_failure(outcomes.skip(1))
    }
}

/// The failures among `outcomes`, in their order.
pub open spec fn failures<E>(outcomes: Seq<Result<(), E>>) -> Seq<E>
    decreases outcomes.len(),
{
    if outcomes.len() == 0 {
        Seq::empty()
    } else if let Err(e) = outcomes.last() {
        failures(outcomes.drop_last()).push(e)
    } else {
        failures(outcomes.drop_last())
    }
}

fn take_first_failure<E>(outcomes: Vec<Result<(), E>>) -> (failure: Option<E>)
    ensures
        failure == first_failure(outcomes@),
{
    let mut outcomes = outcomes;
    let ghost all = outcomes@;
    let mut rest: Vec<Result<(), E>> = Vec::new();
    let mut found: Option<E> = None;
    // Outcomes are taken from the back, so the failure kept last is the
    // first of the list.
    while outcomes.len() > 0
        invariant
            outcomes@.len() <= all.len(),
            outcomes@ == all.take(outcomes@.len() as int),
            found == first_failure(all.skip(outcomes@.len() as int)),
        decreases outcomes.len(),
    {
        let ghost n = outcomes@.len() as int;
        let last = outcomes.pop();
        proof {
            assert(all.skip(n - 1)[0] == all[n - 1]);
            assert(all.skip(n - 1).skip(1) =~= all.skip(n));
            assert(outcomes@ =~= all.take(n - 1));
        }
        match last {
            Some(Err(e)) => {
                found = Some(e);
            },
            _ => {},
        }
    }
    assert(all.skip(0) =~= all);
    found
}

fn single_component(base: &str, component: String) -> (path: JoinedPath)
    ensures
        path@ == (JoinedPathView { base: base@, components: seq![component@] }),
{
    let mut components: Vec<String> = Vec::new();
    components.push(component);
    let path = JoinedPath { base: copy_text(base), components };
    assert(path@.components =~= seq![component@]);
    path
}

/// Tells whether this library can bring files in by `import_method`. Only
/// the automatic choice is supported.
pub fn is_supported_import_method(import_method: PackageImportMethod) -> (supported: bool)
    ensures
        supported == (import_method is Auto),
{
    match import_method {
        PackageImportMethod::Auto => true,
        _ => false,
    }
}

/// Plans how to fill the directory `dir_path` of a package with its files.
/// `cas_paths` maps the name of each file inside the package to the path
/// of its content in the store; `dir_exists` tells whether the directory
/// is there already.
///
/// A directory that exists is taken to be complete, and nothing is
/// planned. Otherwise one link is planned for each file, from its content
/// in the store to its name under `dir_path`.
pub fn create_cas_files(
    import_method: PackageImportMethod,
    dir_exists: bool,
    dir_path: &str,
    cas_paths: &Vec<(String, String)>,
) -> (plan: Vec<FileLink>)
    requires
        import_method is Auto,
    ensures
        file_link_views(plan@) == cas_plan(dir_exists, dir_path@, cas_paths@),
{
    let mut plan: Vec<FileLink> = Vec::new();
    if dir_exists {
        assert(file_link_views(plan@) =~= cas_plan(dir_exists, dir_path@, cas_paths@));
        return plan;
    }
    let mut i: usize = 0;
    while i < cas_paths.len()
        invariant
            i <= cas_paths.len(),
            plan@.len() == i,
            forall|k: int|
                0 <= k < i ==> (#[trigger] plan@[k])@ == file_link(
                    dir_path@,
                    cas_paths@[k].0@,
                    cas_paths@[k].1@,
                ),
        decreases cas_paths.len() - i,
    {
        let target = single_component(dir_path, cas_paths[i].0.clone());
        plan.push(FileLink { source: cas_paths[i].1.clone(), target });
        i = i + 1;
    }
    assert(file_link_views(plan@) =~= file_links(dir_path@, cas_paths@));
    plan
}

/// Judges the outcomes of the links that `create_cas_files` planned.
/// `joined` holds the outcome of each link in the order of the plan, or,
/// if the work was given up before every link had been tried, the cause.
/// Giving up is reported as such; otherwise the first failure is reported.
/// Links already made stay.
pub fn finish_cas_files(joined: Result<Vec<Result<(), LinkFileError>>, String>) -> (finished: Result<
    (),
    CreateCasFilesError,
>)
    ensures
        match joined {
            Err(cause) => finished == Err::<(), CreateCasFilesError>(
                CreateCasFilesError::Interrupted(cause),
            ),
            Ok(outcomes) => match first_failure(outcomes@) {
                None => finished is Ok,
                Some(e) => finished == Err::<(), CreateCasFilesError>(
                    CreateCasFilesError::LinkFile(e),
                ),
            },
        },
{
    match joined {
        Err(cause) => Err(CreateCasFilesError::Interrupted(cause)),
        Ok(outcomes) => match take_first_failure(outcomes) {
            None => Ok(()),
            Some(e) => Err(CreateCasFilesError::LinkFile(e)),
        },
    }
}

fn make_symlink(name: &PkgName, store_name: String, store_dir: &str, modules_dir: &str) -> (link:
    PackageSymlink)
    ensures
        link@.symlink_target == (JoinedPathView {
            base: store_dir@,
            components: seq![store_name@, "node_modules"@, name_text(name@)],
        }),
        link@.symlink_path == (JoinedPathView {
            base: modules_dir@,
            components: seq![name_text(name@)],
        }),
{
    let mut components: Vec<String> = Vec::new();
    components.push(store_name);
    components.push(copy_text("node_modules"));
    components.push(name.to_text());
    let symlink_target = JoinedPath { base: copy_text(store_dir), components };
    assert(symlink_target@.components =~= seq![
        store_name@,
        "node_modules"@,
        name_text(name@),
    ]);
    let symlink_path = single_component(modules_dir, name.to_text());
    PackageSymlink { symlink_target, symlink_path }
}

/// Plans the symbolic links of the dependencies of an installed package
/// inside its own `node_modules` directory, `virtual_node_modules_dir`:
/// one link for each dependency, named after it, to the dependency's
/// directory under `virtual_root`.
pub fn create_symlink_layout(
    dependencies: &Vec<(PkgName, PackageSnapshotDependency)>,
    virtual_root: &str,
    virtual_node_modules_dir: &str,
) -> (plan: Vec<PackageSymlink>)
    ensures
        symlink_views(plan@) == layout_symlinks(
            dependencies@,
            virtual_root@,
            virtual_node_modules_dir@,
        ),
{
    let mut plan: Vec<PackageSymlink> = Vec::new();
    let mut i: usize = 0;
    while i < dependencies.len()
        invariant
            i <= dependencies.len(),
            plan@.len() == i,
            forall|k: int|
                0 <= k < i ==> (#[trigger] plan@[k])@ == package_symlink(
                    dependencies@[k].0@,
                    unit_of(dependencies@[k].0@, dependencies@[k].1),
                    virtual_root@,
                    virtual_node_modules_dir@,
                ),
        decreases dependencies.len() - i,
    {
        let name = &dependencies[i].0;
        let virtual_store_name = match &dependencies[i].1 {
            PackageSnapshotDependency::PkgVerPeer(ver_peer) => store_name_of(name, ver_peer),
            PackageSnapshotDependency::DependencyPath(dependency_path) => {
                dependency_path.package_specifier.to_virtual_store_name()
            },
        };
        plan.push(make_symlink(name, virtual_store_name, virtual_root, virtual_node_modules_dir));
        i = i + 1;
    }
    assert(symlink_views(plan@) =~= layout_symlinks(
        dependencies@,
        virtual_root@,
        virtual_node_modules_dir@,
    ));
    plan
}

/// Judges the outcomes of the symbolic links of a plan, in the order of
/// the plan. No failure is dropped: if any link could not be made, the
/// failures of all of them are reported, in that order. Links already made
/// stay.
pub fn finish_symlinks(outcomes: Vec<Result<(), SymlinkFailure>>) -> (finished: Result<
    (),
    SymlinkError,
>)
    ensures
        match finished {
            Ok(_) => failures(outcomes@).len() == 0,
            Err(SymlinkError::SymlinkCreationFailed(failed)) => failed@ == failures(outcomes@)
                && failed@.len() > 0,
            Err(_) => false,
        },
{
    let mut failed: Vec<SymlinkFailure> = Vec::new();
    let mut i: usize = 0;
    assert(outcomes@.take(0) =~= Seq::<Result<(), SymlinkFailure>>::empty());
    while i < outcomes.len()
        invariant
            i <= outcomes.len(),
            failed@ == failures(outcomes@.take(i as int)),
        decreases outcomes.len() - i,
    {
        proof {
            assert(outcomes@.take(i + 1).drop_last() =~= outcomes@.take(i as int));
            assert(outcomes@.take(i + 1).last() == outcomes@[i as int]);
        }
        match &outcomes[i] {
            Err(failure) => {
                failed.push(
                    SymlinkFailure { path: failure.path.clone(), cause: failure.cause.clone() },
                );
            },
            Ok(_) => {},
        }
        i = i + 1;
    }
    assert(outcomes@.take(outcomes.len() as int) =~= outcomes@);
    if failed.len() == 0 {
        Ok(())
    } else {
        Err(SymlinkError::SymlinkCreationFailed(failed))
    }
}

/// The first failure is the first of the failures, and there is none
/// exactly when there are no failures.
pub proof fn lemma_first_failure_leads<E>(outcomes: Seq<Result<(), E>>)
    ensures
        match first_failure(outcomes) {
            None => failures(outcomes).len() == 0,
            Some(e) => failures(outcomes).len() > 0 && failures(outcomes)[0] == e,
        },
    decreases outcomes.len(),
{
    if outcomes.len() > 0 {
        let rest = outcomes.skip(1);
        lemma_first_failure_leads(rest);
        lemma_failures_from_front(outcomes);
    }
}

proof fn lemma_failures_from_front<E>(outcomes: Seq<Result<(), E>>)
    requires
        outcomes.len() > 0,
    ensures
        failures(outcomes) == (if let Err(e) = outcomes[0] {
            seq![e] + failures(outcomes.skip(1))
        } else {
            failures(outcomes.skip(1))
        }),
    decreases outcomes.len(),
{
    let rest = outcomes.skip(1);
    if outcomes.len() == 1 {
        assert(outcomes.drop_last().len() == 0);
        assert(rest.len() == 0);
        assert(failures(outcomes.drop_last()) =~= Seq::<E>::empty());
        assert(failures(rest) =~= Seq::<E>::empty());
        assert(outcomes.last() == outcomes[0]);
        if let Err(e) = outcomes[0] {
            assert(failures(outcomes) =~= seq![e] + failures(rest));
        }
    } else {
        let init = outcomes.drop_last();
        lemma_failures_from_front(init);
        assert(init.skip(1) =~= rest.drop_last());
        assert(init[0] == outcomes[0]);
        assert(rest.last() == outcomes.last());
        if let Err(e) = outcomes[0] {
            assert(failures(outcomes) =~= seq![e] + failures(rest));
        } else {
            assert(failures(outcomes) =~= failures(rest));
        }
    }
}

/// The linking of the direct dependencies of a project into its
/// `node_modules` directory: for a dependency `foo` resolved to `x.y.z`,
/// the link `foo` that points to `foo@x.y.z/node_modules/foo` in the
/// virtual store.
#[must_use]
pub struct SymlinkDirectDependencies<'a> {
    pub config: &'a Npmrc,
    pub project_snapshot: &'a RootProjectSnapshot,
    pub dependency_groups: Vec<DependencyGroup>,
}

impl<'a> SymlinkDirectDependencies<'a> {
    /// Plans the links: one for each dependency of the chosen groups, group
    /// after group. A workspace of several projects is refused.
    pub fn run(self) -> (planned: Result<Vec<PackageSymlink>, SymlinkError>)
        ensures
            match planned {
                Ok(plan) => match *self.project_snapshot {
                    RootProjectSnapshot::Single(project) => symlink_views(plan@)
                        == direct_symlinks(
                        project.spec_by_groups(self.dependency_groups@),
                        self.config.virtual_store_dir@,
                        self.config.modules_dir@,
                    ),
                    RootProjectSnapshot::Multi(_) => false,
                },
                Err(SymlinkError::UnsupportedWorkspace) => self.project_snapshot is Multi,
                Err(_) => false,
            },
    {
        let SymlinkDirectDependencies { config, project_snapshot, dependency_groups } = self;
        let project: &ProjectSnapshot = match project_snapshot {
            RootProjectSnapshot::Single(project) => project,
            RootProjectSnapshot::Multi(_) => {
                return Err(SymlinkError::UnsupportedWorkspace);
            },
        };
        let dependencies = project.dependencies_by_groups(&dependency_groups);
        let ghost chosen = project.spec_by_groups(dependency_groups@);
        let mut plan: Vec<PackageSymlink> = Vec::new();
        let mut i: usize = 0;
        while i < dependencies.len()
            invariant
                i <= dependencies.len(),
                plan@.len() == i,
                dependencies@.len() == chosen.len(),
                forall|k: int|
                    0 <= k < dependencies@.len() ==> *(#[trigger] dependencies@[k]).0 == chosen[k].0
                        && *dependencies@[k].1 == chosen[k].1,
                forall|k: int|
                    0 <= k < i ==> (#[trigger] plan@[k])@ == package_symlink(
                        chosen[k].0@,
                        PkgNameVerPeerView { name: chosen[k].0@, suffix: chosen[k].1.version@ },
                        config.virtual_store_dir@,
                        config.modules_dir@,
                    ),
            decreases dependencies.len() - i,
        {
            let name = dependencies[i].0;
            let spec = dependencies[i].1;
            let virtual_store_name = store_name_of(name, &spec.version);
            plan.push(
                make_symlink(
                    name,
                    virtual_store_name,
                    config.virtual_store_dir.as_str(),
                    config.modules_dir.as_str(),
                ),
            );
            i = i + 1;
        }
        assert(symlink_views(plan@) =~= direct_symlinks(
            chosen,
            config.virtual_store_dir@,
            config.modules_dir@,
        ));
        Ok(plan)
    }
}

/// What making the links `links` one after the other leaves behind: each
/// path that a link went to, with what the last link made there points to.
pub open spec fn links_made<T>(links: Seq<(JoinedPathView, T)>) -> Map<JoinedPathView, T>
    decreases links.len(),
{
    if links.len() == 0 {
        Map::empty()
    } else {
        links_made(links.drop_last()).insert(links.last().0, links.last().1)
    }
}

/// What carrying out a plan of file links leaves behind: each path with
/// the file of the store that it is a link to.
pub open spec fn file_links_made(plan: Seq<FileLinkView>) -> Map<JoinedPathView, Seq<char>> {
    links_made(plan.map_values(|link: FileLinkView| (link.target, link.source)))
}

/// What carrying out a plan of symbolic links leaves behind: each path
/// with the directory that it points to.
pub open spec fn symlinks_made(plan: Seq<PackageSymlinkView>) -> Map<
    JoinedPathView,
    JoinedPathView,
> {
    links_made(plan.map_values(|link: PackageSymlinkView| (link.symlink_path, link.symlink_target)))
}

/// Links that go to different paths leave one entry each: as many entries
/// as links, each pointing where its link points.
pub proof fn lemma_links_made<T>(links: Seq<(JoinedPathView, T)>)
    requires
        forall|i: int, j: int|
            0 <= i < j < links.len() ==> (#[trigger] links[i]).0 != (#[trigger] links[j]).0,
    ensures
        links_made(links).dom().finite(),
        links_made(links).dom().len() == links.len(),
        forall|i: int|
            0 <= i < links.len() ==> links_made(links).contains_key((#[trigger] links[i]).0)
                && links_made(links)[links[i].0] == links[i].1,
        forall|path: JoinedPathView| #[trigger]
            links_made(links).contains_key(path) ==> exists|i: int|
                0 <= i < links.len() && (#[trigger] links[i]).0 == path,
    decreases links.len(),
{
    if links.len() > 0 {
        let before = links.drop_last();
        let last = links.last();
        lemma_links_made(before);
        assert(!links_made(before).contains_key(last.0)) by {
            if links_made(before).contains_key(last.0) {
                let i = choose|i: int| 0 <= i < before.len() && (#[trigger] before[i]).0 == last.0;
                assert(links[i] == before[i]);
                assert(links[links.len() - 1] == last);
            }
        }
        assert forall|i: int| 0 <= i < links.len() implies links_made(links).contains_key(
            (#[trigger] links[i]).0,
        ) && links_made(links)[links[i].0] == links[i].1 by {
            if i < before.len() {
                assert(links[i] == before[i]);
            }
        }
        assert forall|path: JoinedPathView| #[trigger]
            links_made(links).contains_key(path) implies exists|i: int|
            0 <= i < links.len() && (#[trigger] links[i]).0 == path by {
            if path == last.0 {
                assert(links[links.len() - 1].0 == path);
            } else {
                let i = choose|i: int| 0 <= i < before.len() && (#[trigger] before[i]).0 == path;
                assert(links[i] == before[i]);
            }
        }
    }
}

/// Importing a second time writes nothing. A first import into a missing
/// directory plans one link for each file; once any of them is made the
/// directory exists, and the plan of the second import is empty. With no
/// file there is nothing to plan either time. An empty plan ends well.
pub proof fn lemma_second_import_plans_nothing(dir_path: Seq<char>, cas_paths: Seq<(String, String)>)
    ensures
        ({
            let first = cas_plan(false, dir_path, cas_paths);
            let exists_then = first.len() > 0;
            cas_plan(exists_then, dir_path, cas_paths).len() == 0
        }),
        cas_plan(true, dir_path, cas_paths).len() == 0,
        first_failure(Seq::<Result<(), LinkFileError>>::empty()) is None,
{
}

/// An import into a missing directory, when every link is made, leaves
/// exactly one entry for each file, under the file's name in the directory
/// and linked to the file's content in the store.
pub proof fn lemma_import_links_every_file(dir_path: Seq<char>, cas_paths: Seq<(String, String)>)
    requires
        keys_are_unique(cas_paths),
    ensures
        ({
            let made = file_links_made(cas_plan(false, dir_path, cas_paths));
            &&& made.dom().finite()
            &&& made.dom().len() == cas_paths.len()
            &&& forall|i: int|
                0 <= i < cas_paths.len() ==> {
                    let path = JoinedPathView {
                        base: dir_path,
                        components: seq![(#[trigger] cas_paths[i]).0@],
                    };
                    made.contains_key(path) && made[path] == cas_paths[i].1@
                }
        }),
{
    let plan = cas_plan(false, dir_path, cas_paths);
    let links = plan.map_values(|link: FileLinkView| (link.target, link.source));
    assert forall|i: int, j: int| 0 <= i < j < links.len() implies (#[trigger] links[i]).0 != (
    #[trigger] links[j]).0 by {
        assert(links[i].0.components[0] == cas_paths[i].0@);
        assert(links[j].0.components[0] == cas_paths[j].0@);
    }
    lemma_links_made(links);
    let made = file_links_made(plan);
    assert forall|i: int| 0 <= i < cas_paths.len() implies {
        let path = JoinedPathView { base: dir_path, components: seq![(#[trigger] cas_paths[i]).0@] };
        made.contains_key(path) && made[path] == cas_paths[i].1@
    } by {
        assert(links[i].0 == JoinedPathView { base: dir_path, components: seq![cas_paths[i].0@] });
        assert(links[i].1 == cas_paths[i].1@);
    }
}

/// Building the layout of a package whose dependencies have different
/// names, when every link is made, leaves exactly one symbolic link for
/// each dependency: under the dependency's name in the package's
/// `node_modules` directory, and pointing to
/// `virtual_root/<directory of the dependency>/node_modules/<name>`.
pub proof fn lemma_layout_links_every_dependency(
    dependencies: Seq<(PkgName, PackageSnapshotDependency)>,
    virtual_root: Seq<char>,
    virtual_node_modules_dir: Seq<char>,
)
    requires
        names_are_unique(dependencies),
    ensures
        ({
            let made = symlinks_made(
                layout_symlinks(dependencies, virtual_root, virtual_node_modules_dir),
            );
            &&& made.dom().finite()
            &&& made.dom().len() == dependencies.len()
            &&& forall|i: int|
                0 <= i < dependencies.len() ==> {
                    let name = (#[trigger] dependencies[i]).0@;
                    let link = package_symlink(
                        name,
                        unit_of(name, dependencies[i].1),
                        virtual_root,
                        virtual_node_modules_dir,
                    );
                    made.contains_key(link.symlink_path) && made[link.symlink_path]
                        == link.symlink_target
                }
        }),
{
    let plan = layout_symlinks(dependencies, virtual_root, virtual_node_modules_dir);
    let links = plan.map_values(|link: PackageSymlinkView| (link.symlink_path, link.symlink_target));
    assert forall|i: int, j: int| 0 <= i < j < links.len() implies (#[trigger] links[i]).0 != (
    #[trigger] links[j]).0 by {
        assert(links[i].0.components[0] == name_text(dependencies[i].0@));
        assert(links[j].0.components[0] == name_text(dependencies[j].0@));
    }
    lemma_links_made(links);
    let made = symlinks_made(plan);
    assert forall|i: int| 0 <= i < dependencies.len() implies {
        let name = (#[trigger] dependencies[i]).0@;
        let link = package_symlink(
            name,
            unit_of(name, dependencies[i].1),
            virtual_root,
            virtual_node_modules_dir,
        );
        made.contains_key(link.symlink_path) && made[link.symlink_path] == link.symlink_target
    } by {
        assert(links[i].0 == plan[i].symlink_path);
        assert(links[i].1 == plan[i].symlink_target);
    }
}

/// Linking the direct dependencies of a project, when they have different
/// names and every link is made, leaves exactly one symbolic link for each
/// of them in the project's `node_modules` directory.
pub proof fn lemma_direct_links_every_dependency(
    dependencies: Seq<(PkgName, ResolvedDependencySpec)>,
    virtual_store_dir: Seq<char>,
    modules_dir: Seq<char>,
)
    requires
        names_are_unique(dependencies),
    ensures
        ({
            let made = symlinks_made(direct_symlinks(dependencies, virtual_store_dir, modules_dir));
            &&& made.dom().finite()
            &&& made.dom().len() == dependencies.len()
            &&& forall|i: int|
                0 <= i < dependencies.len() ==> {
                    let name = (#[trigger] dependencies[i]).0@;
                    let link = package_symlink(
                        name,
                        PkgNameVerPeerView { name, suffix: dependencies[i].1.version@ },
                        virtual_store_dir,
                        modules_dir,
                    );
                    made.contains_key(link.symlink_path) && made[link.symlink_path]
                        == link.symlink_target
                }
        }),
{
    let plan = direct_symlinks(dependencies, virtual_store_dir, modules_dir);
    let links = plan.map_values(|link: PackageSymlinkView| (link.symlink_path, link.symlink_target));
    assert forall|i: int, j: int| 0 <= i < j < links.len() implies (#[trigger] links[i]).0 != (
    #[trigger] links[j]).0 by {
        assert(links[i].0.components[0] == name_text(dependencies[i].0@));
        assert(links[j].0.components[0] == name_text(dependencies[j].0@));
    }
    lemma_links_made(links);
    let made = symlinks_made(plan);
    assert forall|i: int| 0 <= i < dependencies.len() implies {
        let name = (#[trigger] dependencies[i]).0@;
        let link = package_symlink(
            name,
            PkgNameVerPeerView { name, suffix: dependencies[i].1.version@ },
            virtual_store_dir,
            modules_dir,
        );
        made.contains_key(link.symlink_path) && made[link.symlink_path] == link.symlink_target
    } by {
        assert(links[i].0 == plan[i].symlink_path);
        assert(links[i].1 == plan[i].symlink_target);
    }
}

} // verus!
