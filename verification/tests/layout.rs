use pacquet_core::layout::{
    create_cas_files, create_symlink_layout, finish_cas_files, finish_symlinks,
    is_supported_import_method, CreateCasFilesError, FileLink, JoinedPath, LinkFileError,
    PackageSymlink, SymlinkDirectDependencies, SymlinkError, SymlinkFailure,
};
use pacquet_core::semver::Version;
use pacquet_core::snapshot::{
    has_unique_names, DependencyGroup, DependencyPath, MultiProjectSnapshot, Npmrc,
    PackageImportMethod,
    PackageSnapshotDependency, ProjectSnapshot, ResolvedDependencySpec, RootProjectSnapshot,
};
use pacquet_core::store_name::{PkgName, PkgNameVerPeer, PkgVerPeer};

fn bare(text: &str) -> PkgName {
    PkgName { scope: None, bare: text.to_string() }
}

fn scoped(scope: &str, text: &str) -> PkgName {
    PkgName { scope: Some(scope.to_string()), bare: text.to_string() }
}

fn resolved(major: u64, minor: u64, patch: u64, peer: &str) -> PkgVerPeer {
    PkgVerPeer {
        version: Version { major, minor, patch, build: vec![], pre_release: vec![] },
        peer: peer.to_string(),
    }
}

fn direct(range: &str, version: PkgVerPeer) -> ResolvedDependencySpec {
    ResolvedDependencySpec { specifier: range.to_string(), version }
}

fn path(base: &str, components: &[&str]) -> JoinedPath {
    JoinedPath {
        base: base.to_string(),
        components: components.iter().map(|c| c.to_string()).collect(),
    }
}

fn symlink(store: &str, store_name: &str, modules: &str, name: &str) -> PackageSymlink {
    PackageSymlink {
        symlink_target: path(store, &[store_name, "node_modules", name]),
        symlink_path: path(modules, &[name]),
    }
}

fn config() -> Npmrc {
    Npmrc {
        virtual_store_dir: "node_modules/.pnpm".to_string(),
        modules_dir: "node_modules".to_string(),
    }
}

fn link_failure(to: &str) -> LinkFileError {
    LinkFileError::CreateLink {
        from: "store/aa".to_string(),
        to: to.to_string(),
        error: "permission denied".to_string(),
    }
}

#[test]
fn only_the_automatic_import_is_supported() {
    assert!(is_supported_import_method(PackageImportMethod::Auto));
    assert!(!is_supported_import_method(PackageImportMethod::Hardlink));
    assert!(!is_supported_import_method(PackageImportMethod::Copy));
    assert!(!is_supported_import_method(PackageImportMethod::Clone));
    assert!(!is_supported_import_method(PackageImportMethod::CloneOrCopy));
}

#[test]
fn import_links_every_file_into_a_missing_directory() {
    let cas_paths = vec![
        ("package.json".to_string(), "/store/files/aa/1".to_string()),
        ("lib/index.js".to_string(), "/store/files/bb/2".to_string()),
        ("bin/run-exec".to_string(), "/store/files/cc/3-exec".to_string()),
    ];
    let plan = create_cas_files(
        PackageImportMethod::Auto,
        false,
        "/project/node_modules/.pnpm/is-odd@3.0.1/node_modules/is-odd",
        &cas_paths,
    );
    let dir = "/project/node_modules/.pnpm/is-odd@3.0.1/node_modules/is-odd";
    assert_eq!(
        plan,
        vec![
            FileLink {
                source: "/store/files/aa/1".to_string(),
                target: path(dir, &["package.json"]),
            },
            FileLink {
                source: "/store/files/bb/2".to_string(),
                target: path(dir, &["lib/index.js"]),
            },
            FileLink {
                source: "/store/files/cc/3-exec".to_string(),
                target: path(dir, &["bin/run-exec"]),
            },
        ]
    );
}

#[test]
fn import_into_an_existing_directory_plans_nothing() {
    let cas_paths = vec![("package.json".to_string(), "/store/files/aa/1".to_string())];
    let first = create_cas_files(PackageImportMethod::Auto, false, "/dir", &cas_paths);
    assert_eq!(first.len(), 1);
    let second = create_cas_files(PackageImportMethod::Auto, true, "/dir", &cas_paths);
    assert!(second.is_empty());
    assert_eq!(finish_cas_files(Ok(vec![])), Ok(()));
}

#[test]
fn import_of_no_file_plans_nothing() {
    let plan = create_cas_files(PackageImportMethod::Auto, false, "/dir", &vec![]);
    assert!(plan.is_empty());
}

#[test]
fn import_ends_well_when_every_link_was_made() {
    assert_eq!(finish_cas_files(Ok(vec![Ok(()), Ok(()), Ok(())])), Ok(()));
}

#[test]
fn import_that_was_given_up_is_reported() {
    assert_eq!(
        finish_cas_files(Err("task 7 panicked".to_string())),
        Err(CreateCasFilesError::Interrupted("task 7 panicked".to_string()))
    );
}

#[test]
fn import_reports_the_first_failure() {
    let outcomes = vec![
        Ok(()),
        Err(link_failure("/dir/b")),
        Ok(()),
        Err(LinkFileError::CreateDir {
            dirname: "/dir/lib".to_string(),
            error: "read-only".to_string(),
        }),
    ];
    assert_eq!(
        finish_cas_files(Ok(outcomes)),
        Err(CreateCasFilesError::LinkFile(link_failure("/dir/b")))
    );
    let dir_first = vec![
        Err(LinkFileError::CreateDir {
            dirname: "/dir/lib".to_string(),
            error: "read-only".to_string(),
        }),
        Err(link_failure("/dir/b")),
    ];
    assert_eq!(
        finish_cas_files(Ok(dir_first)),
        Err(CreateCasFilesError::LinkFile(LinkFileError::CreateDir {
            dirname: "/dir/lib".to_string(),
            error: "read-only".to_string(),
        }))
    );
}

#[test]
fn layout_links_each_dependency_to_its_virtual_directory() {
    let dependencies = vec![
        (bare("is-number"), PackageSnapshotDependency::PkgVerPeer(resolved(6, 0, 0, ""))),
        (
            scoped("types", "node"),
            PackageSnapshotDependency::PkgVerPeer(resolved(18, 7, 19, "(a@1.0.0)")),
        ),
        (
            bare("alias"),
            PackageSnapshotDependency::DependencyPath(DependencyPath {
                custom_registry: None,
                package_specifier: PkgNameVerPeer::new(
                    scoped("babel", "core"),
                    resolved(7, 12, 9, ""),
                ),
            }),
        ),
    ];
    let plan = create_symlink_layout(
        &dependencies,
        "/p/node_modules/.pnpm",
        "/p/node_modules/.pnpm/is-odd@3.0.1/node_modules",
    );
    let modules = "/p/node_modules/.pnpm/is-odd@3.0.1/node_modules";
    assert_eq!(
        plan,
        vec![
            symlink("/p/node_modules/.pnpm", "is-number@6.0.0", modules, "is-number"),
            symlink("/p/node_modules/.pnpm", "@types+node@18.7.19_a@1.0.0", modules, "@types/node"),
            symlink("/p/node_modules/.pnpm", "@babel+core@7.12.9", modules, "alias"),
        ]
    );
}

#[test]
fn layout_of_no_dependency_is_empty() {
    assert!(create_symlink_layout(&vec![], "/store", "/modules").is_empty());
}

#[test]
fn symlinks_end_well_or_report_every_failure() {
    assert_eq!(finish_symlinks(vec![]), Ok(()));
    assert_eq!(finish_symlinks(vec![Ok(()), Ok(())]), Ok(()));
    let failure = |path: &str, cause: &str| SymlinkFailure {
        path: path.to_string(),
        cause: cause.to_string(),
    };
    assert_eq!(
        finish_symlinks(vec![
            Ok(()),
            Err(failure("node_modules/b", "file exists")),
            Ok(()),
            Err(failure("node_modules/c", "permission denied")),
            Err(failure("node_modules/a", "read-only")),
        ]),
        Err(SymlinkError::SymlinkCreationFailed(vec![
            failure("node_modules/b", "file exists"),
            failure("node_modules/c", "permission denied"),
            failure("node_modules/a", "read-only"),
        ]))
    );
    assert_eq!(
        finish_symlinks(vec![Err(failure("node_modules/z", "no space"))]),
        Err(SymlinkError::SymlinkCreationFailed(vec![failure("node_modules/z", "no space")]))
    );
}

#[test]
fn names_of_a_project_are_checked_for_repeats() {
    let entry = |name: PkgName| (name, direct("1", resolved(1, 0, 0, "")));
    let mut project = ProjectSnapshot {
        dependencies: Some(vec![entry(bare("a")), entry(scoped("a", "a")), entry(bare("b"))]),
        optional_dependencies: None,
        dev_dependencies: Some(vec![entry(bare("a"))]),
    };
    assert!(project.is_well_formed());
    project.dev_dependencies = Some(vec![entry(bare("a")), entry(bare("c")), entry(bare("a"))]);
    assert!(!project.is_well_formed());
    project.dev_dependencies = None;
    project.optional_dependencies = Some(vec![
        entry(scoped("a", "b")),
        entry(PkgName { scope: None, bare: "@a/b".to_string() }),
    ]);
    assert!(!project.is_well_formed());
    assert!(has_unique_names::<u8>(&vec![]));
    assert!(has_unique_names(&vec![(bare("a"), 1), (bare("b"), 1)]));
    assert!(!has_unique_names(&vec![(bare("a"), 1), (bare("b"), 1), (bare("b"), 2)]));
}

#[test]
fn direct_dependencies_of_a_workspace_are_refused() {
    let snapshot = RootProjectSnapshot::Multi(MultiProjectSnapshot { importers: vec![] });
    let config = config();
    let planned = SymlinkDirectDependencies {
        config: &config,
        project_snapshot: &snapshot,
        dependency_groups: vec![DependencyGroup::Prod],
    }
    .run();
    assert_eq!(planned, Err(SymlinkError::UnsupportedWorkspace));
}

#[test]
fn direct_dependencies_are_linked_group_after_group() {
    let snapshot = RootProjectSnapshot::Single(ProjectSnapshot {
        dependencies: Some(vec![
            (bare("is-odd"), direct("3.0.1", resolved(3, 0, 1, ""))),
            (scoped("types", "node"), direct("^18", resolved(18, 7, 19, ""))),
        ]),
        optional_dependencies: Some(vec![(bare("fsevents"), direct("*", resolved(2, 3, 3, "")))]),
        dev_dependencies: Some(vec![(
            bare("fast-decode-uri-component"),
            direct("1.0.1", resolved(1, 0, 1, "")),
        )]),
    });
    let config = config();
    let run = |groups: Vec<DependencyGroup>| {
        SymlinkDirectDependencies {
            config: &config,
            project_snapshot: &snapshot,
            dependency_groups: groups,
        }
        .run()
        .expect("a single project")
    };
    let link = |store_name: &str, name: &str| {
        symlink("node_modules/.pnpm", store_name, "node_modules", name)
    };
    assert_eq!(
        run(vec![DependencyGroup::Dev, DependencyGroup::Prod]),
        vec![
            link("fast-decode-uri-component@1.0.1", "fast-decode-uri-component"),
            link("is-odd@3.0.1", "is-odd"),
            link("@types+node@18.7.19", "@types/node"),
        ]
    );
    assert_eq!(run(vec![DependencyGroup::Optional]), vec![link("fsevents@2.3.3", "fsevents")]);
    assert_eq!(run(vec![DependencyGroup::Peer]), vec![]);
    assert_eq!(run(vec![]), vec![]);
}

#[test]
fn groups_of_a_project_are_read_in_order() {
    let project = ProjectSnapshot {
        dependencies: Some(vec![(bare("a"), direct("1", resolved(1, 0, 0, "")))]),
        optional_dependencies: None,
        dev_dependencies: Some(vec![(bare("b"), direct("2", resolved(2, 0, 0, "")))]),
    };
    assert_eq!(project.get_map_by_group(DependencyGroup::Prod).map(|l| l.len()), Some(1));
    assert!(project.get_map_by_group(DependencyGroup::Optional).is_none());
    assert!(project.get_map_by_group(DependencyGroup::Peer).is_none());
    let names: Vec<String> = project
        .dependencies_by_groups(&vec![
            DependencyGroup::Dev,
            DependencyGroup::Optional,
            DependencyGroup::Prod,
            DependencyGroup::Dev,
        ])
        .into_iter()
        .map(|(name, spec)| format!("{}@{}", name.to_text(), spec.specifier))
        .collect();
    assert_eq!(names, vec!["b@2", "a@1", "b@2"]);
}

#[test]
fn install_links_direct_dependencies_only() {
    // The project asks for is-odd and, for development, for
    // fast-decode-uri-component; is-odd itself depends on is-number.
    let snapshot = RootProjectSnapshot::Single(ProjectSnapshot {
        dependencies: Some(vec![(bare("is-odd"), direct("3.0.1", resolved(3, 0, 1, "")))]),
        optional_dependencies: None,
        dev_dependencies: Some(vec![(
            bare("fast-decode-uri-component"),
            direct("1.0.1", resolved(1, 0, 1, "")),
        )]),
    });
    let config = config();
    let top = SymlinkDirectDependencies {
        config: &config,
        project_snapshot: &snapshot,
        dependency_groups: vec![
            DependencyGroup::Prod,
            DependencyGroup::Dev,
            DependencyGroup::Optional,
        ],
    }
    .run()
    .expect("a single project");
    let top_paths: Vec<JoinedPath> = top.iter().map(|l| l.symlink_path.clone()).collect();
    assert_eq!(
        top_paths,
        vec![
            path("node_modules", &["is-odd"]),
            path("node_modules", &["fast-decode-uri-component"]),
        ]
    );
    assert_eq!(
        top[0].symlink_target,
        path("node_modules/.pnpm", &["is-odd@3.0.1", "node_modules", "is-odd"])
    );
    assert_eq!(
        top[1].symlink_target,
        path(
            "node_modules/.pnpm",
            &["fast-decode-uri-component@1.0.1", "node_modules", "fast-decode-uri-component"]
        )
    );
    assert!(!top_paths.contains(&path("node_modules", &["is-number"])));

    let inner = create_symlink_layout(
        &vec![(bare("is-number"), PackageSnapshotDependency::PkgVerPeer(resolved(6, 0, 0, "")))],
        "node_modules/.pnpm",
        "node_modules/.pnpm/is-odd@3.0.1/node_modules",
    );
    assert_eq!(
        inner,
        vec![symlink(
            "node_modules/.pnpm",
            "is-number@6.0.0",
            "node_modules/.pnpm/is-odd@3.0.1/node_modules",
            "is-number"
        )]
    );
}
