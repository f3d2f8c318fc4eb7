use pacquet_core::registry::{
    has_unique_keys, NetworkError, Package, PackageDistribution, PackageVersion, RegistryError,
    RegistryRequest,
};
use pacquet_core::semver::{Identifier, Version};
use std::collections::HashMap;

fn plain(major: u64, minor: u64, patch: u64) -> Version {
    Version { major, minor, patch, build: vec![], pre_release: vec![] }
}

fn tagged(major: u64, minor: u64, patch: u64, pre_release: Vec<Identifier>) -> Version {
    Version { major, minor, patch, build: vec![], pre_release }
}

fn alpha(text: &str) -> Identifier {
    Identifier::AlphaNumeric(text.to_string())
}

fn release(name: &str, version: Version) -> PackageVersion {
    PackageVersion {
        name: name.to_string(),
        version,
        dist: PackageDistribution::default(),
        dependencies: None,
        dev_dependencies: None,
        peer_dependencies: None,
    }
}

fn package(name: &str, tags: Vec<(&str, &str)>, versions: Vec<Version>) -> Package {
    Package {
        name: name.to_string(),
        dist_tags: tags.into_iter().map(|(t, v)| (t.to_string(), v.to_string())).collect(),
        versions: versions.into_iter().map(|v| (v.to_text(), release(name, v))).collect(),
    }
}

fn pinned_text(package: &Package, range: &str) -> Option<String> {
    package.pinned_version(range).expect("a valid range").map(|v| v.version.to_text())
}

#[test]
pub fn package_version_should_include_peers() {
    let dependencies = vec![("fastify".to_string(), "1.0.0".to_string())];
    let peer_dependencies = vec![("fast-querystring".to_string(), "1.0.0".to_string())];
    let version = PackageVersion {
        name: "".to_string(),
        version: Version { major: 1, minor: 0, patch: 0, build: vec![], pre_release: vec![] },
        dist: PackageDistribution::default(),
        dependencies: Some(dependencies),
        dev_dependencies: None,
        peer_dependencies: Some(peer_dependencies),
    };

    let dependencies = |peer| version.dependencies(peer).into_iter().collect::<HashMap<_, _>>();
    assert!(dependencies(false).contains_key("fastify"));
    assert!(!dependencies(false).contains_key("fast-querystring"));
    assert!(dependencies(true).contains_key("fastify"));
    assert!(dependencies(true).contains_key("fast-querystring"));
    assert!(!dependencies(true).contains_key("hello-world"));
}

#[test]
pub fn serialized_according_to_params() {
    let version = PackageVersion {
        name: "".to_string(),
        version: Version { major: 3, minor: 2, patch: 1, build: vec![], pre_release: vec![] },
        dist: PackageDistribution::default(),
        dependencies: None,
        dev_dependencies: None,
        peer_dependencies: None,
    };

    assert_eq!(version.serialize(true), "3.2.1");
    assert_eq!(version.serialize(false), "^3.2.1");
}

#[test]
fn default_distribution_is_empty() {
    let dist = PackageDistribution::default();
    assert_eq!(dist.integrity, None);
    assert_eq!(dist.shasum, None);
    assert_eq!(dist.tarball, "");
    assert_eq!(dist.file_count, None);
    assert_eq!(dist.unpacked_size, None);
}

#[test]
fn peer_dependency_does_not_override_regular_one() {
    let mut version = release("app", plain(1, 0, 0));
    version.dependencies = Some(vec![
        ("a".to_string(), "1".to_string()),
        ("c".to_string(), "4".to_string()),
    ]);
    version.peer_dependencies = Some(vec![
        ("a".to_string(), "2".to_string()),
        ("b".to_string(), "3".to_string()),
    ]);
    assert_eq!(
        version.dependencies(true),
        vec![
            ("a".to_string(), "1".to_string()),
            ("c".to_string(), "4".to_string()),
            ("b".to_string(), "3".to_string()),
        ]
    );
    assert_eq!(
        version.dependencies(false),
        vec![("a".to_string(), "1".to_string()), ("c".to_string(), "4".to_string())]
    );
}

#[test]
fn dependencies_of_a_version_without_any() {
    let mut version = release("app", plain(1, 0, 0));
    assert!(version.dependencies(true).is_empty());
    version.peer_dependencies = Some(vec![("b".to_string(), "3".to_string())]);
    assert!(version.dependencies(false).is_empty());
    assert_eq!(version.dependencies(true), vec![("b".to_string(), "3".to_string())]);
}

#[test]
fn serialize_writes_tags_and_build() {
    let mut version = release("app", tagged(1, 2, 3, vec![alpha("rc"), Identifier::Numeric(1)]));
    version.version.build = vec![alpha("build"), Identifier::Numeric(5)];
    assert_eq!(version.serialize(true), "1.2.3-rc.1+build.5");
    assert_eq!(version.serialize(false), "^1.2.3-rc.1+build.5");
}

#[test]
fn pinned_version_is_the_highest_that_satisfies() {
    let package = package(
        "is-odd",
        vec![],
        vec![plain(1, 2, 0), plain(2, 0, 0), plain(1, 10, 0), plain(1, 9, 9), plain(0, 9, 0)],
    );
    assert_eq!(pinned_text(&package, "^1.0.0"), Some("1.10.0".to_string()));
    assert_eq!(pinned_text(&package, "~1.2.0"), Some("1.2.0".to_string()));
    assert_eq!(pinned_text(&package, "*"), Some("2.0.0".to_string()));
    assert_eq!(pinned_text(&package, ">=1.0.0 <1.10.0"), Some("1.9.9".to_string()));
    assert_eq!(pinned_text(&package, "1.x"), Some("1.10.0".to_string()));
    assert_eq!(pinned_text(&package, "0.9.0 || 1.2.0"), Some("1.2.0".to_string()));
    assert_eq!(pinned_text(&package, "2.0.0"), Some("2.0.0".to_string()));
    assert_eq!(pinned_text(&package, ">=*"), Some("2.0.0".to_string()));
    assert_eq!(pinned_text(&package, "<=1.9.9"), Some("1.9.9".to_string()));
    assert_eq!(pinned_text(&package, "~1.x.x"), Some("1.10.0".to_string()));
    assert_eq!(pinned_text(&package, "~1.*.*"), Some("1.10.0".to_string()));
    assert_eq!(pinned_text(&package, "~0.9.0 || 2.x.x"), Some("2.0.0".to_string()));
    assert_eq!(pinned_text(&package, "0.9.0 || =>x"), Some("0.9.0".to_string()));
}

#[test]
fn pinned_version_is_none_when_nothing_satisfies() {
    let package = package("is-odd", vec![], vec![plain(1, 2, 0), plain(2, 0, 0)]);
    assert_eq!(pinned_text(&package, "^3.0.0"), None);
    let empty = package_without_versions();
    assert_eq!(pinned_text(&empty, "*"), None);
}

fn package_without_versions() -> Package {
    package("nothing", vec![], vec![])
}

#[test]
fn pinned_version_orders_pre_releases() {
    let package = package(
        "lib",
        vec![],
        vec![
            tagged(1, 0, 0, vec![alpha("rc"), Identifier::Numeric(1)]),
            tagged(1, 0, 0, vec![alpha("alpha")]),
            tagged(1, 0, 0, vec![alpha("beta"), Identifier::Numeric(11)]),
            tagged(1, 0, 0, vec![alpha("beta"), Identifier::Numeric(2)]),
            tagged(1, 0, 0, vec![alpha("alpha"), Identifier::Numeric(1)]),
        ],
    );
    assert_eq!(pinned_text(&package, ">=1.0.0-alpha"), Some("1.0.0-rc.1".to_string()));
    assert_eq!(pinned_text(&package, ">=1.0.0-alpha <1.0.0-rc.1"), Some("1.0.0-beta.11".to_string()));
    assert_eq!(pinned_text(&package, "<1.0.0-beta.2"), Some("1.0.0-alpha.1".to_string()));
}

#[test]
fn pinned_version_puts_numbers_before_words_and_releases_last() {
    let tags = package(
        "lib",
        vec![],
        vec![tagged(1, 0, 0, vec![alpha("alpha")]), tagged(1, 0, 0, vec![Identifier::Numeric(7)])],
    );
    assert_eq!(pinned_text(&tags, ">=1.0.0-0"), Some("1.0.0-alpha".to_string()));
    let with_release = package(
        "lib",
        vec![],
        vec![plain(1, 0, 0), tagged(1, 0, 0, vec![alpha("rc")])],
    );
    assert_eq!(pinned_text(&with_release, ">=1.0.0-0"), Some("1.0.0".to_string()));
}

#[test]
fn pinned_version_takes_the_last_of_equally_high_versions() {
    let mut first = plain(1, 0, 0);
    first.build = vec![alpha("a")];
    let mut second = plain(1, 0, 0);
    second.build = vec![alpha("b")];
    let package = package("lib", vec![], vec![first, plain(0, 5, 0), second, plain(0, 1, 0)]);
    assert_eq!(pinned_text(&package, "<=1.0.0"), Some("1.0.0+b".to_string()));
}

#[test]
fn pinned_version_rejects_what_is_not_a_range() {
    let package = package("lib", vec![], vec![plain(1, 0, 0)]);
    for text in ["foo", "=*", "~x", "~1.x.3", "= v *", "~> X"] {
        match package.pinned_version(text) {
            Err(RegistryError::InvalidRange(range)) => assert_eq!(range, text),
            other => panic!("{text:?} gave {:?}", other.map(|v| v.map(|v| v.version.to_text()))),
        }
    }
    let empty = package_without_versions();
    assert!(matches!(empty.pinned_version("foo"), Err(RegistryError::InvalidRange(_))));
}

#[test]
fn latest_follows_the_tag() {
    let package = package(
        "is-odd",
        vec![("next", "4.0.0"), ("latest", "3.0.1")],
        vec![plain(3, 0, 0), plain(3, 0, 1), plain(4, 0, 0)],
    );
    let latest = package.latest().expect("the tag and its version are there");
    assert_eq!(latest.version.to_text(), "3.0.1");
    assert_eq!(latest.name, "is-odd");
}

#[test]
fn latest_without_the_tag_is_missing_dist_tag() {
    let package = package("is-odd", vec![("next", "4.0.0")], vec![plain(4, 0, 0)]);
    assert!(matches!(package.latest(), Err(RegistryError::MissingDistTag)));
    let bare = package_without_versions();
    assert!(matches!(bare.latest(), Err(RegistryError::MissingDistTag)));
}

#[test]
fn latest_with_a_tag_to_nowhere_is_missing_version() {
    let package = package("is-odd", vec![("latest", "9.9.9")], vec![plain(4, 0, 0)]);
    match package.latest() {
        Err(RegistryError::MissingVersion(number)) => assert_eq!(number, "9.9.9"),
        other => panic!("unexpected: {:?}", other.map(|v| v.version.to_text())),
    }
}

#[test]
fn packages_are_equal_by_name() {
    let one = package("is-odd", vec![("latest", "3.0.1")], vec![plain(3, 0, 1)]);
    let other = package("is-odd", vec![], vec![plain(1, 0, 0), plain(2, 0, 0)]);
    let third = package("is-even", vec![("latest", "3.0.1")], vec![plain(3, 0, 1)]);
    assert!(one == other);
    assert!(one != third);
}

#[test]
fn registry_url_appends_the_name() {
    assert_eq!(
        Package::registry_url("is-odd", "https://registry.npmjs.com/"),
        "https://registry.npmjs.com/is-odd"
    );
    assert_eq!(Package::registry_url("", ""), "");
    assert_eq!(Package::registry_url("@types/node", "r/"), "r/@types/node");
}

#[test]
fn registry_request_asks_for_json() {
    assert_eq!(
        Package::registry_request("is-odd", "https://registry.npmjs.com/"),
        RegistryRequest {
            url: "https://registry.npmjs.com/is-odd".to_string(),
            header_name: "content-type".to_string(),
            header_value: "application/json".to_string(),
        }
    );
}

#[test]
fn fetch_hands_the_package_on() {
    let answer = Ok(package("is-odd", vec![("latest", "3.0.1")], vec![plain(3, 0, 1)]));
    let fetched = Package::fetch_from_registry("is-odd", "https://registry.npmjs.com/", answer)
        .expect("the answer was a package");
    assert_eq!(fetched.name, "is-odd");
    assert_eq!(fetched.versions.len(), 1);
    assert_eq!(fetched.dist_tags, vec![("latest".to_string(), "3.0.1".to_string())]);
}

#[test]
fn fetch_reports_a_failure_with_the_address() {
    let answer = Err("connection refused".to_string());
    let fetched = Package::fetch_from_registry("is-odd", "https://registry.npmjs.com/", answer);
    match fetched {
        Err(RegistryError::Network(error)) => assert_eq!(
            error,
            NetworkError {
                error: "connection refused".to_string(),
                url: "https://registry.npmjs.com/is-odd".to_string(),
            }
        ),
        _ => panic!("a failed request must be a network error"),
    }
}

#[test]
fn keys_are_checked_for_repeats() {
    let entry = |key: &str| (key.to_string(), 0u8);
    assert!(has_unique_keys::<u8>(&vec![]));
    assert!(has_unique_keys(&vec![entry("a")]));
    assert!(has_unique_keys(&vec![entry("a"), entry("b"), entry("A"), entry("")]));
    assert!(!has_unique_keys(&vec![entry("a"), entry("b"), entry("a")]));
    assert!(!has_unique_keys(&vec![entry("b"), entry("b")]));
}

#[test]
fn well_formed_packages_repeat_no_tag_and_no_number() {
    let mut good = package(
        "is-odd",
        vec![("latest", "3.0.1"), ("next", "3.0.1")],
        vec![plain(3, 0, 0), plain(3, 0, 1)],
    );
    assert!(good.is_well_formed());
    good.versions[1].1.dependencies =
        Some(vec![("a".to_string(), "1".to_string()), ("b".to_string(), "1".to_string())]);
    good.versions[1].1.peer_dependencies = Some(vec![("a".to_string(), "2".to_string())]);
    assert!(good.is_well_formed());
    assert!(good.versions[1].1.is_well_formed());

    let mut repeated_dependency = good.clone();
    repeated_dependency.versions[1].1.dev_dependencies =
        Some(vec![("a".to_string(), "1".to_string()), ("a".to_string(), "2".to_string())]);
    assert!(!repeated_dependency.versions[1].1.is_well_formed());
    assert!(!repeated_dependency.is_well_formed());

    let repeated_tag = package(
        "is-odd",
        vec![("latest", "3.0.1"), ("latest", "3.0.0")],
        vec![plain(3, 0, 0), plain(3, 0, 1)],
    );
    assert!(!repeated_tag.is_well_formed());
    assert_eq!(repeated_tag.latest().map(|v| v.version.to_text()), Ok("3.0.1".to_string()));

    let repeated_number =
        package("is-odd", vec![("latest", "3.0.1")], vec![plain(3, 0, 1), plain(3, 0, 1)]);
    assert!(!repeated_number.is_well_formed());
}
