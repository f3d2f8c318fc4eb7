use pacquet_core::semver::{Identifier, Version};
use pacquet_core::store_name::{
    flatten_chars, is_flat_fingerprint, store_name_of, ParsePkgNameError, PkgName,
    PkgNameVerPeer, PkgVerPeer,
};

fn name(text: &str) -> PkgName {
    PkgName::parse(text).expect("a valid name")
}

#[test]
fn parse_reads_bare_and_scoped_names() {
    assert_eq!(PkgName::parse("ts-node"), Ok(PkgName { scope: None, bare: "ts-node".to_string() }));
    assert_eq!(
        PkgName::parse("@types/node"),
        Ok(PkgName { scope: Some("types".to_string()), bare: "node".to_string() })
    );
    assert_eq!(PkgName::parse("a"), Ok(PkgName { scope: None, bare: "a".to_string() }));
    assert_eq!(
        PkgName::parse("@a/b"),
        Ok(PkgName { scope: Some("a".to_string()), bare: "b".to_string() })
    );
    assert_eq!(PkgName::parse("lodash_es.next").map(|n| n.to_text()), Ok("lodash_es.next".to_string()));
}

#[test]
fn parse_refuses_what_is_not_a_name() {
    assert_eq!(PkgName::parse(""), Err(ParsePkgNameError::EmptyName));
    assert_eq!(PkgName::parse("@types/"), Err(ParsePkgNameError::EmptyName));
    assert_eq!(PkgName::parse("@types"), Err(ParsePkgNameError::MissingSlash));
    assert_eq!(PkgName::parse("@"), Err(ParsePkgNameError::MissingSlash));
    assert_eq!(PkgName::parse("@/node"), Err(ParsePkgNameError::EmptyScope));
    assert_eq!(PkgName::parse("@/"), Err(ParsePkgNameError::EmptyScope));
    assert_eq!(PkgName::parse("a/b"), Err(ParsePkgNameError::InvalidCharacter));
    assert_eq!(PkgName::parse("a@1.0.0"), Err(ParsePkgNameError::InvalidCharacter));
    assert_eq!(PkgName::parse("a(b)"), Err(ParsePkgNameError::InvalidCharacter));
    assert_eq!(PkgName::parse("@a/b/c"), Err(ParsePkgNameError::InvalidCharacter));
    assert_eq!(PkgName::parse("@a@/b"), Err(ParsePkgNameError::InvalidCharacter));
    assert_eq!(PkgName::parse("@a/b)"), Err(ParsePkgNameError::InvalidCharacter));
}

#[test]
fn flat_fingerprints_are_rows_of_groups() {
    for peer in ["", "()", "(react@17.0.2)", "(@types/node@18.7.19)(typescript@5.1.6)", "(a)(b)(c)"] {
        assert!(is_flat_fingerprint(peer), "{peer:?}");
    }
    for peer in [
        "a", "(", ")", ")(", "(a", "a)", "(a)b", "(a)b(c)", "(a(b))", "((a))", "(a_b)", "(a+b)",
        "(a)(b", "(a))", "_", "(a) (b)",
    ] {
        assert!(!is_flat_fingerprint(peer), "{peer:?}");
    }
}

#[test]
fn fingerprints_that_are_not_flat_can_share_a_directory() {
    assert!(!is_flat_fingerprint("(a_b)"));
    assert_eq!(
        unit("x", (1, 0, 0), "(a)(b)").to_virtual_store_name(),
        unit("x", (1, 0, 0), "(a_b)").to_virtual_store_name()
    );
}

fn unit(package: &str, version: (u64, u64, u64), peer: &str) -> PkgNameVerPeer {
    let version = Version {
        major: version.0,
        minor: version.1,
        patch: version.2,
        build: vec![],
        pre_release: vec![],
    };
    PkgNameVerPeer::new(name(package), PkgVerPeer { version, peer: peer.to_string() })
}

#[test]
fn name_is_written_with_its_scope() {
    assert_eq!(name("ts-node").to_text(), "ts-node");
    assert_eq!(name("@types/node").to_text(), "@types/node");
    let mut out = vec!['x'];
    name("@a/b").push_text(&mut out);
    assert_eq!(out, vec!['x', '@', 'a', '/', 'b']);
}

#[test]
fn unit_is_written_as_name_version_peers() {
    assert_eq!(unit("ts-node", (10, 9, 1), "").to_text(), "ts-node@10.9.1");
    assert_eq!(
        unit("ts-node", (10, 9, 1), "(@types/node@18.7.19)(typescript@5.1.6)").to_text(),
        "ts-node@10.9.1(@types/node@18.7.19)(typescript@5.1.6)"
    );
}

#[test]
fn virtual_store_name_of_a_unit_without_peers() {
    assert_eq!(unit("ts-node", (10, 9, 1), "").to_virtual_store_name(), "ts-node@10.9.1");
    assert_eq!(unit("is-odd", (3, 0, 1), "").to_virtual_store_name(), "is-odd@3.0.1");
    assert_eq!(
        unit("@babel/plugin-proposal-object-rest-spread", (7, 12, 1), "").to_virtual_store_name(),
        "@babel+plugin-proposal-object-rest-spread@7.12.1"
    );
}

#[test]
fn virtual_store_name_of_a_unit_with_peers() {
    assert_eq!(
        unit("ts-node", (10, 9, 1), "(@types/node@18.7.19)(typescript@5.1.6)")
            .to_virtual_store_name(),
        "ts-node@10.9.1_@types+node@18.7.19_typescript@5.1.6"
    );
    assert_eq!(
        unit(
            "@babel/plugin-proposal-object-rest-spread",
            (7, 12, 1),
            "(@babel/core@7.12.9)"
        )
        .to_virtual_store_name(),
        "@babel+plugin-proposal-object-rest-spread@7.12.1_@babel+core@7.12.9"
    );
}

#[test]
fn virtual_store_name_holds_tags_and_build() {
    let mut tagged = unit("lib", (1, 0, 0), "(react@17.0.2)");
    tagged.suffix.version.pre_release =
        vec![Identifier::AlphaNumeric("rc".to_string()), Identifier::Numeric(1)];
    tagged.suffix.version.build = vec![Identifier::Numeric(5)];
    assert_eq!(tagged.to_virtual_store_name(), "lib@1.0.0-rc.1+5_react@17.0.2");
}

#[test]
fn virtual_store_name_is_stable() {
    let one = unit("@types/node", (18, 7, 19), "(a@1.0.0)");
    let other = unit("@types/node", (18, 7, 19), "(a@1.0.0)");
    assert_eq!(one.to_virtual_store_name(), other.to_virtual_store_name());
    assert_eq!(one.to_virtual_store_name(), one.to_virtual_store_name());
    assert_eq!(
        store_name_of(&one.name, &one.suffix),
        one.to_virtual_store_name()
    );
}

#[test]
fn virtual_store_names_differ_with_version_or_peers() {
    let base = unit("react-dom", (17, 0, 2), "(react@17.0.2)").to_virtual_store_name();
    assert_ne!(base, unit("react-dom", (17, 0, 3), "(react@17.0.2)").to_virtual_store_name());
    assert_ne!(base, unit("react-dom", (17, 0, 2), "(react@17.0.3)").to_virtual_store_name());
    assert_ne!(base, unit("react-dom", (17, 0, 2), "").to_virtual_store_name());
    assert_ne!(base, unit("react-dom", (17, 0, 2), "(react@17.0.2)(a@1.0.0)").to_virtual_store_name());
    assert_ne!(
        unit("a", (1, 0, 0), "(b@2.0.0)").to_virtual_store_name(),
        unit("a", (1, 0, 0), "(b@2.0.0)(c@3.0.0)").to_virtual_store_name()
    );
}

#[test]
fn flatten_replaces_slashes_and_parentheses() {
    let flat = |text: &str| -> String {
        flatten_chars(&text.chars().collect()).into_iter().collect()
    };
    assert_eq!(flat(""), "");
    assert_eq!(flat("plain-text_1.0"), "plain-text_1.0");
    assert_eq!(flat("a/b"), "a+b");
    assert_eq!(flat("(a)(b)"), "_a_b");
    assert_eq!(flat("(a(b))"), "_a_b");
    assert_eq!(flat(")("), "_");
    assert_eq!(flat("))"), "");
}

#[test]
fn well_formed_units() {
    assert!(unit("ts-node", (10, 9, 1), "").is_well_formed());
    assert!(unit("@types/node", (18, 7, 19), "(a@1.0.0)(b@2.0.0)").is_well_formed());
    assert!(name("@types/node").is_well_formed());
    assert!(!unit("x", (1, 0, 0), "(a_b)").is_well_formed());
    assert!(!unit("x", (1, 0, 0), "(a(b))").is_well_formed());
    let mut odd = unit("x", (1, 0, 0), "");
    odd.suffix.version.build = vec![Identifier::AlphaNumeric("1".to_string())];
    assert!(!odd.is_well_formed());
    for (scope, bare) in [(None, ""), (None, "a@b"), (None, "a/b"), (Some(""), "a"), (Some("a/b"), "c"), (None, "(a)")] {
        let name = PkgName { scope: scope.map(str::to_string), bare: bare.to_string() };
        assert!(!name.is_well_formed(), "{name:?}");
    }
}

#[test]
fn well_formed_units_that_differ_get_different_directories() {
    let mut units = Vec::new();
    for package in ["a", "a-b", "@a/b", "@a/a"] {
        for version in [(1, 0, 0), (1, 0, 1), (10, 0, 0), (1, 0, 10), (1, 1, 0)] {
            for peer in ["", "(a@1.0.0)", "(a@1.0.0)(b@1.0.0)", "(@a/b@1.0.0)", "(a@1.0.0-1)", "()"] {
                units.push(unit(package, version, peer));
            }
        }
    }
    let mut tagged = unit("a", (1, 0, 0), "");
    tagged.suffix.version.pre_release = vec![Identifier::Numeric(1)];
    units.push(tagged);
    let mut built = unit("a", (1, 0, 0), "");
    built.suffix.version.build = vec![Identifier::Numeric(1)];
    units.push(built);
    let mut both = unit("a", (1, 0, 0), "");
    both.suffix.version.pre_release = vec![Identifier::AlphaNumeric("a".to_string())];
    both.suffix.version.build = vec![Identifier::AlphaNumeric("a".to_string())];
    units.push(both);

    let names: Vec<String> = units.iter().map(|u| u.to_virtual_store_name()).collect();
    for (i, one) in units.iter().enumerate() {
        assert!(one.is_well_formed(), "{}", one.to_text());
        for (j, other) in units.iter().enumerate() {
            if i != j {
                assert_ne!(names[i], names[j], "{} and {}", one.to_text(), other.to_text());
            }
        }
    }
}
