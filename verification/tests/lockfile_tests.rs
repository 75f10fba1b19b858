use alchemy::dependency::{PackageId, ResolvedPackage};
use alchemy::graph::DependencyGraph;
use alchemy::lockfile::{
    parse_key, Lockfile, LockfileImporter, LockfilePackage, LockfileResolution,
};
use alchemy::packages::PackageTable;
use alchemy::resolver::ResolutionResult;
use alchemy::strmap::StrMap;

fn make_resolution(packages: Vec<(&str, &str, &str)>) -> ResolutionResult {
    let mut pkgs = PackageTable::new();
    let mut direct_deps = Vec::new();

    for (name, version, tarball) in &packages {
        let id = PackageId::new(name, version);
        pkgs.insert(ResolvedPackage {
            id: id.clone(),
            tarball_url: tarball.to_string(),
            integrity: Some(format!("sha512-fake-{}", name)),
            source_path: None,
            dependencies: StrMap::new(),
            peer_dependencies: StrMap::new(),
            optional_dependencies: StrMap::new(),
            bin: None,
            os: None,
            cpu: None,
            engines: None,
        });
        direct_deps.push(id);
    }

    ResolutionResult {
        graph: DependencyGraph::new(),
        packages: pkgs,
        direct_deps,
        peer_warnings: Vec::new(),
    }
}

fn deps(pairs: &[(&str, &str)]) -> StrMap<String> {
    let mut m = StrMap::new();
    for (k, v) in pairs {
        m.insert(k.to_string(), v.to_string());
    }
    m
}

#[test]
fn test_lockfile_roundtrip() {
    let resolution = make_resolution(vec![
        (
            "express",
            "4.18.0",
            "https://example.com/express-4.18.0.tgz",
        ),
        (
            "lodash",
            "4.17.21",
            "https://example.com/lodash-4.17.21.tgz",
        ),
    ]);

    let root_deps = deps(&[("express", "^4.17.0"), ("lodash", "^4.0.0")]);
    let dev_deps = StrMap::new();

    let lockfile = Lockfile::from_resolution(&resolution, &root_deps, &dev_deps);
    assert_eq!(lockfile.packages.len(), 2);
    assert!(lockfile.packages.contains_key("/express@4.18.0"));
    assert!(lockfile.packages.contains_key("/lodash@4.17.21"));

    // Reconstruct resolution result
    let result = lockfile.to_resolution_result().unwrap();
    assert_eq!(result.packages.len(), 2);
    let mut found = false;
    for i in 0..result.packages.len() {
        let id = &result.packages.get_index(i).id;
        if id.name == "express" && id.version == "4.18.0" {
            found = true;
        }
    }
    assert!(found);
    assert_eq!(result.direct_deps.len(), 2);
    assert_eq!(result.graph.node_count(), 2);
}

#[test]
fn test_lockfile_preserves_integrity() {
    let resolution = make_resolution(vec![("pkg", "1.0.0", "https://example.com/pkg-1.0.0.tgz")]);
    let root_deps = deps(&[("pkg", "^1.0.0")]);
    let lockfile = Lockfile::from_resolution(&resolution, &root_deps, &StrMap::new());

    let pkg_entry = lockfile.packages.get("/pkg@1.0.0").unwrap();
    assert_eq!(
        pkg_entry.resolution.integrity.as_deref(),
        Some("sha512-fake-pkg")
    );
}

#[test]
fn test_malformed_key_returns_error_not_panic() {
    let mut lockfile = Lockfile::new();
    // Insert a package with a key missing the '/' prefix
    lockfile.packages.insert(
        "no-slash@1.0.0".to_string(),
        LockfilePackage {
            resolution: LockfileResolution {
                integrity: None,
                tarball: Some("https://example.com/pkg.tgz".to_string()),
                git: None,
                directory: None,
            },
            dependencies: StrMap::new(),
            peer_dependencies: StrMap::new(),
            optional_dependencies: StrMap::new(),
        },
    );
    // Also add a valid importer so the first parse loop passes
    lockfile.importers.insert(
        ".".to_string(),
        LockfileImporter {
            dependencies: StrMap::new(),
            dev_dependencies: StrMap::new(),
        },
    );

    let result = lockfile.to_resolution_result();
    assert!(
        result.is_err(),
        "malformed lockfile key must return Err, not panic"
    );
    let err_msg = result.err().unwrap().message();
    assert!(
        err_msg.contains("no-slash@1.0.0") || err_msg.contains("invalid lockfile"),
        "error message should mention the bad key"
    );
}

#[test]
fn test_validate_against_manifest_passes_when_in_sync() {
    let resolution = make_resolution(vec![("lodash", "4.17.21", "url")]);
    let root_deps = deps(&[("lodash", "^4.0.0")]);
    let lockfile = Lockfile::from_resolution(&resolution, &root_deps, &StrMap::new());
    // Validation should succeed when specifiers match
    assert!(lockfile
        .validate_against_manifest(&root_deps, &StrMap::new())
        .is_ok());
}

#[test]
fn test_validate_against_manifest_fails_on_drift() {
    let resolution = make_resolution(vec![("lodash", "4.17.21", "url")]);
    let old_deps = deps(&[("lodash", "^4.0.0")]);
    let lockfile = Lockfile::from_resolution(&resolution, &old_deps, &StrMap::new());
    // Now manifest wants a different specifier (e.g. ^5.0.0)
    let new_deps = deps(&[("lodash", "^5.0.0")]);
    assert!(lockfile
        .validate_against_manifest(&new_deps, &StrMap::new())
        .is_err());
}

#[test]
fn validation_messages_name_the_problem() {
    let resolution = make_resolution(vec![("lodash", "4.17.21", "url")]);
    let old_deps = deps(&[("lodash", "^4.0.0")]);
    let lockfile = Lockfile::from_resolution(&resolution, &old_deps, &StrMap::new());
    let drift = lockfile
        .validate_against_manifest(&deps(&[("lodash", "^5.0.0")]), &StrMap::new())
        .err()
        .unwrap()
        .message();
    assert_eq!(
        drift,
        "Lockfile out of date: lodash specifier is '^4.0.0' but package.json has '^5.0.0'"
    );
    let missing = lockfile
        .validate_against_manifest(&old_deps, &deps(&[("jest", "^29.0.0")]))
        .err()
        .unwrap()
        .message();
    assert_eq!(
        missing,
        "Lockfile out of date: jest is in package.json devDependencies but not in lockfile"
    );
    let empty = Lockfile::new();
    assert_eq!(
        empty
            .validate_against_manifest(&old_deps, &StrMap::new())
            .err()
            .unwrap()
            .message(),
        "Lockfile has no root importer"
    );
}

#[test]
fn dev_dependencies_go_to_the_dev_importer() {
    let resolution = make_resolution(vec![("jest", "29.7.0", "url"), ("lodash", "4.17.21", "url")]);
    let lockfile = Lockfile::from_resolution(
        &resolution,
        &deps(&[("lodash", "^4.0.0")]),
        &deps(&[("jest", "^29.0.0")]),
    );
    let root = lockfile.importers.get(".").unwrap();
    assert_eq!(root.dev_dependencies.get("jest").unwrap().specifier, "^29.0.0");
    assert_eq!(root.dependencies.get("lodash").unwrap().version, "4.17.21");
    assert!(!root.dependencies.contains_key("jest"));
}

#[test]
fn lockfile_keys_parse_back() {
    let id = parse_key("/@scope/pkg@1.2.3").unwrap();
    assert_eq!(id.name, "@scope/pkg");
    assert_eq!(id.version, "1.2.3");
    assert!(parse_key("no-slash@1.0.0").is_none());
    assert!(parse_key("/noversion").is_none());
    let mut lockfile = Lockfile::new();
    for key in ["/b@2.0.0", "/a@1.0.0", "bad"] {
        lockfile.packages.insert(
            key.to_string(),
            LockfilePackage {
                resolution: LockfileResolution { integrity: None, tarball: None, git: None, directory: None },
                dependencies: StrMap::new(),
                peer_dependencies: StrMap::new(),
                optional_dependencies: StrMap::new(),
            },
        );
    }
    let ids = lockfile.all_package_ids();
    assert_eq!(ids.len(), 2);
    assert_eq!(ids[0].name, "a");
    assert_eq!(ids[1].name, "b");
}

#[test]
fn lockfile_edges_follow_dependencies() {
    let mut lockfile = Lockfile::new();
    let mut app_deps = StrMap::new();
    app_deps.insert("lib".to_string(), "1.0.0".to_string());
    app_deps.insert("missing".to_string(), "9.9.9".to_string());
    lockfile.packages.insert(
        "/app@1.0.0".to_string(),
        LockfilePackage {
            resolution: LockfileResolution { integrity: None, tarball: None, git: None, directory: Some("/src/app".to_string()) },
            dependencies: app_deps,
            peer_dependencies: StrMap::new(),
            optional_dependencies: StrMap::new(),
        },
    );
    lockfile.packages.insert(
        "/lib@1.0.0".to_string(),
        LockfilePackage {
            resolution: LockfileResolution { integrity: None, tarball: Some("t".to_string()), git: None, directory: None },
            dependencies: StrMap::new(),
            peer_dependencies: StrMap::new(),
            optional_dependencies: StrMap::new(),
        },
    );
    let result = lockfile.to_resolution_result().unwrap();
    assert_eq!(result.graph.edge_count(), 1);
    let app = PackageId::new("app", "1.0.0");
    let children = result.graph.dependencies_of(&app);
    assert_eq!(children.len(), 1);
    assert_eq!(children[0].name, "lib");
    assert_eq!(result.packages.get(&app).unwrap().source_path.as_deref(), Some("/src/app"));
    assert_eq!(result.direct_deps.len(), 0);
}

#[test]
fn lockfile_records_resolved_dependency_versions() {
    let mut table = PackageTable::new();
    for (name, version, dependencies, optional) in [
        ("a", "1.0.0", deps(&[("b", "~1"), ("gone", "^2.0.0")]), deps(&[("b", "^1.0.0")])),
        ("b", "1.2.0", StrMap::new(), StrMap::new()),
    ] {
        table.insert(ResolvedPackage {
            id: PackageId::new(name, version),
            tarball_url: format!("url-{}", name),
            integrity: None,
            source_path: None,
            dependencies,
            peer_dependencies: StrMap::new(),
            optional_dependencies: optional,
            bin: None,
            os: None,
            cpu: None,
            engines: None,
        });
    }
    let resolution = ResolutionResult {
        graph: DependencyGraph::new(),
        packages: table,
        direct_deps: vec![PackageId::new("a", "1.0.0")],
        peer_warnings: Vec::new(),
    };
    let lockfile = Lockfile::from_resolution(&resolution, &deps(&[("a", "^1.0.0")]), &StrMap::new());
    let a = lockfile.packages.get("/a@1.0.0").unwrap();
    assert_eq!(a.dependencies.get("b").map(|v| v.as_str()), Some("1.2.0"));
    assert!(!a.dependencies.contains_key("gone"));
    assert_eq!(a.optional_dependencies.get("b").map(|v| v.as_str()), Some("1.2.0"));

    let back = lockfile.to_resolution_result().unwrap();
    let children = back.graph.dependencies_of(&PackageId::new("a", "1.0.0"));
    assert_eq!(children.len(), 2);
    assert!(children.iter().all(|c| c.name == "b" && c.version == "1.2.0"));
}

#[test]
fn direct_dependencies_survive_lockfile_roundtrip() {
    let resolution = make_resolution(vec![("zod", "3.22.0", "u1"), ("jest", "29.7.0", "u2"), ("axios", "1.6.0", "u3")]);
    let lockfile = Lockfile::from_resolution(
        &resolution,
        &deps(&[("zod", "^3.0.0"), ("axios", "^1.0.0")]),
        &deps(&[("jest", "^29.0.0")]),
    );
    let back = lockfile.to_resolution_result().unwrap();
    let mut got: Vec<(String, String)> =
        back.direct_deps.iter().map(|id| (id.name.clone(), id.version.clone())).collect();
    got.sort();
    assert_eq!(
        got,
        vec![
            ("axios".to_string(), "1.6.0".to_string()),
            ("jest".to_string(), "29.7.0".to_string()),
            ("zod".to_string(), "3.22.0".to_string()),
        ]
    );
}
