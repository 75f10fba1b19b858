use alchemy::commands::{
    column_width, full_command, is_outdated, lifecycle_scripts, path_with_bin, script_plan,
    split_package_spec, version_spec, warning_text,
};
use alchemy::dependency::{PackageId, ResolvedPackage};
use alchemy::error::AlchemyError;
use alchemy::graph::{DepEdge, DependencyGraph};
use alchemy::import::{lockfile_from_npm, NpmLockfile, NpmPackageEntry};
use alchemy::link::{
    installed_package_dir, link_packages, link_workspace_packages, parent_dir, store_package_dir, LinkOp,
};
use alchemy::manifest::BinField;
use alchemy::packages::PackageTable;
use alchemy::registry::{
    auth_header, check_download, download_step, encode_name, git_version, metadata_step, metadata_url,
    tarball_auth, DownloadStep, MetadataCache, MetadataStep, Response,
};
use alchemy::resolver::{PeerWarning, ResolutionResult, WorkspaceResolutionResult};
use alchemy::manifest::Manifest;
use alchemy::workspace::{Workspace, WorkspaceMember};
use alchemy::semver::{compare_versions, find_wanted, version_satisfies, version_text, Ident, SemVer};
use alchemy::strmap::StrMap;

fn map(pairs: &[(&str, &str)]) -> StrMap<String> {
    let mut m = StrMap::new();
    for (k, v) in pairs {
        m.insert(k.to_string(), v.to_string());
    }
    m
}

fn entry(version: Option<&str>, deps: &[(&str, &str)], dev: Option<bool>) -> NpmPackageEntry {
    NpmPackageEntry {
        version: version.map(|v| v.to_string()),
        resolved: version.map(|v| format!("https://registry.npmjs.org/x/-/x-{}.tgz", v)),
        integrity: Some("sha512-abc123".to_string()),
        dependencies: map(deps),
        dev_dependencies: StrMap::new(),
        peer_dependencies: StrMap::new(),
        optional_dependencies: StrMap::new(),
        dev,
        link: None,
    }
}

fn npm_entry(version: &str, url: &str, integrity: &str, deps: &[(&str, &str)], dev: Option<bool>) -> NpmPackageEntry {
    let mut e = entry(Some(version), deps, dev);
    e.resolved = Some(url.to_string());
    e.integrity = Some(integrity.to_string());
    e
}

#[test]
fn test_import_npm_lockfile_v3() {
    let mut root = entry(Some("1.0.0"), &[("express", "^4.18.0")], None);
    root.resolved = None;
    root.integrity = None;
    root.dev_dependencies = map(&[("jest", "^29.0.0")]);
    let mut packages = StrMap::new();
    packages.insert(String::new(), root);
    packages.insert(
        "node_modules/express".to_string(),
        npm_entry(
            "4.18.2",
            "https://registry.npmjs.org/express/-/express-4.18.2.tgz",
            "sha512-abc123",
            &[("body-parser", "1.20.1")],
            None,
        ),
    );
    packages.insert(
        "node_modules/jest".to_string(),
        npm_entry("29.7.0", "https://registry.npmjs.org/jest/-/jest-29.7.0.tgz", "sha512-def456", &[], Some(true)),
    );
    packages.insert(
        "node_modules/body-parser".to_string(),
        npm_entry(
            "1.20.1",
            "https://registry.npmjs.org/body-parser/-/body-parser-1.20.1.tgz",
            "sha512-ghi789",
            &[],
            None,
        ),
    );
    let npm = NpmLockfile { lockfile_version: 3, packages };

    let lockfile = lockfile_from_npm(&npm).unwrap();
    assert_eq!(lockfile.lockfile_version, "1.0");
    assert_eq!(lockfile.packages.len(), 3);
    let express = lockfile.packages.get("/express@4.18.2").unwrap();
    assert_eq!(
        express.resolution.tarball.as_deref(),
        Some("https://registry.npmjs.org/express/-/express-4.18.2.tgz")
    );
    assert_eq!(express.dependencies.get("body-parser").unwrap(), "1.20.1");
    let root = lockfile.importers.get(".").unwrap();
    assert!(root.dependencies.contains_key("express"));
    assert!(root.dev_dependencies.contains_key("jest"));
    assert_eq!(root.dependencies.get("express").unwrap().specifier, "^4.18.0");
    // body-parser is not in the root entry: its specifier is "^" + version
    assert_eq!(root.dependencies.get("body-parser").unwrap().specifier, "^1.20.1");
}

#[test]
fn old_npm_lockfiles_are_refused() {
    let npm = NpmLockfile { lockfile_version: 1, packages: StrMap::new() };
    let err = lockfile_from_npm(&npm).err().unwrap();
    assert_eq!(
        err.message(),
        "Only package-lock.json v2/v3 is supported (lockfileVersion >= 2)"
    );
}

fn semver(major: u64, minor: u64, patch: u64, pre_release: Vec<Ident>, build: Vec<Ident>) -> SemVer {
    SemVer { major, minor, patch, pre_release, build }
}

#[test]
fn semver_satisfaction_and_order() {
    assert!(version_satisfies("4.17.21", "^4.17.0"));
    assert!(!version_satisfies("5.0.0", "^4.17.0"));
    assert!(!version_satisfies("not-a-version", "*"));
    assert!(!version_satisfies("1.0.0", "not a range >>>"));
    let a = semver(1, 2, 3, vec![], vec![]);
    let b = semver(1, 2, 3, vec![Ident::AlphaNumeric("beta".to_string()), Ident::Numeric(1)], vec![]);
    let c = semver(1, 10, 0, vec![], vec![]);
    assert_eq!(compare_versions(&a, &b), 1);
    assert_eq!(compare_versions(&b, &a), -1);
    assert_eq!(compare_versions(&a, &c), -1);
    assert_eq!(compare_versions(&a, &a), 0);
    assert_eq!(version_text(&b), "1.2.3-beta.1");
    let d = semver(
        2,
        0,
        0,
        vec![Ident::AlphaNumeric("rc".to_string()), Ident::Numeric(1)],
        vec![Ident::AlphaNumeric("build".to_string()), Ident::Numeric(5)],
    );
    assert_eq!(version_text(&d), "2.0.0-rc.1+build.5");
}

#[test]
fn find_wanted_picks_highest_match() {
    let versions: Vec<String> = ["1.0.0", "1.2.0", "2.0.0", "1.1.5"].iter().map(|s| s.to_string()).collect();
    assert_eq!(find_wanted(&versions, "^1.0.0"), Some("1.2.0".to_string()));
    assert_eq!(find_wanted(&versions, "^3.0.0"), None);
    assert_eq!(find_wanted(&versions, "not a range >>>"), None);
}

#[test]
fn registry_urls_and_headers() {
    assert_eq!(encode_name("@scope/name"), "@scope%2fname");
    assert_eq!(encode_name("express"), "express");
    assert_eq!(
        metadata_url("https://registry.npmjs.org/", "@types/node"),
        "https://registry.npmjs.org/@types%2fnode"
    );
    assert_eq!(auth_header("Basic abc"), "Basic abc");
    assert_eq!(auth_header("tok"), "Bearer tok");
    let tokens = map(&[("https://npm.a.com/", "t1"), ("https://npm.b.com/", "Basic t2")]);
    assert_eq!(tarball_auth(&tokens, "https://npm.b.com/x.tgz"), Some("Basic t2".to_string()));
    assert_eq!(tarball_auth(&tokens, "https://other.com/x.tgz"), None);
    assert_eq!(git_version(None, "0123456789abcdef"), "01234567");
    assert_eq!(git_version(Some("1.0.0"), "0123456789abcdef"), "1.0.0");
    assert_eq!(git_version(None, "abc"), "abc");
}

#[test]
fn metadata_steps() {
    assert!(matches!(metadata_step("p", 0, &Response::Status(200, "200 OK".to_string())), MetadataStep::Parse));
    assert!(matches!(
        metadata_step("p", 0, &Response::Status(404, "404 Not Found".to_string())),
        MetadataStep::Fail(AlchemyError::PackageNotFound(_))
    ));
    assert!(matches!(metadata_step("p", 0, &Response::Status(503, "503".to_string())), MetadataStep::Retry));
    match metadata_step("p", 2, &Response::Status(503, "503 Service Unavailable".to_string())) {
        MetadataStep::Fail(AlchemyError::Network(t)) => assert_eq!(t, "p: HTTP 503 Service Unavailable"),
        _ => panic!("expected a network error"),
    }
    match metadata_step("p", 2, &Response::SendError("timeout".to_string())) {
        MetadataStep::Fail(AlchemyError::Network(t)) => assert_eq!(t, "p: timeout"),
        _ => panic!("expected a network error"),
    }
    assert!(matches!(metadata_step("p", 1, &Response::SendError("x".to_string())), MetadataStep::Retry));
}

#[test]
fn download_steps() {
    let id = PackageId::new("left-pad", "1.3.0");
    assert!(matches!(download_step(&id, 0, &Response::Status(200, "200 OK".to_string())), DownloadStep::Read));
    assert!(matches!(download_step(&id, 1, &Response::Status(502, "502 Bad Gateway".to_string())), DownloadStep::Retry));
    match download_step(&id, 2, &Response::Status(502, "502 Bad Gateway".to_string())) {
        DownloadStep::Fail(t) => assert_eq!(t, "download left-pad@1.3.0: HTTP 502 Bad Gateway"),
        _ => panic!("expected a failure"),
    }
    match download_step(&id, 0, &Response::Status(404, "404 Not Found".to_string())) {
        DownloadStep::Fail(t) => assert_eq!(t, "download left-pad@1.3.0: HTTP 404 Not Found"),
        _ => panic!("expected a failure"),
    }
    assert!(matches!(download_step(&id, 0, &Response::SendError("reset".to_string())), DownloadStep::Retry));
    match download_step(&id, 2, &Response::SendError("reset".to_string())) {
        DownloadStep::Fail(t) => assert_eq!(t, "reset"),
        _ => panic!("expected a failure"),
    }
}

#[test]
fn metadata_cache_paths() {
    let cache = MetadataCache::new("/store", std::time::Duration::from_secs(300));
    assert_eq!(cache.cache_dir(), "/store/metadata-cache");
    assert_eq!(cache.cache_path("@scope/pkg"), "/store/metadata-cache/@scope+pkg.json");
    assert_eq!(cache.cache_path("test-pkg"), "/store/metadata-cache/test-pkg.json");
}

#[test]
fn command_helpers() {
    assert_eq!(split_package_spec("express"), ("express".to_string(), "latest".to_string()));
    assert_eq!(split_package_spec("@scope/pkg"), ("@scope/pkg".to_string(), "latest".to_string()));
    assert_eq!(split_package_spec("@scope/pkg@^1.0.0"), ("@scope/pkg".to_string(), "^1.0.0".to_string()));
    assert_eq!(split_package_spec("lodash@4"), ("lodash".to_string(), "4".to_string()));
    assert_eq!(version_spec("latest", "4.17.21"), "^4.17.21");
    assert_eq!(version_spec("~1.0.0", "4.17.21"), "~1.0.0");
    let scripts = map(&[("build", "tsc"), ("prebuild", "rm -rf dist"), ("test", "jest")]);
    let (pre, main, post) = script_plan(&scripts, "build").unwrap();
    assert_eq!(pre.as_deref(), Some("rm -rf dist"));
    assert_eq!(main, "tsc");
    assert!(post.is_none());
    assert!(script_plan(&scripts, "lint").is_none());
    assert_eq!(full_command("jest", &[]), "jest");
    assert_eq!(full_command("jest", &["--watch".to_string(), "a".to_string()]), "jest --watch a");
    assert_eq!(path_with_bin("/p/node_modules/.bin", "/usr/bin"), "/p/node_modules/.bin:/usr/bin");
    let life = lifecycle_scripts(&map(&[("postinstall", "node post.js"), ("preinstall", "echo pre"), ("test", "x")]));
    assert_eq!(life, vec![
        ("preinstall".to_string(), "echo pre".to_string()),
        ("postinstall".to_string(), "node post.js".to_string()),
    ]);
    assert!(is_outdated("1.0.0", "1.0.0", "2.0.0"));
    assert!(!is_outdated("1.0.0", "1.0.0", "1.0.0"));
    assert_eq!(column_width(&vec!["ab".to_string(), "abcdefghij".to_string()], 7), 10);
    assert_eq!(column_width(&vec!["ab".to_string()], 7), 7);
}

#[test]
fn peer_warning_texts() {
    let w = PeerWarning {
        package: PackageId::new("plugin", "1.0.0"),
        peer_name: "host".to_string(),
        required: "^2.0.0".to_string(),
        found: Some("1.0.0".to_string()),
    };
    assert_eq!(warning_text(&w), "WARN: plugin@1.0.0 requires peer host ^2.0.0, but 1.0.0 is installed");
    let w2 = PeerWarning { found: None, ..w };
    assert_eq!(warning_text(&w2), "WARN: plugin@1.0.0 requires peer host ^2.0.0, which is not installed");
}

#[test]
fn graph_add_package_is_idempotent() {
    let mut g = DependencyGraph::new();
    let a = PackageId::new("a", "1.0.0");
    let b = PackageId::new("b", "2.0.0");
    let c = PackageId::new("c", "3.0.0");
    let ia = g.add_package(a.clone());
    assert_eq!(g.add_package(a.clone()), ia);
    g.add_package(b.clone());
    g.add_package(c.clone());
    assert_eq!(g.node_count(), 3);
    g.add_dependency(&a, &b, DepEdge::Normal);
    g.add_dependency(&a, &c, DepEdge::Peer);
    let deps: Vec<String> = g.dependencies_of(&a).iter().map(|p| p.name.clone()).collect();
    assert_eq!(deps, vec!["c".to_string(), "b".to_string()]);
    assert!(g.dependencies_of(&PackageId::new("z", "0")).is_empty());
    let all: Vec<String> = g.all_packages().iter().map(|p| p.name.clone()).collect();
    assert_eq!(all, vec!["a".to_string(), "b".to_string(), "c".to_string()]);
    assert!(g.contains(&b));
    assert!(!g.contains(&PackageId::new("b", "9.9.9")));
}

fn pkg(name: &str, version: &str, deps: &[(&str, &str)], bin: Option<BinField>) -> ResolvedPackage {
    ResolvedPackage {
        id: PackageId::new(name, version),
        tarball_url: String::new(),
        integrity: None,
        source_path: None,
        dependencies: map(deps),
        peer_dependencies: StrMap::new(),
        optional_dependencies: StrMap::new(),
        bin,
        os: None,
        cpu: None,
        engines: None,
    }
}

#[test]
fn link_plan_layout() {
    let mut packages = PackageTable::new();
    packages.insert(pkg("express", "4.18.2", &[("accepts", "^1.3.8")], None));
    packages.insert(pkg("accepts", "1.3.8", &[], Some(BinField::Path("bin/acc.js".to_string()))));
    let resolution = ResolutionResult {
        graph: DependencyGraph::new(),
        packages,
        direct_deps: vec![PackageId::new("express", "4.18.2")],
        peer_warnings: Vec::new(),
    };
    let ops = link_packages("/p", &resolution, "/store");
    assert!(matches!(&ops[0], LinkOp::RemoveDirAll(p) if p == "/p/node_modules"));
    assert!(matches!(&ops[1], LinkOp::CreateDirAll(p) if p == "/p/node_modules/.pnpm"));
    match &ops[2] {
        LinkOp::LinkTree { src, dst, missing } => {
            assert_eq!(src, "/store/packages/express/4.18.2");
            assert_eq!(dst, "/p/node_modules/.pnpm/express@4.18.2/node_modules/express");
            assert_eq!(missing, "Package express@4.18.2 not found in store at /store/packages/express/4.18.2");
        }
        _ => panic!("expected a tree link"),
    }
    match &ops[4] {
        LinkOp::Symlink { target, link, only_if_absent } => {
            assert_eq!(link, "/p/node_modules/.pnpm/express@4.18.2/node_modules/accepts");
            assert_eq!(target, "../../accepts@1.3.8/node_modules/accepts");
            assert!(*only_if_absent);
        }
        _ => panic!("expected a dependency link"),
    }
    match &ops[5] {
        LinkOp::Symlink { target, link, .. } => {
            assert_eq!(link, "/p/node_modules/express");
            assert_eq!(target, ".pnpm/express@4.18.2/node_modules/express");
        }
        _ => panic!("expected a direct link"),
    }
    assert!(matches!(&ops[6], LinkOp::CreateDirAll(p) if p == "/p/node_modules/.bin"));
    match &ops[7] {
        LinkOp::Symlink { target, link, .. } => {
            assert_eq!(link, "/p/node_modules/.bin/accepts");
            assert_eq!(target, "../.pnpm/accepts@1.3.8/node_modules/accepts/bin/acc.js");
        }
        _ => panic!("expected a bin link"),
    }
    assert!(matches!(&ops[8], LinkOp::MakeExecutable(_)));
    assert_eq!(ops.len(), 9);
}

#[test]
fn root_node_modules_links_only_direct_dependencies() {
    let mut packages = PackageTable::new();
    packages.insert(pkg("app-lib", "1.0.0", &[("left-pad", "^1.0.0")], None));
    packages.insert(pkg("left-pad", "1.3.0", &[], None));
    packages.insert(pkg("@scope/util", "2.0.0", &[], None));
    let resolution = ResolutionResult {
        graph: DependencyGraph::new(),
        packages,
        direct_deps: vec![PackageId::new("app-lib", "1.0.0"), PackageId::new("@scope/util", "2.0.0")],
        peer_warnings: Vec::new(),
    };
    let ops = link_packages("/p", &resolution, "/store");
    let root_links: Vec<&String> = ops
        .iter()
        .filter_map(|op| match op {
            LinkOp::Symlink { link, .. } if !link.starts_with("/p/node_modules/.pnpm/") => Some(link),
            _ => None,
        })
        .collect();
    assert_eq!(root_links, vec!["/p/node_modules/app-lib", "/p/node_modules/@scope/util"]);
    // left-pad is reachable only from app-lib's own node_modules.
    assert!(ops.iter().any(|op| matches!(op, LinkOp::Symlink { link, .. }
        if link == "/p/node_modules/.pnpm/app-lib@1.0.0/node_modules/left-pad")));
}

fn member(path: &str, name: &str, version: &str, deps: &[(&str, &str)]) -> WorkspaceMember {
    let mut manifest = Manifest::empty();
    manifest.name = Some(name.to_string());
    manifest.version = Some(version.to_string());
    manifest.dependencies = map(deps);
    WorkspaceMember { relative_path: path.to_string(), dir: format!("/w/{}", path), manifest }
}

#[test]
fn workspace_members_link_only_what_they_declare() {
    let workspace = Workspace {
        root_dir: "/w".to_string(),
        root_manifest: Manifest::empty(),
        members: vec![
            member("packages/ui", "ui", "1.0.0", &[("react", "^18.0.0"), ("core", "workspace:*")]),
            member("packages/core", "core", "2.0.0", &[]),
        ],
    };
    let mut packages = PackageTable::new();
    packages.insert(pkg("react", "18.2.0", &[], None));
    let mut importers = StrMap::new();
    importers.insert(".".to_string(), Vec::new());
    importers.insert("packages/ui".to_string(), vec![PackageId::new("react", "18.2.0")]);
    importers.insert("packages/core".to_string(), Vec::new());
    let resolution = WorkspaceResolutionResult {
        graph: DependencyGraph::new(),
        packages,
        importers,
        peer_warnings: Vec::new(),
    };
    let ops = link_workspace_packages(&workspace, &resolution, "/store");
    let links: Vec<(&String, &String)> = ops
        .iter()
        .filter_map(|op| match op {
            LinkOp::Symlink { target, link, .. } => Some((link, target)),
            _ => None,
        })
        .collect();
    assert_eq!(links.len(), 2);
    assert_eq!(links[0].0, "/w/packages/ui/node_modules/react");
    assert_eq!(links[0].1, "../../../node_modules/.pnpm/react@18.2.0/node_modules/react");
    assert_eq!(links[1].0, "/w/packages/ui/node_modules/core");
    assert_eq!(links[1].1, "../../core");
}

#[test]
fn path_helpers() {
    assert_eq!(parent_dir("/a/b/c"), Some("/a/b".to_string()));
    assert_eq!(parent_dir("/a"), Some("/".to_string()));
    assert_eq!(parent_dir("a"), Some(String::new()));
    assert_eq!(parent_dir("/"), None);
    assert_eq!(parent_dir("a/b/"), Some("a".to_string()));
    assert_eq!(store_package_dir("/s", "@x/y", "1.0.0"), "/s/packages/@x/y/1.0.0");
}

#[test]
fn installed_package_dirs() {
    assert_eq!(
        installed_package_dir("/p", &PackageId::new("@scope/util", "2.0.0")),
        "/p/node_modules/.pnpm/@scope+util@2.0.0/node_modules/@scope/util"
    );
}

#[test]
fn download_integrity_mismatch_is_an_integrity_error() {
    let id = PackageId::new("left-pad", "1.3.0");
    assert!(check_download(&id, b"hello", None).is_ok());
    let good = alchemy::integrity::compute_integrity(b"hello");
    assert!(check_download(&id, b"hello", Some(&good)).is_ok());
    match check_download(&id, b"tampered", Some(&good)) {
        Err(AlchemyError::IntegrityError(p, want, got)) => {
            assert_eq!(p, "left-pad@1.3.0");
            assert_eq!(want, good);
            assert_eq!(got, alchemy::integrity::compute_integrity(b"tampered"));
        }
        _ => panic!("expected an integrity error"),
    }
}
