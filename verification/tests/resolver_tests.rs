use std::collections::HashMap;

use alchemy::dependency::PeerDepMeta;
use alchemy::error::AlchemyError;
use alchemy::manifest::Manifest;
use alchemy::platform::Platform;
use alchemy::resolver::{
    pick_best_version, Action, Event, FetchedPackage, ResolutionResult, Resolver, VersionInfo,
};
use alchemy::strmap::StrMap;

/// A mock registry: name → versions (version, dependencies, peer dependencies).
struct MockFetcher(HashMap<String, Vec<(String, Vec<(String, String)>, Vec<(String, String)>)>>);

impl MockFetcher {
    fn new() -> Self {
        Self(HashMap::new())
    }

    fn with_package(mut self, name: &str, versions: Vec<(&str, Vec<(&str, &str)>)>) -> Self {
        let vs = versions
            .into_iter()
            .map(|(v, d)| {
                (
                    v.to_string(),
                    d.into_iter().map(|(a, b)| (a.to_string(), b.to_string())).collect(),
                    Vec::new(),
                )
            })
            .collect();
        self.0.insert(name.to_string(), vs);
        self
    }

    fn with_peer(mut self, name: &str, version: &str, peers: Vec<(&str, &str)>) -> Self {
        self.0.insert(
            name.to_string(),
            vec![(
                version.to_string(),
                Vec::new(),
                peers.into_iter().map(|(a, b)| (a.to_string(), b.to_string())).collect(),
            )],
        );
        self
    }

    fn fetch_versions(&self, name: &str) -> Result<Vec<VersionInfo>, AlchemyError> {
        match self.0.get(name) {
            None => Err(AlchemyError::PackageNotFound(name.to_string())),
            Some(vs) => Ok(vs
                .iter()
                .map(|(ver, deps, peers)| VersionInfo {
                    version: ver.clone(),
                    dependencies: to_map(deps),
                    peer_dependencies: to_map(peers),
                    optional_dependencies: StrMap::new(),
                    peer_dependencies_meta: StrMap::<PeerDepMeta>::new(),
                    tarball_url: format!("https://example.com/{}-{}.tgz", name, ver),
                    integrity: None,
                    bin: None,
                    os: None,
                    cpu: None,
                    engines: None,
                })
                .collect()),
        }
    }
}

fn to_map(pairs: &[(String, String)]) -> StrMap<String> {
    let mut m = StrMap::new();
    for (k, v) in pairs {
        m.insert(k.clone(), v.clone());
    }
    m
}

fn deps(pairs: &[(&str, &str)]) -> StrMap<String> {
    let mut m = StrMap::new();
    for (k, v) in pairs {
        m.insert(k.to_string(), v.to_string());
    }
    m
}

fn linux() -> Platform {
    Platform::from_rust("linux", "x86_64")
}

/// Drive the resolver to the end, answering its requests from the mock and from
/// the given package.json files (by path).
fn drive(
    mut resolver: Resolver,
    root: &StrMap<String>,
    fetcher: &MockFetcher,
    manifests: &HashMap<String, (Option<String>, Vec<(String, String)>)>,
) -> Result<ResolutionResult, AlchemyError> {
    resolver.start_resolve(root);
    let mut event: Option<Event> = None;
    let mut fetched: Vec<String> = Vec::new();
    for _ in 0..100_000 {
        assert!(resolver.room_left());
        match resolver.step(event.take()) {
            Action::Continue => {}
            Action::FetchVersions(name) => {
                // The versions of a package are asked for once.
                assert!(!fetched.contains(&name), "versions of {} asked for twice", name);
                fetched.push(name.clone());
                event = Some(Event::Versions(fetcher.fetch_versions(&name)));
            }
            Action::ReadManifest(path) => {
                let r = match manifests.get(&path) {
                    Some((version, ds)) => {
                        let mut m = Manifest::empty();
                        m.version = version.clone();
                        m.dependencies = to_map(ds);
                        Ok(m)
                    }
                    None => Err(AlchemyError::Io(format!("{}: not found", path))),
                };
                event = Some(Event::Manifest(r));
            }
            Action::FetchGit { url, .. } => {
                // A clone whose package.json has no version.
                event = Some(Event::Fetched(Ok(FetchedPackage {
                    manifest: Manifest::empty(),
                    source_path: format!("/tmp/clone-of-{}", url.len()),
                    commit: "0123456789abcdef".to_string(),
                })));
            }
            Action::FetchUrl { .. } => {
                let mut manifest = Manifest::empty();
                manifest.dependencies = to_map(&[("lodash".to_string(), "^4.0.0".to_string())]);
                event = Some(Event::Fetched(Ok(FetchedPackage {
                    manifest,
                    source_path: "/tmp/unpacked".to_string(),
                    commit: String::new(),
                })));
            }
            Action::Finished => {
                return resolver.take_result().unwrap();
            }
        }
    }
    panic!("resolution did not finish");
}

fn ids(result: &ResolutionResult) -> Vec<(String, String)> {
    (0..result.packages.len())
        .map(|i| {
            let id = &result.packages.get_index(i).id;
            (id.name.clone(), id.version.clone())
        })
        .collect()
}

#[test]
fn test_resolve_simple_package() {
    let fetcher = MockFetcher::new().with_package("lodash", vec![("4.17.21", vec![]), ("4.17.20", vec![])]);
    let result = drive(Resolver::new(linux()), &deps(&[("lodash", "^4.17.0")]), &fetcher, &HashMap::new()).unwrap();
    assert_eq!(result.packages.len(), 1);
    let id = result.direct_deps.first().unwrap();
    assert_eq!(id.name, "lodash");
    assert_eq!(id.version, "4.17.21"); // picks highest
}

#[test]
fn test_resolve_picks_highest_satisfying() {
    let fetcher = MockFetcher::new().with_package(
        "semver",
        vec![("7.6.0", vec![]), ("7.5.4", vec![]), ("6.3.1", vec![])],
    );
    let result = drive(Resolver::new(linux()), &deps(&[("semver", "^7.0.0")]), &fetcher, &HashMap::new()).unwrap();
    let id = result.direct_deps.first().unwrap();
    assert_eq!(id.version, "7.6.0");
}

#[test]
fn test_resolve_transitive_deps() {
    let fetcher = MockFetcher::new()
        .with_package("express", vec![("4.18.0", vec![("body-parser", "^1.20.0")])])
        .with_package("body-parser", vec![("1.20.2", vec![]), ("1.20.0", vec![])]);
    let result = drive(Resolver::new(linux()), &deps(&[("express", "^4.0.0")]), &fetcher, &HashMap::new()).unwrap();
    // Both express and body-parser should be in packages
    assert_eq!(result.packages.len(), 2);
    assert!(ids(&result).contains(&("body-parser".to_string(), "1.20.2".to_string())));
    assert_eq!(result.graph.edge_count(), 1);
}

#[test]
fn test_resolve_deduplicates_shared_dep() {
    // Both A and B depend on lodash — only one lodash should be resolved
    let fetcher = MockFetcher::new()
        .with_package("pkg-a", vec![("1.0.0", vec![("lodash", "^4.0.0")])])
        .with_package("pkg-b", vec![("1.0.0", vec![("lodash", "^4.0.0")])])
        .with_package("lodash", vec![("4.17.21", vec![])]);
    let result = drive(
        Resolver::new(linux()),
        &deps(&[("pkg-a", "^1.0.0"), ("pkg-b", "^1.0.0")]),
        &fetcher,
        &HashMap::new(),
    )
    .unwrap();
    let lodash_count = ids(&result).iter().filter(|(n, _)| n == "lodash").count();
    assert_eq!(lodash_count, 1);
}

#[test]
fn test_resolve_package_not_found_returns_error() {
    let fetcher = MockFetcher::new();
    let result = drive(Resolver::new(linux()), &deps(&[("nonexistent", "^1.0.0")]), &fetcher, &HashMap::new());
    assert!(result.is_err());
    assert!(matches!(result.err().unwrap(), AlchemyError::PackageNotFound(_)));
}

#[test]
fn test_resolve_no_matching_version_returns_error() {
    let fetcher = MockFetcher::new().with_package("old-pkg", vec![("0.5.0", vec![])]);
    // Require >=1.0.0 but only 0.5.0 exists
    let result = drive(Resolver::new(linux()), &deps(&[("old-pkg", "^1.0.0")]), &fetcher, &HashMap::new());
    assert!(result.is_err());
    assert!(matches!(result.err().unwrap(), AlchemyError::VersionNotFound(_, _)));
}

#[test]
fn test_cycle_detection_does_not_produce_fake_version() {
    // A depends on B, B depends on A — circular, but A is already resolved
    // when B tries to resolve it, so it reuses A's version correctly.
    let fetcher = MockFetcher::new()
        .with_package("pkg-a", vec![("1.0.0", vec![("pkg-b", "^1.0.0")])])
        .with_package("pkg-b", vec![("1.0.0", vec![("pkg-a", "^1.0.0")])]);
    let result = drive(Resolver::new(linux()), &deps(&[("pkg-a", "^1.0.0")]), &fetcher, &HashMap::new());
    // The critical invariant: no fake 0.0.0 version is emitted
    let has_fake = match result {
        Ok(r) => ids(&r).iter().any(|(_, v)| v == "0.0.0"),
        Err(_) => false, // error is also acceptable
    };
    assert!(!has_fake, "cycle detection must never produce fake 0.0.0 versions");
}

#[test]
fn test_file_dep_resolved_with_source_path() {
    let mut manifests = HashMap::new();
    manifests.insert(
        "/proj/./local-pkg/package.json".to_string(),
        (Some("2.3.4".to_string()), Vec::new()),
    );
    let fetcher = MockFetcher::new();
    let resolver = Resolver::new(linux()).with_project_dir("/proj".to_string());
    let result = drive(resolver, &deps(&[("local-pkg", "file:./local-pkg")]), &fetcher, &manifests).unwrap();

    assert_eq!(result.packages.len(), 1);
    let pkg = result.packages.get_index(0);
    assert_eq!(pkg.id.name, "local-pkg");
    assert_eq!(pkg.id.version, "2.3.4");
    assert!(pkg.source_path.is_some());
}

#[test]
fn test_npm_alias_resolves_to_aliased_package() {
    let fetcher = MockFetcher::new().with_package("react", vec![("18.2.0", vec![]), ("17.0.2", vec![])]);
    // npm:react@^17 should resolve to react@17.0.2
    let result = drive(Resolver::new(linux()), &deps(&[("my-react", "npm:react@^17.0.0")]), &fetcher, &HashMap::new()).unwrap();
    assert!(ids(&result).contains(&("react".to_string(), "17.0.2".to_string())));
}

#[test]
fn missing_peer_is_installed_or_warned() {
    let fetcher = MockFetcher::new()
        .with_peer("plugin", "1.0.0", vec![("host", "^2.0.0")])
        .with_package("host", vec![("2.1.0", vec![]), ("1.0.0", vec![])]);
    let result = drive(Resolver::new(linux()), &deps(&[("plugin", "^1.0.0")]), &fetcher, &HashMap::new()).unwrap();
    assert!(ids(&result).contains(&("host".to_string(), "2.1.0".to_string())));
    assert!(result.peer_warnings.is_empty());

    let result = drive(
        Resolver::new(linux()).with_auto_install_peers(false),
        &deps(&[("plugin", "^1.0.0")]),
        &fetcher,
        &HashMap::new(),
    )
    .unwrap();
    assert_eq!(result.packages.len(), 1);
    assert_eq!(result.peer_warnings.len(), 1);
    assert_eq!(result.peer_warnings[0].peer_name, "host");
    assert!(result.peer_warnings[0].found.is_none());
}

#[test]
fn peer_with_wrong_version_is_warned() {
    let fetcher = MockFetcher::new()
        .with_package("host", vec![("1.0.0", vec![])])
        .with_peer("plugin", "1.0.0", vec![("host", "^2.0.0")]);
    let result = drive(
        Resolver::new(linux()),
        &deps(&[("host", "^1.0.0"), ("plugin", "^1.0.0")]),
        &fetcher,
        &HashMap::new(),
    )
    .unwrap();
    assert_eq!(result.peer_warnings.len(), 1);
    assert_eq!(result.peer_warnings[0].found.as_deref(), Some("1.0.0"));
}

#[test]
fn git_dependency_without_fetcher_is_an_error() {
    let result = drive(
        Resolver::new(linux()),
        &deps(&[("repo", "github:user/repo")]),
        &MockFetcher::new(),
        &HashMap::new(),
    );
    match result {
        Err(AlchemyError::ResolutionFailed(msg)) => assert_eq!(
            msg,
            "cannot resolve git dependency 'repo': no NonRegistryFetcher configured"
        ),
        _ => panic!("expected a resolution failure"),
    }
}

#[test]
fn workspace_specifier_is_refused() {
    let result = drive(
        Resolver::new(linux()),
        &deps(&[("ui", "workspace:*")]),
        &MockFetcher::new(),
        &HashMap::new(),
    );
    assert!(matches!(result, Err(AlchemyError::ResolutionFailed(_))));
}

#[test]
fn incompatible_platform_is_an_error() {
    let mut vi = MockFetcher::new().with_package("fsevents", vec![("2.3.3", vec![])]).fetch_versions("fsevents").unwrap();
    vi[0].os = Some(vec!["darwin".to_string()]);
    assert_eq!(pick_best_version(&vi, "^2.0.0"), Some(0));
    let mut resolver = Resolver::new(linux());
    resolver.start_resolve(&deps(&[("fsevents", "^2.0.0")]));
    let mut event = None;
    let mut vi = Some(vi);
    loop {
        match resolver.step(event.take()) {
            Action::FetchVersions(_) => event = Some(Event::Versions(Ok(vi.take().unwrap()))),
            Action::Finished => break,
            _ => {}
        }
    }
    match resolver.take_result().unwrap() {
        Err(AlchemyError::Other(msg)) => assert_eq!(
            msg,
            "fsevents is not compatible with the current platform (linux/x64)"
        ),
        _ => panic!("expected a platform error"),
    }
}

#[test]
fn git_dependency_without_version_takes_its_commit() {
    let fetcher = MockFetcher::new();
    let resolver = Resolver::new(linux()).with_non_registry();
    let result = drive(resolver, &deps(&[("mylib", "github:user/mylib")]), &fetcher, &HashMap::new()).unwrap();
    assert_eq!(ids(&result), vec![("mylib".to_string(), "01234567".to_string())]);
    let pkg = result.packages.get_index(0);
    assert!(pkg.source_path.is_some());
    assert_eq!(pkg.tarball_url, "");
}

#[test]
fn tarball_dependency_keeps_its_url_and_its_declared_dependencies() {
    let fetcher = MockFetcher::new();
    let resolver = Resolver::new(linux()).with_non_registry();
    let result = drive(resolver, &deps(&[("pkg", "https://example.com/pkg.tgz")]), &fetcher, &HashMap::new()).unwrap();
    let pkg = result.packages.get_index(0);
    assert_eq!((pkg.id.name.as_str(), pkg.id.version.as_str()), ("pkg", "0.0.0"));
    assert_eq!(pkg.tarball_url, "https://example.com/pkg.tgz");
    assert_eq!(result.packages.len(), 1);
    assert_eq!(pkg.dependencies.get("lodash").map(|s| s.as_str()), Some("^4.0.0"));
}

#[test]
fn git_dependency_without_fetcher_fails() {
    let fetcher = MockFetcher::new();
    let err = drive(Resolver::new(linux()), &deps(&[("mylib", "github:user/mylib")]), &fetcher, &HashMap::new());
    assert!(matches!(err, Err(AlchemyError::ResolutionFailed(_))));
}

#[test]
fn versions_are_fetched_once_for_different_ranges() {
    let fetcher = MockFetcher::new()
        .with_package("pkg-a", vec![("1.0.0", vec![("lodash", "^4.0.0")])])
        .with_package("pkg-b", vec![("1.0.0", vec![("lodash", "^3.0.0")])])
        .with_package("lodash", vec![("4.17.21", vec![]), ("3.10.1", vec![])]);
    // `drive` fails if the versions of a package are asked for twice.
    let result = drive(
        Resolver::new(linux()),
        &deps(&[("pkg-a", "^1.0.0"), ("pkg-b", "^1.0.0")]),
        &fetcher,
        &HashMap::new(),
    )
    .unwrap();
    let got = ids(&result);
    assert!(got.contains(&("lodash".to_string(), "4.17.21".to_string())));
    assert!(got.contains(&("lodash".to_string(), "3.10.1".to_string())));
}

fn drive_workspace(
    mut resolver: Resolver,
    importers: &StrMap<StrMap<String>>,
    fetcher: &MockFetcher,
) -> Result<alchemy::resolver::WorkspaceResolutionResult, AlchemyError> {
    resolver.start_resolve_workspace(importers);
    let mut event: Option<Event> = None;
    for _ in 0..100_000 {
        assert!(resolver.room_left());
        match resolver.step(event.take()) {
            Action::Continue => {}
            Action::FetchVersions(name) => {
                event = Some(Event::Versions(fetcher.fetch_versions(&name)));
            }
            Action::Finished => return resolver.take_workspace_result().unwrap(),
            _ => panic!("unexpected request"),
        }
    }
    panic!("resolution did not finish");
}

#[test]
fn workspace_resolution_keeps_importers_and_shares_packages() {
    let fetcher = MockFetcher::new()
        .with_package("lodash", vec![("4.17.21", vec![])])
        .with_package("semver", vec![("7.6.0", vec![])]);
    let mut importers: StrMap<StrMap<String>> = StrMap::new();
    importers.insert(".".to_string(), deps(&[("lodash", "^4.0.0")]));
    importers.insert("packages/a".to_string(), deps(&[("lodash", "^4.17.0"), ("semver", "^7.0.0")]));
    let result = drive_workspace(Resolver::new(linux()), &importers, &fetcher).unwrap();
    assert_eq!(result.importers.len(), 2);
    assert_eq!(result.importers.get(".").unwrap().len(), 1);
    let a = result.importers.get("packages/a").unwrap();
    assert_eq!(a.len(), 2);
    assert_eq!(a[0].name, "lodash");
    assert_eq!(a[0].version, "4.17.21");
    // lodash is resolved once for both importers.
    assert_eq!(result.packages.len(), 2);
}

#[test]
fn single_importer_workspace_matches_single_project() {
    let fetcher = MockFetcher::new()
        .with_package("express", vec![("4.18.0", vec![("body-parser", "^1.20.0")])])
        .with_package("body-parser", vec![("1.20.2", vec![]), ("1.20.0", vec![])]);
    let root = deps(&[("express", "^4.0.0")]);
    let single = drive(Resolver::new(linux()), &root, &fetcher, &HashMap::new()).unwrap();
    let mut importers: StrMap<StrMap<String>> = StrMap::new();
    importers.insert(".".to_string(), deps(&[("express", "^4.0.0")]));
    let ws = drive_workspace(Resolver::new(linux()), &importers, &fetcher).unwrap();
    let ws_ids: Vec<(String, String)> = (0..ws.packages.len())
        .map(|i| {
            let id = &ws.packages.get_index(i).id;
            (id.name.clone(), id.version.clone())
        })
        .collect();
    assert_eq!(ids(&single), ws_ids);
    let direct = ws.importers.get(".").unwrap();
    assert_eq!(direct.len(), single.direct_deps.len());
    assert_eq!(direct[0].name, single.direct_deps[0].name);
    assert_eq!(direct[0].version, single.direct_deps[0].version);
}
