use alchemy::config::AlchemyConfig;
use alchemy::import::{extract_package_name, is_direct_dep};
use alchemy::platform::{map_cpu, map_os, matches_constraint, Platform};
use alchemy::specifier::{parse, DependencySpecifier};
use alchemy::strmap::StrMap;
use alchemy::manifest::Manifest;
use alchemy::workspace::{Workspace, WorkspaceMember};

#[test]
fn test_default_config() {
    let config = AlchemyConfig::from_home(Some("/home/user"));
    assert_eq!(config.default_registry, "https://registry.npmjs.org");
    assert!(config.auto_install_peers);
    assert!(!config.ignore_scripts);
    assert!(config.strict_ssl);
}

#[test]
fn test_parse_npmrc() {
    let mut config = AlchemyConfig::from_home(Some("/home/user"));
    config.apply_npmrc(
        r#"
# Comment line
registry=https://custom.registry.com
@myorg:registry=https://npm.myorg.com
//npm.myorg.com/:_authToken=secret-token
auto-install-peers=false
ignore-scripts=true
proxy=http://proxy.example.com:8080
"#,
        &StrMap::new(),
    );

    assert_eq!(config.default_registry, "https://custom.registry.com");
    assert_eq!(
        config.scoped_registries.get("myorg").unwrap(),
        "https://npm.myorg.com"
    );
    assert_eq!(
        config.auth_tokens.get("https://npm.myorg.com/").unwrap(),
        "secret-token"
    );
    assert!(!config.auto_install_peers);
    assert!(config.ignore_scripts);
    assert_eq!(
        config.proxy.as_deref(),
        Some("http://proxy.example.com:8080")
    );
}

#[test]
fn test_registry_for_package() {
    let mut config = AlchemyConfig::from_home(Some("/home/user"));
    config
        .scoped_registries
        .insert("myorg".to_string(), "https://npm.myorg.com".to_string());

    assert_eq!(
        config.registry_for_package("@myorg/pkg"),
        "https://npm.myorg.com"
    );
    assert_eq!(
        config.registry_for_package("express"),
        "https://registry.npmjs.org"
    );
}

#[test]
fn test_extract_package_name() {
    assert_eq!(
        extract_package_name("node_modules/express"),
        Some("express".to_string())
    );
    assert_eq!(
        extract_package_name("node_modules/@types/node"),
        Some("@types/node".to_string())
    );
    assert_eq!(
        extract_package_name("node_modules/a/node_modules/b"),
        Some("b".to_string())
    );
}

#[test]
fn test_is_direct_dep() {
    assert!(is_direct_dep("node_modules/express"));
    assert!(!is_direct_dep("node_modules/express/node_modules/debug"));
}

#[test]
fn test_matches_empty_constraint() {
    assert!(matches_constraint("darwin", &[]));
}

#[test]
fn test_matches_positive() {
    let constraints = vec!["linux".to_string(), "darwin".to_string()];
    assert!(matches_constraint("darwin", &constraints));
    assert!(matches_constraint("linux", &constraints));
    assert!(!matches_constraint("win32", &constraints));
}

#[test]
fn test_matches_negation() {
    let constraints = vec!["!win32".to_string()];
    assert!(matches_constraint("darwin", &constraints));
    assert!(matches_constraint("linux", &constraints));
    assert!(!matches_constraint("win32", &constraints));
}

#[test]
fn test_os_mapping() {
    assert_eq!(map_os("macos"), "darwin");
    assert_eq!(map_os("windows"), "win32");
    assert_eq!(map_os("linux"), "linux");
}

#[test]
fn test_cpu_mapping() {
    assert_eq!(map_cpu("x86_64"), "x64");
    assert_eq!(map_cpu("aarch64"), "arm64");
    assert_eq!(map_cpu("x86"), "ia32");
}

#[test]
fn test_registry_specifiers() {
    assert!(matches!(parse("^1.2.3"), DependencySpecifier::Registry(_)));
    assert!(matches!(parse("~1.0.0"), DependencySpecifier::Registry(_)));
    assert!(matches!(parse(">=2.0.0"), DependencySpecifier::Registry(_)));
    assert!(matches!(parse("latest"), DependencySpecifier::Registry(_)));
    assert!(matches!(parse("*"), DependencySpecifier::Registry(_)));
}

#[test]
fn test_git_specifiers() {
    match parse("github:user/repo") {
        DependencySpecifier::Git(spec) => {
            assert_eq!(spec.url, "https://github.com/user/repo.git");
            assert!(spec.commitish.is_none());
        }
        _ => panic!("Expected Git specifier"),
    }

    match parse("github:user/repo#v1.0.0") {
        DependencySpecifier::Git(spec) => {
            assert_eq!(spec.url, "https://github.com/user/repo.git");
            assert_eq!(spec.commitish.as_deref(), Some("v1.0.0"));
        }
        _ => panic!("Expected Git specifier"),
    }

    match parse("git+https://example.com/repo.git#main") {
        DependencySpecifier::Git(spec) => {
            assert_eq!(spec.url, "https://example.com/repo.git");
            assert_eq!(spec.commitish.as_deref(), Some("main"));
        }
        _ => panic!("Expected Git specifier"),
    }
}

#[test]
fn test_path_specifiers() {
    assert!(matches!(
        parse("file:../local-pkg"),
        DependencySpecifier::Path(_)
    ));
    assert!(matches!(parse("./local-pkg"), DependencySpecifier::Path(_)));
    assert!(matches!(
        parse("../local-pkg"),
        DependencySpecifier::Path(_)
    ));
}

#[test]
fn test_url_specifiers() {
    assert!(matches!(
        parse("https://example.com/pkg.tgz"),
        DependencySpecifier::Url(_)
    ));
}

#[test]
fn test_alias_specifiers() {
    match parse("npm:other-pkg@^1.0") {
        DependencySpecifier::Alias { package, spec } => {
            assert_eq!(package, "other-pkg");
            assert!(matches!(*spec, DependencySpecifier::Registry(_)));
        }
        _ => panic!("Expected Alias specifier"),
    }
}

#[test]
fn test_github_shorthand() {
    match parse("user/repo") {
        DependencySpecifier::Git(spec) => {
            assert_eq!(spec.url, "https://github.com/user/repo.git");
        }
        _ => panic!("Expected Git specifier"),
    }
}

#[test]
fn test_resolve_workspace_specifier() {
    assert_eq!(Workspace::resolve_workspace_specifier("*", "1.0.0"), "*");
    assert_eq!(
        Workspace::resolve_workspace_specifier("^", "1.2.3"),
        "^1.2.3"
    );
    assert_eq!(
        Workspace::resolve_workspace_specifier("~", "2.0.0"),
        "~2.0.0"
    );
    assert_eq!(
        Workspace::resolve_workspace_specifier("^1.0.0", "1.2.3"),
        "^1.0.0"
    );
}

#[test]
fn platform_from_rust_names() {
    let p = Platform::from_rust("macos", "aarch64");
    assert_eq!(p.os, "darwin");
    assert_eq!(p.cpu, "arm64");
    let linux = vec!["linux".to_string()];
    assert!(!p.is_compatible(Some(&linux), None));
    assert!(p.is_compatible(None, None));
}

#[test]
fn later_npmrc_files_override_earlier_ones() {
    let env = StrMap::new();
    let mut config = AlchemyConfig::from_home(Some("/home/user"));
    // Global, then user, then project file.
    config.apply_npmrc("registry=https://global.example.com\nproxy=http://proxy:8080\n", &env);
    config.apply_npmrc("strict-ssl=false\n", &env);
    assert_eq!(config.default_registry, "https://global.example.com");
    config.apply_npmrc("registry=https://first.example.com\n# note\nregistry = https://project.example.com\n", &env);
    assert_eq!(config.default_registry, "https://project.example.com");
    assert_eq!(config.proxy.as_deref(), Some("http://proxy:8080"));
    assert!(!config.strict_ssl);
}

fn manifest(name: &str, version: &str, deps: &[(&str, &str)], dev: &[(&str, &str)]) -> Manifest {
    let mut m = Manifest::empty();
    m.name = Some(name.to_string());
    m.version = Some(version.to_string());
    for (k, v) in deps {
        m.dependencies.insert(k.to_string(), v.to_string());
    }
    for (k, v) in dev {
        m.dev_dependencies.insert(k.to_string(), v.to_string());
    }
    m
}

#[test]
fn workspace_importers_are_root_then_members_without_workspace_links() {
    let ws = Workspace {
        root_dir: "/repo".to_string(),
        root_manifest: manifest("root", "0.0.0", &[("ui", "workspace:*")], &[("jest", "^29.0.0")]),
        members: vec![
            WorkspaceMember {
                relative_path: "packages/ui".to_string(),
                dir: "/repo/packages/ui".to_string(),
                manifest: manifest("ui", "1.2.0", &[("react", "^18.0.0")], &[]),
            },
            WorkspaceMember {
                relative_path: "packages/app".to_string(),
                dir: "/repo/packages/app".to_string(),
                manifest: manifest("app", "0.1.0", &[("ui", "workspace:^"), ("zod", "^3.0.0")], &[]),
            },
        ],
    };
    let importers = ws.collect_all_dependencies();
    assert_eq!(importers.len(), 3);
    let root = importers.get(".").unwrap();
    assert_eq!(root.len(), 1);
    assert_eq!(root.get("jest").map(|s| s.as_str()), Some("^29.0.0"));
    let ui = importers.get("packages/ui").unwrap();
    assert_eq!(ui.get("react").map(|s| s.as_str()), Some("^18.0.0"));
    let app = importers.get("packages/app").unwrap();
    assert_eq!(app.len(), 1);
    assert_eq!(app.get("zod").map(|s| s.as_str()), Some("^3.0.0"));
}
