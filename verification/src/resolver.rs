//! Dependency resolution: picking one version per package and building the graph.
use vstd::prelude::*;

use crate::dependency::{clone_opt_strings, PackageId, PeerDepMeta, ResolvedModel, ResolvedPackage};
use crate::error::AlchemyError;
use crate::graph::{has_node, DepEdge, DependencyGraph};
use crate::manifest::{clone_opt, BinField, Manifest};
use crate::packages::{has_id, lemma_with_package, with_package, PackageTable};
use crate::paths::{path_join, spec_join};
use crate::platform::Platform;
use crate::registry::{git_version, package_from_manifest};
use crate::semver::{
    best_result, is_best, is_candidate, lemma_best_unique, pick_best_index, spec_version_satisfies,
    version_satisfies,
};
use crate::platform::{spec_platform_compatible, views};
use crate::dependency::{opt_bin, opt_list, opt_map, opt_seq};
use crate::specifier::{parse, spec_parse, DependencySpecifier, SpecifierModel};
use crate::strmap::{lemma_ordered_keys, ordered_keys, StrMap, ViewClone};
use crate::text::{concat, lemma_lex_irreflexive, lex_lt, push_str, to_owned};

verus! {

/// Warning about a peer dependency that couldn't be satisfied
pub struct PeerWarning {
    pub package: PackageId,
    pub peer_name: String,
    pub required: String,
    pub found: Option<String>,
}

/// Result of dependency resolution
pub struct ResolutionResult {
    pub graph: DependencyGraph,
    pub packages: PackageTable,
    /// Direct dependencies of the root project
    pub direct_deps: Vec<PackageId>,
    /// Warnings about peer dependency issues
    pub peer_warnings: Vec<PeerWarning>,
}

/// Result of workspace (multi-root) dependency resolution.
pub struct WorkspaceResolutionResult {
    pub graph: DependencyGraph,
    pub packages: PackageTable,
    /// Direct deps per importer (importer key → list of direct dep PackageIds)
    pub importers: StrMap<Vec<PackageId>>,
    pub peer_warnings: Vec<PeerWarning>,
}

/// Info about a single version of a package from the registry
pub struct VersionInfo {
    pub version: String,
    pub dependencies: StrMap<String>,
    pub peer_dependencies: StrMap<String>,
    pub optional_dependencies: StrMap<String>,
    pub peer_dependencies_meta: StrMap<PeerDepMeta>,
    pub tarball_url: String,
    pub integrity: Option<String>,
    pub bin: Option<BinField>,
    pub os: Option<Vec<String>>,
    pub cpu: Option<Vec<String>>,
    pub engines: Option<StrMap<String>>,
}

/// The entries of a map, in key order.
pub open spec fn map_entries(m: Map<Seq<char>, Seq<char>>) -> Seq<(Seq<char>, Seq<char>)> {
    ordered_keys(m).map_values(|k: Seq<char>| (k, m[k]))
}

/// The value of a list of (name, text) pairs.
pub open spec fn entry_views(v: Seq<(String, String)>) -> Seq<(Seq<char>, Seq<char>)> {
    v.map_values(|e: (String, String)| (e.0@, e.1@))
}

/// The value of a list of importers and their dependencies.
pub open spec fn importer_views(v: Seq<(String, Vec<(String, String)>)>) -> Seq<
    (Seq<char>, Seq<(Seq<char>, Seq<char>)>),
> {
    v.map_values(|e: (String, Vec<(String, String)>)| (e.0@, entry_views(e.1@)))
}

/// The entries of a string map, in key order.
pub fn entries_of(m: &StrMap<String>) -> (r: Vec<(String, String)>)
    ensures
        entry_views(r@) == map_entries(m@),
        r@.len() == ordered_keys(m@).len(),
        forall|i: int|
            0 <= i < r@.len() ==> (#[trigger] r@[i]).0@ == ordered_keys(m@)[i] && r@[i].1@
                == m@[ordered_keys(m@)[i]],
{
    let n = m.len();
    let mut r: Vec<(String, String)> = Vec::new();
    let mut i: usize = 0;
    while i < n
        invariant
            i <= n == ordered_keys(m@).len(),
            m.key_seq() == ordered_keys(m@),
            r@.len() == i,
            forall|j: int|
                0 <= j < i ==> (#[trigger] r@[j]).0@ == ordered_keys(m@)[j] && r@[j].1@
                    == m@[ordered_keys(m@)[j]],
        decreases n - i,
    {
        let (k, v) = m.get_index(i);
        r.push((k.view_clone(), v.view_clone()));
        i = i + 1;
    }
    assert(entry_views(r@) =~= map_entries(m@));
    r
}

/// Convert a parsed DependencySpecifier back to a version requirement string
/// for registry resolution.
pub fn specifier_to_version_req(spec: &DependencySpecifier) -> (r: String)
    ensures
        r@ == match spec {
            DependencySpecifier::Registry(s) => s@,
            _ => "*"@,
        },
{
    match spec {
        DependencySpecifier::Registry(s) => s.view_clone(),
        _ => to_owned("*"),
    }
}

/// The version texts of a list of versions.
pub open spec fn version_texts(vs: Seq<VersionInfo>) -> Seq<Seq<char>> {
    vs.map_values(|v: VersionInfo| v.version@)
}

/// Pick the highest version satisfying the requirement (the first of equally high
/// ones); `None` when none satisfies it.
pub fn pick_best_version(versions: &[VersionInfo], requirement: &str) -> (r: Option<usize>)
    ensures
        best_result(version_texts(versions@), requirement@, r),
{
    let mut texts: Vec<String> = Vec::new();
    let mut i: usize = 0;
    while i < versions.len()
        invariant
            i <= versions@.len(),
            texts@.len() == i,
            forall|j: int| 0 <= j < i ==> (#[trigger] texts@[j])@ == versions@[j].version@,
        decreases versions@.len() - i,
    {
        texts.push(versions[i].version.view_clone());
        i = i + 1;
    }
    assert(views(texts@) =~= version_texts(versions@));
    pick_best_index(texts.as_slice(), requirement)
}

/// The package that `resolve_package` chooses among the known versions of `name`:
/// the highest version satisfying `req`, if it suits the platform; with its
/// dependencies, optional dependencies and peers (with whether each is optional).
fn choose_version(versions: &Vec<VersionInfo>, name: &String, req: &String, platform: &Platform) -> (r: Result<
    (ResolvedPackage, Vec<(String, String)>, Vec<(String, String)>, Vec<(String, String, bool)>),
    AlchemyError,
>)
    ensures
        match r {
            Ok(t) => exists|i: int|
                is_best(version_texts(versions@), req@, i) && t.0@ == version_package(
                    name@,
                    versions@[i],
                ) && t.0@.id == (
                    name@,
                    versions@[i].version@,
                ) && t.0@.tarball_url == versions@[i].tarball_url@ && t.0@.dependencies
                    == versions@[i].dependencies@ && t.0@.source_path is None && t.0@.os
                    == opt_list(versions@[i].os) && t.0@.cpu == opt_list(versions@[i].cpu)
                    && spec_platform_compatible(platform.os@, opt_list(versions@[i].os))
                    && spec_platform_compatible(platform.cpu@, opt_list(versions@[i].cpu)),
            Err(e) => {
                ||| (forall|j: int| !#[trigger] is_candidate(version_texts(versions@), req@, j))
                    && (e matches AlchemyError::VersionNotFound(n, q) && n@ == name@ && q@ == req@)
                ||| exists|i: int|
                    is_best(version_texts(versions@), req@, i) && !(spec_platform_compatible(
                        platform.os@,
                        opt_list(versions@[i].os),
                    ) && spec_platform_compatible(platform.cpu@, opt_list(versions@[i].cpu)))
                        && e is Other
            },
        },
{
    // Pick highest version satisfying the constraint
    let idx = match pick_best_version(versions.as_slice(), req.as_str()) {
        Some(k) => k,
        None => {
            return Err(AlchemyError::VersionNotFound(name.view_clone(), req.view_clone()));
        },
    };
    let chosen = &versions[idx];
    // Platform compatibility check
    if !platform.is_compatible(chosen.os.as_ref(), chosen.cpu.as_ref()) {
        let mut msg = concat(name.as_str(), " is not compatible with the current platform (");
        push_str(&mut msg, platform.os.as_str());
        push_str(&mut msg, "/");
        push_str(&mut msg, platform.cpu.as_str());
        push_str(&mut msg, ")");
        return Err(AlchemyError::Other(msg));
    }
    let id = PackageId::new(name.as_str(), chosen.version.as_str());
    let resolved = ResolvedPackage {
        id,
        tarball_url: chosen.tarball_url.view_clone(),
        integrity: clone_opt(&chosen.integrity),
        source_path: None,
        dependencies: chosen.dependencies.view_clone(),
        peer_dependencies: chosen.peer_dependencies.view_clone(),
        optional_dependencies: chosen.optional_dependencies.view_clone(),
        bin: clone_opt(&chosen.bin),
        os: clone_opt_strings(&chosen.os),
        cpu: clone_opt_strings(&chosen.cpu),
        engines: clone_opt(&chosen.engines),
    };
    let deps = entries_of(&chosen.dependencies);
    let optional = entries_of(&chosen.optional_dependencies);
    let peer_list = entries_of(&chosen.peer_dependencies);
    let mut peers: Vec<(String, String, bool)> = Vec::new();
    let mut k: usize = 0;
    while k < peer_list.len()
        invariant
            k <= peer_list@.len(),
        decreases peer_list@.len() - k,
    {
        let (pn, pr) = &peer_list[k];
        let is_optional = match chosen.peer_dependencies_meta.get(pn.as_str()) {
            Some(m) => m.optional,
            None => false,
        };
        peers.push((pn.view_clone(), pr.view_clone(), is_optional));
        k = k + 1;
    }
    Ok((resolved, deps, optional, peers))
}

/// `'` + name + `'`, between two texts.
fn quoted(before: &str, name: &str, after: &str) -> (r: String)
    ensures
        r@ == before@ + name@ + after@,
{
    let mut s = concat(before, name);
    push_str(&mut s, after);
    s
}

// ---------------------------------------------------------------------------
// The resolver as a state machine
// ---------------------------------------------------------------------------

/// What the resolver needs from outside to go on.
pub enum Action {
    /// More work can be done without outside input: step again.
    Continue,
    /// Fetch all versions of a package from the registry.
    FetchVersions(String),
    /// Read the package.json at this path.
    ReadManifest(String),
    /// Clone a git dependency.
    FetchGit { name: String, url: String, commitish: Option<String> },
    /// Download a tarball dependency.
    FetchUrl { name: String, url: String },
    /// The resolution is over; its result can be taken.
    Finished,
}

/// The outside result that the resolver asked for.
pub enum Event {
    Versions(Result<Vec<VersionInfo>, AlchemyError>),
    Manifest(Result<Manifest, AlchemyError>),
    Fetched(Result<FetchedPackage, AlchemyError>),
}

/// A git or tarball package, fetched and unpacked: its package.json, the directory it
/// was unpacked to, and (for git) the commit it was checked out at.
pub struct FetchedPackage {
    pub manifest: Manifest,
    pub source_path: String,
    pub commit: String,
}

/// The package that version `v` of `name` resolves to.
pub open spec fn version_package(name: Seq<char>, v: VersionInfo) -> ResolvedModel {
    ResolvedModel {
        id: (name, v.version@),
        tarball_url: v.tarball_url@,
        integrity: opt_seq(v.integrity),
        source_path: None,
        dependencies: v.dependencies@,
        peer_dependencies: v.peer_dependencies@,
        optional_dependencies: v.optional_dependencies@,
        bin: opt_bin(v.bin),
        os: opt_list(v.os),
        cpu: opt_list(v.cpu),
        engines: opt_map(v.engines),
    }
}

/// Package `p` is, among the versions `vs` listed for its name, the highest one that
/// satisfies some requirement, with that version's tarball and dependencies.
pub open spec fn picked_from(vs: Seq<VersionInfo>, p: ResolvedModel) -> bool {
    exists|req: Seq<char>, i: int|
        #[trigger] is_best(version_texts(vs), req, i) && p.id.1 == vs[i].version@ && p.tarball_url
            == vs[i].tarball_url@ && p.dependencies == vs[i].dependencies@
}

/// A resolved package suits the platform (os, cpu); one that comes from the registry
/// was picked from the versions listed for its name.
pub open spec fn resolved_ok(
    listed: Map<Seq<char>, Seq<VersionInfo>>,
    platform: (Seq<char>, Seq<char>),
    p: ResolvedModel,
) -> bool {
    &&& spec_platform_compatible(platform.0, p.os)
    &&& spec_platform_compatible(platform.1, p.cpu)
    &&& p.source_path is None ==> listed.contains_key(p.id.0) && picked_from(listed[p.id.0], p)
}

/// What the resolver knows of the registry only grows, and only by what a `Versions`
/// event handed it.
pub open spec fn learned(
    before: Map<Seq<char>, Seq<VersionInfo>>,
    after: Map<Seq<char>, Seq<VersionInfo>>,
    event: Option<Event>,
) -> bool {
    &&& forall|n: Seq<char>|
        #[trigger] before.contains_key(n) ==> after.contains_key(n) && after[n] == before[n]
    &&& forall|n: Seq<char>|
        #[trigger] after.contains_key(n) && !before.contains_key(n) ==> (event matches Some(
            Event::Versions(Ok(vs)),
        ) && after[n] == vs@)
}

/// The directory `file:` paths are resolved against: the project directory, else ".".
pub open spec fn path_base(project_dir: Option<Seq<char>>) -> Seq<char> {
    match project_dir {
        Some(d) => d,
        None => "."@,
    }
}

/// The version a fetched package takes: its package.json version; else, for git, the
/// first characters of its commit, and for a tarball 0.0.0.
pub open spec fn fetched_version(fp: FetchedPackage, git: bool) -> Seq<char> {
    if git {
        crate::registry::spec_git_version(opt_seq(fp.manifest.version), fp.commit@)
    } else {
        match fp.manifest.version {
            Some(v) => v@,
            None => "0.0.0"@,
        }
    }
}

/// The version a package read from a package.json takes: its version, else 0.0.0.
pub open spec fn manifest_version(m: Manifest) -> Seq<char> {
    match m.version {
        Some(v) => v@,
        None => "0.0.0"@,
    }
}

/// Version `v` suits the platform's os and cpu.
pub open spec fn fits(platform: (Seq<char>, Seq<char>), v: VersionInfo) -> bool {
    spec_platform_compatible(platform.0, opt_list(v.os)) && spec_platform_compatible(
        platform.1,
        opt_list(v.cpu),
    )
}

/// The edge kind of a dependency met in phase `phase`: dependencies, optional
/// dependencies, then peers.
pub open spec fn phase_kind(phase: u8) -> DepEdge {
    if phase == 0 {
        DepEdge::Normal
    } else if phase == 1 {
        DepEdge::Optional
    } else {
        DepEdge::Peer
    }
}

/// The last edge of `edges` goes from `parent` to `child`, of kind `kind`.
pub open spec fn last_edge_is(
    nodes: Seq<(Seq<char>, Seq<char>)>,
    edges: Seq<(usize, usize, DepEdge)>,
    parent: (Seq<char>, Seq<char>),
    child: (Seq<char>, Seq<char>),
    kind: DepEdge,
) -> bool {
    &&& edges.len() > 0
    &&& edges.last().0 < nodes.len() && nodes[edges.last().0 as int] == parent
    &&& edges.last().1 < nodes.len() && nodes[edges.last().1 as int] == child
    &&& edges.last().2 == kind
}

/// The position after `next` once a returned result is counted.
pub open spec fn counted(next: usize, ret: Option<Result<PackageId, AlchemyError>>) -> int {
    if ret is Some && next < usize::MAX {
        next + 1
    } else {
        next as int
    }
}

/// Where the resolution of one registry package stands.
pub enum PkgStage {
    Start,
    AwaitVersions,
    Choose,
    /// Resolving its dependencies (phase 0), optional dependencies (1), peers (2).
    Children {
        id: PackageId,
        deps: Vec<(String, String)>,
        optional: Vec<(String, String)>,
        peers: Vec<(String, String, bool)>,
        phase: u8,
        next: usize,
    },
}

/// One pending call of the resolution.
pub enum Frame {
    /// The importers and their dependencies, resolved in order.
    Roots {
        importers: Vec<(String, Vec<(String, String)>)>,
        imp: usize,
        next: usize,
        direct: Vec<PackageId>,
        done: StrMap<Vec<PackageId>>,
    },
    /// A call made with a fresh set of packages being visited.
    Scope,
    /// `resolve_specifier`, not started.
    Specifier { name: String, req: String },
    /// A `file:` dependency whose package.json was asked for.
    PathManifest { name: String, dir: String },
    /// A `file:` dependency whose own dependencies are being resolved.
    PathDeps { id: PackageId, deps: Vec<(String, String)>, next: usize },
    /// A git (or url) dependency that was asked for.
    Fetch { name: String, url: String, commitish: Option<String>, git: bool },
    /// An `npm:` alias waiting for its package.
    AliasOf { name: String },
    /// `resolve_package`.
    Package { name: String, req: String, stage: PkgStage },
}

/// A frame that resolves the dependencies of a package names a node of the graph.
spec fn frame_ok(f: Frame, nodes: Seq<(Seq<char>, Seq<char>)>) -> bool {
    match f {
        Frame::PathDeps { id, .. } => has_node(nodes, id@),
        Frame::Package { stage, .. } => match stage {
            PkgStage::Children { id, .. } => has_node(nodes, id@),
            _ => true,
        },
        _ => true,
    }
}

/// `b` extends `a`.
pub open spec fn grows(a: Seq<(Seq<char>, Seq<char>)>, b: Seq<(Seq<char>, Seq<char>)>) -> bool {
    a.len() <= b.len() && forall|i: int| 0 <= i < a.len() ==> b[i] == a[i]
}

proof fn lemma_grows_has_node(
    a: Seq<(Seq<char>, Seq<char>)>,
    b: Seq<(Seq<char>, Seq<char>)>,
    id: (Seq<char>, Seq<char>),
)
    requires
        grows(a, b),
        has_node(a, id),
    ensures
        has_node(b, id),
{
    let i = choose|i: int| 0 <= i < a.len() && a[i] == id;
    assert(b[i] == id);
}

proof fn lemma_frame_ok_grows(
    f: Frame,
    a: Seq<(Seq<char>, Seq<char>)>,
    b: Seq<(Seq<char>, Seq<char>)>,
)
    requires
        grows(a, b),
        frame_ok(f, a),
    ensures
        frame_ok(f, b),
{
    match f {
        Frame::PathDeps { id, .. } => lemma_grows_has_node(a, b, id@),
        Frame::Package { stage, .. } => match stage {
            PkgStage::Children { id, .. } => lemma_grows_has_node(a, b, id@),
            _ => {},
        },
        _ => {},
    }
}

/// Everything a resolver holds besides its stack of calls and the result handed back
/// by the last call.
pub struct ResolverTables {
    /// The packages resolved so far.
    pub resolved: Seq<ResolvedModel>,
    /// The version chosen for each package name.
    pub chosen: Map<Seq<char>, Seq<char>>,
    /// The nodes of the dependency graph.
    pub nodes: Seq<(Seq<char>, Seq<char>)>,
    /// The edges of the dependency graph.
    pub edges: Seq<(usize, usize, DepEdge)>,
    /// The peer-dependency warnings.
    pub warnings: Seq<PeerWarning>,
    /// The versions the registry listed, by name.
    pub listed: Map<Seq<char>, Seq<VersionInfo>>,
    /// The nested sets of packages being visited, the innermost last.
    pub visits: Seq<Map<Seq<char>, bool>>,
    /// The outcome of the last resolution, until it is taken.
    pub outcome: Option<Result<Map<Seq<char>, Seq<PackageId>>, AlchemyError>>,
    /// The platform (os, cpu).
    pub platform: (Seq<char>, Seq<char>),
    /// The directory `file:` paths are relative to.
    pub base_dir: Option<Seq<char>>,
    /// Whether git and tarball dependencies can be fetched.
    pub non_registry: bool,
    /// Whether missing peers are resolved.
    pub installs_peers: bool,
}

/// A resolver that starts on the given importers: one importers frame at the first
/// dependency of the first importer, nothing resolved, chosen, visited or warned, an
/// empty graph, no outcome and nothing handed back; what it knew of the registry and
/// its settings are kept from `before`.
pub open spec fn fresh_start(
    before: ResolverTables,
    r: Resolver,
    importers: Seq<(Seq<char>, Seq<(Seq<char>, Seq<char>)>)>,
) -> bool {
    &&& r.stack().len() == 1
    &&& r.stack()[0] matches Frame::Roots { importers: imps, imp: 0, next: 0, direct: d, done: dn }
        && importer_views(imps@) == importers && d@.len() == 0 && dn@ == Map::<
        Seq<char>,
        Seq<PackageId>,
    >::empty()
    &&& r.handed() is None
    &&& r.tables() == (ResolverTables {
        resolved: Seq::empty(),
        chosen: Map::empty(),
        nodes: Seq::empty(),
        edges: Seq::empty(),
        warnings: Seq::empty(),
        visits: Seq::empty(),
        outcome: None,
        ..before
    })
}

/// Resolving a workspace whose only importer is "." starts where resolving that
/// importer's dependencies as a single project starts: the two start functions
/// promise the same importer list, so the same tables, the same importers frame and
/// nothing handed back. The resolution state is shared by all importers in both.
pub proof fn lemma_single_importer_start(
    before: ResolverTables,
    single: Resolver,
    workspace: Resolver,
    deps: Map<Seq<char>, Seq<char>>,
)
    requires
        fresh_start(before, single, seq![("."@, map_entries(deps))]),
        fresh_start(
            before,
            workspace,
            ordered_keys(Map::<Seq<char>, Map<Seq<char>, Seq<char>>>::empty().insert("."@, deps)).map_values(
                |k: Seq<char>|
                    (
                        k,
                        map_entries(
                            Map::<Seq<char>, Map<Seq<char>, Seq<char>>>::empty().insert(
                                "."@,
                                deps,
                            )[k],
                        ),
                    ),
            ),
        ),
    ensures
        single.tables() == workspace.tables(),
        single.handed() == workspace.handed(),
        single.stack().len() == workspace.stack().len() == 1,
        single.stack()[0] matches Frame::Roots { importers: a, imp: 0, next: 0, .. }
            && workspace.stack()[0] matches Frame::Roots { importers: b, imp: 0, next: 0, .. }
            && importer_views(a@) == importer_views(b@),
{
    let m = Map::<Seq<char>, Map<Seq<char>, Seq<char>>>::empty().insert("."@, deps);
    assert(m.dom() =~= set!["."@]);
    lemma_ordered_keys(m);
    let ks = ordered_keys(m);
    assert(ks.contains("."@));
    assert(ks.len() == 1) by {
        if ks.len() > 1 {
            assert(ks.contains(ks[0]) && ks.contains(ks[1]));
            assert(lex_lt(ks[0], ks[1]));
            lemma_lex_irreflexive(ks[0]);
        }
    }
    assert(ks[0] == "."@);
    assert(ks.map_values(|k: Seq<char>| (k, map_entries(m[k]))) =~= seq![("."@, map_entries(deps))]);
}

/// What one step does, decided by the frame on top of the stack (the stack is not
/// empty): the `*_step` predicate of that kind of frame.
pub open spec fn frame_step(old_r: Resolver, fin: Resolver, a: Action, event: Option<Event>) -> bool {
    let rest = old_r.stack().drop_last();
    let ret = old_r.handed();
    &&& !(old_r.stack().last() is Roots) ==> fin.stack().len() >= rest.len()
    &&& match old_r.stack().last() {
        Frame::Roots { importers, imp, next, direct, done } => roots_step(
            old_r.tables(),
            fin,
            a,
            rest,
            ret,
            importers,
            imp,
            next,
            direct,
            done,
        ),
        Frame::Scope => a is Continue && fin.stack() == rest && fin.handed() == ret
            && fin.tables() == (ResolverTables {
            visits: if old_r.tables().visits.len() > 0 {
                old_r.tables().visits.drop_last()
            } else {
                old_r.tables().visits
            },
            ..old_r.tables()
        }),
        Frame::Specifier { name, req } => specifier_step(
            old_r.tables(),
            fin,
            a,
            rest,
            name,
            req,
        ),
        Frame::PathManifest { name, dir } => path_manifest_step(old_r.tables(), fin, a, rest, name, dir, event),
        Frame::PathDeps { id, deps, next } => path_deps_step(old_r.tables(), fin, a, rest, ret, id, deps, next),
        Frame::Fetch { name, url, commitish, git } => fetch_step(
            old_r.tables(),
            fin,
            a,
            rest,
            name,
            url,
            commitish,
            git,
            event,
        ),
        Frame::AliasOf { name } => a is Continue && fin.stack() == rest && match ret {
            Some(Ok(aid)) => fin.handed() == ret && fin.tables() == (ResolverTables {
                chosen: old_r.tables().chosen.insert(name@, aid.version@),
                ..old_r.tables()
            }),
            Some(Err(_)) => fin.handed() == ret && fin.tables() == old_r.tables(),
            None => fin.handed() is None && fin.tables() == old_r.tables(),
        },
        Frame::Package { name, req, stage } => match stage {
            PkgStage::Start => package_start_step(
                old_r.tables(),
                fin,
                a,
                rest,
                name,
                req,
            ),
            PkgStage::AwaitVersions => await_step(old_r.tables(), fin, a, rest, name, req, event),
            PkgStage::Choose => choose_step(
                old_r.tables(),
                fin,
                a,
                rest,
                name,
                req,
            ),
            PkgStage::Children { id, deps, optional, peers, phase, next } => children_step(old_r.tables(), fin, a, rest, ret, name, req, id, deps, optional, peers, phase, next),
        },
    }
}

/// One step of the resolver from `r0` to `r1`, with action `a`, given `event`: with
/// no frame left it is finished and changes nothing that it hands out; otherwise the
/// frame on top decides ([`frame_step`]).
pub open spec fn step_taken(r0: Resolver, r1: Resolver, a: Action, event: Option<Event>) -> bool {
    &&& r0.stack().len() == 0 ==> a is Finished && r1.stack().len() == 0 && r1.resolved()
        == r0.resolved() && r1.outcome_view() == r0.outcome_view()
    &&& r0.stack().len() > 0 ==> frame_step(r0, r1, a, event)
}

/// `s` keeps the frames of `rest` below and has no importers frame above them.
pub open spec fn grows_above(rest: Seq<Frame>, s: Seq<Frame>) -> bool {
    &&& s.len() >= rest.len()
    &&& forall|i: int| 0 <= i < rest.len() ==> s[i] == rest[i]
    &&& forall|i: int| rest.len() <= i < s.len() ==> !(#[trigger] s[i] is Roots)
}

proof fn lemma_grows_by(rest: Seq<Frame>, s: Seq<Frame>, k: int)
    requires
        0 <= k,
        s.len() == rest.len() + k,
        s.subrange(0, rest.len() as int) == rest,
        forall|i: int| rest.len() <= i < s.len() ==> !(#[trigger] s[i] is Roots),
    ensures
        grows_above(rest, s),
{
    assert forall|i: int| 0 <= i < rest.len() implies s[i] == rest[i] by {
        assert(s.subrange(0, rest.len() as int)[i] == s[i]);
    }
}

/// A step on any frame but the importers frame keeps the frames below it, adds no
/// importers frame, and leaves the outcome as it was.
proof fn lemma_frame_step_keeps(old_r: Resolver, fin: Resolver, a: Action, event: Option<Event>)
    requires
        old_r.stack().len() > 0,
        !(old_r.stack().last() is Roots),
        frame_step(old_r, fin, a, event),
    ensures
        grows_above(old_r.stack().drop_last(), fin.stack()),
        fin.tables().outcome == old_r.tables().outcome,
{
    let rest = old_r.stack().drop_last();
    let s = fin.stack();
    let n = rest.len() as int;
    let ret = old_r.handed();
    match old_r.stack().last() {
        Frame::PathDeps { id, deps, next } => {
            if !(ret matches Some(Err(_))) && counted(next, ret) < deps@.len() {
                assert(s.drop_last().drop_last() == rest.push(
                    Frame::PathDeps { id, deps, next: counted(next, ret) as usize },
                ));
                assert(s[n] == s.drop_last().drop_last()[n]);
            }
        },
        Frame::Package { name, req, stage } => {
            match stage {
                PkgStage::Children { .. } => {
                    if s.len() == n + 2 {
                        assert(s[n] == s.drop_last()[n]);
                    }
                },
                _ => {},
            }
        },
        _ => {},
    }
    assert(n <= s.len() <= n + 3);
    assert forall|i: int| 0 <= i < n implies s.subrange(0, n)[i] == rest[i] by {
        if s.len() >= n + 1 {
            assert(s[i] == s.drop_last()[i]);
        }
        if s.len() >= n + 2 {
            assert(s.drop_last()[i] == s.drop_last().drop_last()[i]);
        }
        if s.len() >= n + 3 {
            assert(s.drop_last().drop_last()[i] == s.drop_last().drop_last().drop_last()[i]);
        }
    }
    assert(s.subrange(0, n) =~= rest);
    lemma_grows_by(rest, s, s.len() - n);
}

/// The keys of the first `n` importers.
pub open spec fn keys_before(imps: Seq<(Seq<char>, Seq<(Seq<char>, Seq<char>)>)>, n: int) -> Set<
    Seq<char>,
> {
    Set::new(|k: Seq<char>| exists|j: int| 0 <= j < n && imps[j].0 == k)
}

/// A finished resolution's direct dependencies fit its importers: one list per
/// importer key, with one entry per dependency of that importer.
pub open spec fn outcome_fits(
    m: Map<Seq<char>, Seq<PackageId>>,
    imps: Seq<(Seq<char>, Seq<(Seq<char>, Seq<char>)>)>,
) -> bool {
    &&& m.dom() == keys_before(imps, imps.len() as int)
    &&& forall|j: int| 0 <= j < imps.len() ==> #[trigger] m[imps[j].0].len() == imps[j].1.len()
}

/// The importers frame of a resolution of `imps`: the importers done so far each
/// have one direct dependency per dependency, the current one as many as were
/// resolved.
pub open spec fn roots_ok(f: Frame, imps: Seq<(Seq<char>, Seq<(Seq<char>, Seq<char>)>)>) -> bool {
    match f {
        Frame::Roots { importers, imp, next, direct, done } => {
            &&& importer_views(importers@) == imps
            &&& imp <= imps.len()
            &&& imp < imps.len() ==> next <= imps[imp as int].1.len() && direct@.len() == next
            &&& done@.dom() == keys_before(imps, imp as int)
            &&& forall|j: int| 0 <= j < imp ==> #[trigger] done@[imps[j].0].len() == imps[j].1.len()
        },
        _ => false,
    }
}

/// The importers frame is waiting for the result of one of its dependencies.
pub open spec fn roots_busy(f: Frame, imps: Seq<(Seq<char>, Seq<(Seq<char>, Seq<char>)>)>) -> bool {
    match f {
        Frame::Roots { imp, next, .. } => imp < imps.len() && next < imps[imp as int].1.len(),
        _ => false,
    }
}

/// What holds of a resolution of `imps` at every step: once finished with success,
/// its direct dependencies fit the importers; while it runs, the importers frame is
/// at the bottom of the stack and nowhere else.
pub open spec fn run_ok(r: Resolver, imps: Seq<(Seq<char>, Seq<(Seq<char>, Seq<char>)>)>) -> bool {
    match r.outcome_view() {
        Some(Ok(m)) => r.stack().len() == 0 && outcome_fits(m, imps),
        Some(Err(_)) => r.stack().len() == 0,
        None => {
            &&& r.stack().len() >= 1
            &&& roots_ok(r.stack()[0], imps)
            &&& forall|i: int| 1 <= i < r.stack().len() ==> !(#[trigger] r.stack()[i] is Roots)
            &&& (r.stack().len() > 1 || r.handed() is Some) ==> roots_busy(r.stack()[0], imps)
        },
    }
}

/// Importer keys are distinct and each importer's list fits in memory.
pub open spec fn importers_valid(imps: Seq<(Seq<char>, Seq<(Seq<char>, Seq<char>)>)>) -> bool {
    &&& forall|i: int, j: int| 0 <= i < j < imps.len() ==> #[trigger] imps[i].0 != #[trigger] imps[j].0
    &&& forall|j: int| 0 <= j < imps.len() ==> (#[trigger] imps[j]).1.len() < usize::MAX
}

proof fn lemma_run_ok_start(before: ResolverTables, r: Resolver, imps: Seq<(Seq<char>, Seq<(Seq<char>, Seq<char>)>)>)
    requires
        fresh_start(before, r, imps),
    ensures
        run_ok(r, imps),
{
    assert(keys_before(imps, 0) =~= Set::<Seq<char>>::empty());
    assert(r.tables().outcome == r.outcome_view());
}

proof fn lemma_run_ok_step(
    r0: Resolver,
    r1: Resolver,
    a: Action,
    event: Option<Event>,
    imps: Seq<(Seq<char>, Seq<(Seq<char>, Seq<char>)>)>,
)
    requires
        importers_valid(imps),
        run_ok(r0, imps),
        step_taken(r0, r1, a, event),
    ensures
        run_ok(r1, imps),
{
    assert(r0.tables().outcome == r0.outcome_view());
    assert(r1.tables().outcome == r1.outcome_view());
    if r0.outcome_view() is None {
        let s0 = r0.stack();
        let rest = s0.drop_last();
        if s0.last() is Roots {
            assert(s0.len() == 1) by {
                if s0.len() > 1 {
                    assert(!(s0[s0.len() - 1] is Roots));
                }
            }
            assert(rest.len() == 0);
            assert(s0.last() == s0[0]);
            match s0[0] {
                Frame::Roots { importers, imp, next, direct, done } => {
                    let ret = r0.handed();
                    let n2 = counted(next, ret);
                    let iv = importer_views(importers@);
                    assert(iv.len() == importers@.len());
                    if imp < importers@.len() {
                        assert(iv[imp as int] == (importers@[imp as int].0@, entry_views(importers@[imp as int].1@)));
                        assert(iv[imp as int].1.len() == importers@[imp as int].1@.len());
                    }
                    if !(ret matches Some(Err(_))) && imp < importers@.len() {
                        let len_imp = imps[imp as int].1.len();
                        assert(n2 <= len_imp);
                        if n2 < len_imp {
                            let s1 = r1.stack();
                            assert(s1.len() == 3);
                            match s1[0] {
                                Frame::Roots { importers: i1, imp: i2, next: x2, direct: d2, done: dn2 } => {
                                    assert(d2@.len() == n2);
                                },
                                _ => {},
                            }
                            assert(r1.tables().outcome == r0.tables().outcome);
                        } else {
                            let s1 = r1.stack();
                            assert(s1.len() == 1);
                            assert(s1.last() == s1[0]);
                            match s1[0] {
                                Frame::Roots { importers: i1, imp: i2, next: x2, direct: d2, done: dn2 } => {
                                    let key = importers@[imp as int].0@;
                                    assert(key == imps[imp as int].0);
                                    assert(dn2@.dom() =~= keys_before(imps, imp + 1)) by {
                                        assert forall|k: Seq<char>| #[trigger] dn2@.dom().contains(k) <==> keys_before(imps, imp + 1).contains(k) by {
                                            if k == key {
                                                assert(imps[imp as int].0 == k);
                                            }
                                            if keys_before(imps, imp + 1).contains(k) && k != key {
                                                let j = choose|j: int| 0 <= j < imp + 1 && imps[j].0 == k;
                                                assert(keys_before(imps, imp as int).contains(k));
                                            }
                                            if done@.dom().contains(k) {
                                                assert(keys_before(imps, imp as int).contains(k));
                                                let j = choose|j: int| 0 <= j < imp && imps[j].0 == k;
                                                assert(keys_before(imps, imp + 1).contains(k));
                                            }
                                        }
                                    }
                                    assert forall|j: int| 0 <= j < imp + 1 implies #[trigger] dn2@[imps[j].0].len() == imps[j].1.len() by {
                                        if j < imp {
                                            assert(imps[j].0 != imps[imp as int].0);
                                        }
                                    }
                                },
                                _ => {},
                            }
                            assert(r1.tables().outcome == r0.tables().outcome);
                        }
                    } else if !(ret matches Some(Err(_))) {
                        assert(imp == imps.len());
                    }
                },
                _ => {},
            }
        } else {
            lemma_frame_step_keeps(r0, r1, a, event);
            let s1 = r1.stack();
            assert(s1[0] == s0[0]) by {
                assert(rest[0] == s0[0]);
            }
            assert forall|i: int| 1 <= i < s1.len() implies !(#[trigger] s1[i] is Roots) by {
                if i < rest.len() {
                    assert(rest[i] == s0[i]);
                }
            }
        }
    }
}

/// A resolution of several importers that succeeds hands back, for each importer key
/// and for no other, a list of direct dependencies with one entry per dependency of
/// that importer: `r0` is a resolver just started on the importers `imps` (with
/// distinct keys), and each of the following resolvers is one step on from the last,
/// the last one finished with success.
pub proof fn lemma_resolution_covers_importers(
    before: ResolverTables,
    rs: Seq<Resolver>,
    actions: Seq<Action>,
    events: Seq<Option<Event>>,
    imps: Seq<(Seq<char>, Seq<(Seq<char>, Seq<char>)>)>,
    k: int,
)
    requires
        importers_valid(imps),
        0 <= k < rs.len(),
        rs.len() == actions.len() + 1,
        events.len() == actions.len(),
        fresh_start(before, rs[0], imps),
        forall|i: int| 0 <= i < actions.len() ==> step_taken(rs[i], #[trigger] rs[i + 1], actions[i], events[i]),
    ensures
        rs[k].outcome_view() matches Some(Ok(m)) ==> outcome_fits(m, imps),
        run_ok(rs[k], imps),
    decreases k,
{
    if k == 0 {
        lemma_run_ok_start(before, rs[0], imps);
    } else {
        lemma_resolution_covers_importers(before, rs, actions, events, imps, k - 1);
        let j = k - 1;
        assert(step_taken(rs[j], rs[j + 1], actions[j], events[j]));
        assert(rs[j + 1] == rs[k]);
        lemma_run_ok_step(rs[j], rs[k], actions[j], events[j], imps);
    }
}

/// Greedy DFS resolver: for each dependency, pick the highest version that
/// satisfies the constraint, then recursively resolve its dependencies.
///
/// The resolver does no I/O: `step` says what it needs (registry versions, a
/// package.json, a git or tarball package) and is handed the answer in the next step.
pub struct Resolver {
    /// Whether to auto-install missing peer dependencies
    auto_install_peers: bool,
    /// Whether git/url dependencies can be fetched
    non_registry: bool,
    /// Base directory for resolving file: relative paths
    project_dir: Option<String>,
    /// The platform packages are installed for
    platform: Platform,
    /// Cache: package name → all versions (fetched once)
    version_cache: StrMap<Vec<VersionInfo>>,
    graph: DependencyGraph,
    packages: PackageTable,
    resolved_versions: StrMap<String>,
    peer_warnings: Vec<PeerWarning>,
    visiting: Vec<StrMap<bool>>,
    frames: Vec<Frame>,
    ret: Option<Result<PackageId, AlchemyError>>,
    workspace: bool,
    outcome: Option<Result<StrMap<Vec<PackageId>>, AlchemyError>>,
}

impl Resolver {
    /// Every resolved package, and every package whose dependencies are being
    /// resolved, is a node of the graph.
    pub closed spec fn wf(&self) -> bool {
        &&& forall|i: int|
            0 <= i < self.packages.items().len() ==> has_node(
                self.graph.nodes(),
                #[trigger] self.packages.items()[i].id,
            )
        &&& forall|i: int|
            0 <= i < self.frames@.len() ==> frame_ok(#[trigger] self.frames@[i], self.graph.nodes())
        &&& forall|i: int|
            0 <= i < self.packages.items().len() ==> resolved_ok(
                self.listed(),
                self.platform_model(),
                #[trigger] self.packages.items()[i],
            )
    }

    /// The versions the registry listed, by package name, as far as they were asked for.
    pub closed spec fn listed(&self) -> Map<Seq<char>, Seq<VersionInfo>> {
        self.version_cache@
    }

    /// The platform (os, cpu) packages are resolved for.
    pub closed spec fn platform_model(&self) -> (Seq<char>, Seq<char>) {
        (self.platform.os@, self.platform.cpu@)
    }

    /// Whether missing peer dependencies are resolved as well.
    pub closed spec fn installs_peers(&self) -> bool {
        self.auto_install_peers
    }

    /// Whether git and tarball dependencies can be fetched.
    pub closed spec fn fetches_non_registry(&self) -> bool {
        self.non_registry
    }

    /// The directory that `file:` paths are relative to, when one was given.
    pub closed spec fn base_dir(&self) -> Option<Seq<char>> {
        match self.project_dir {
            Some(d) => Some(d@),
            None => None,
        }
    }

    /// The outcome of the last resolution, until it is taken: an error, or the
    /// direct dependencies of each importer.
    pub closed spec fn outcome_view(&self) -> Option<Result<Map<Seq<char>, Seq<PackageId>>, AlchemyError>> {
        match self.outcome {
            Some(Ok(done)) => Some(Ok(done@)),
            Some(Err(e)) => Some(Err(e)),
            None => None,
        }
    }

    /// The packages resolved so far.
    pub closed spec fn resolved(&self) -> Seq<ResolvedModel> {
        self.packages.items()
    }

    /// The nodes of the dependency graph built so far.
    pub closed spec fn graph_nodes(&self) -> Seq<(Seq<char>, Seq<char>)> {
        self.graph.nodes()
    }

    /// The edges of the dependency graph built so far.
    pub closed spec fn graph_edges(&self) -> Seq<(usize, usize, DepEdge)> {
        self.graph.edges()
    }

    /// The peer-dependency warnings so far.
    pub closed spec fn warnings(&self) -> Seq<PeerWarning> {
        self.peer_warnings@
    }

    /// Everything the resolver holds besides its stack and the result handed back.
    pub closed spec fn tables(&self) -> ResolverTables {
        ResolverTables {
            resolved: self.packages.items(),
            chosen: self.resolved_versions@,
            nodes: self.graph.nodes(),
            edges: self.graph.edges(),
            warnings: self.peer_warnings@,
            listed: self.version_cache@,
            visits: self.visiting@.map_values(|m: StrMap<bool>| m@),
            outcome: self.outcome_view(),
            platform: self.platform_model(),
            base_dir: self.base_dir(),
            non_registry: self.non_registry,
            installs_peers: self.auto_install_peers,
        }
    }

    /// The pending calls of the resolution, the innermost last.
    pub closed spec fn stack(&self) -> Seq<Frame> {
        self.frames@
    }

    /// What the call that just ended handed back to its caller, if anything.
    pub closed spec fn handed(&self) -> Option<Result<PackageId, AlchemyError>> {
        self.ret
    }

    /// The version chosen for each package name so far.
    pub closed spec fn chosen(&self) -> Map<Seq<char>, Seq<char>> {
        self.resolved_versions@
    }

    /// `name` is being visited in the innermost set of visits (cycle detection).
    pub closed spec fn in_visit(&self, name: Seq<char>) -> bool {
        self.visiting@.len() > 0 && self.visiting@.last()@.contains_key(name)
    }

    /// The number of nested sets of visits.
    pub closed spec fn visit_depth(&self) -> nat {
        self.visiting@.len()
    }

    /// The graph can take one more node and one more edge.
    pub closed spec fn has_room(&self) -> bool {
        self.graph.nodes().len() < u32::MAX && self.graph.edges().len() < u32::MAX
    }

    /// Number of packages in the graph.
    pub closed spec fn node_total(&self) -> nat {
        self.graph.nodes().len()
    }

    /// Number of edges in the graph.
    pub closed spec fn edge_total(&self) -> nat {
        self.graph.edges().len()
    }

    /// The resolution has ended (or not started).
    pub closed spec fn is_idle(&self) -> bool {
        self.frames@.len() == 0
    }

    pub fn new(platform: Platform) -> (r: Resolver)
        ensures
            r.wf(),
            r.has_room(),
            r.is_idle(),
            r.listed() == Map::<Seq<char>, Seq<VersionInfo>>::empty(),
            r.platform_model() == (platform.os@, platform.cpu@),
            r.installs_peers(),
            !r.fetches_non_registry(),
            r.base_dir() is None,
            r.outcome_view() is None,
    {
        let r = Resolver {
            auto_install_peers: true,
            non_registry: false,
            project_dir: None,
            platform,
            version_cache: StrMap::new(),
            graph: DependencyGraph::new(),
            packages: PackageTable::new(),
            resolved_versions: StrMap::new(),
            peer_warnings: Vec::new(),
            visiting: Vec::new(),
            frames: Vec::new(),
            ret: None,
            workspace: false,
            outcome: None,
        };
        r
    }

    pub fn with_auto_install_peers(self, auto_install: bool) -> (r: Resolver)
        requires
            self.wf(),
        ensures
            r.wf(),
            r.has_room() == self.has_room(),
            r.is_idle() == self.is_idle(),
            r.listed() == self.listed(),
            r.platform_model() == self.platform_model(),
            r.installs_peers() == auto_install,
            r.fetches_non_registry() == self.fetches_non_registry(),
            r.base_dir() == self.base_dir(),
            r.outcome_view() == self.outcome_view(),
    {
        let mut s = self;
        s.auto_install_peers = auto_install;
        s
    }

    /// Git and url dependencies can be fetched (the caller holds the fetcher).
    pub fn with_non_registry(self) -> (r: Resolver)
        requires
            self.wf(),
        ensures
            r.wf(),
            r.has_room() == self.has_room(),
            r.is_idle() == self.is_idle(),
            r.listed() == self.listed(),
            r.platform_model() == self.platform_model(),
            r.installs_peers() == self.installs_peers(),
            r.fetches_non_registry(),
            r.base_dir() == self.base_dir(),
            r.outcome_view() == self.outcome_view(),
    {
        let mut s = self;
        s.non_registry = true;
        s
    }

    pub fn with_project_dir(self, dir: String) -> (r: Resolver)
        requires
            self.wf(),
        ensures
            r.wf(),
            r.has_room() == self.has_room(),
            r.is_idle() == self.is_idle(),
            r.listed() == self.listed(),
            r.platform_model() == self.platform_model(),
            r.installs_peers() == self.installs_peers(),
            r.fetches_non_registry() == self.fetches_non_registry(),
            r.base_dir() == Some(dir@),
            r.outcome_view() == self.outcome_view(),
    {
        let mut s = self;
        s.project_dir = Some(dir);
        s
    }

    /// Whether the graph can take one more node and one more edge.
    pub fn room_left(&self) -> (b: bool)
        ensures
            b == self.has_room(),
    {
        self.graph.node_count() < 4294967295 && self.graph.edge_count() < 4294967295
    }

    fn reset(&mut self, importers: Vec<(String, Vec<(String, String)>)>, workspace: bool)
        ensures
            fresh_start(old(self).tables(), *final(self), importer_views(importers@)),
            final(self).wf(),
            final(self).listed() == old(self).listed(),
            final(self).platform_model() == old(self).platform_model(),
            final(self).has_room(),
    {
        self.graph = DependencyGraph::new();
        self.packages = PackageTable::new();
        self.resolved_versions = StrMap::new();
        self.peer_warnings = Vec::new();
        self.visiting = Vec::new();
        self.ret = None;
        self.workspace = workspace;
        self.outcome = None;
        let mut frames: Vec<Frame> = Vec::new();
        frames.push(
            Frame::Roots {
                importers,
                imp: 0,
                next: 0,
                direct: Vec::new(),
                done: StrMap::new(),
            },
        );
        self.frames = frames;
        proof {
            assert(self.visiting@.map_values(|m: StrMap<bool>| m@) =~= Seq::<Map<Seq<char>, bool>>::empty());
            assert(self.peer_warnings@ =~= Seq::<PeerWarning>::empty());
        }
    }

    /// Remembers a package as resolved, as a node of the graph.
    fn record_package(&mut self, pkg: ResolvedPackage)
        requires
            old(self).wf(),
            has_node(old(self).graph.nodes(), pkg@.id),
            resolved_ok(old(self).listed(), old(self).platform_model(), pkg@),
        ensures
            final(self).wf(),
            final(self).listed() == old(self).listed(),
            final(self).platform_model() == old(self).platform_model(),
            final(self).graph == old(self).graph,
            final(self).frames == old(self).frames,
            final(self).ret == old(self).ret,
            final(self).visiting == old(self).visiting,
            final(self).resolved_versions == old(self).resolved_versions,
            final(self).version_cache == old(self).version_cache,
            has_id(old(self).packages.items(), pkg@.id) ==> exists|i: int|
                0 <= i < old(self).packages.items().len() && old(self).packages.items()[i].id
                    == pkg@.id && final(self).packages.items() == old(self).packages.items().update(
                    i,
                    pkg@,
                ),
            !has_id(old(self).packages.items(), pkg@.id) ==> final(self).packages.items() == old(self).packages.items().push(pkg@),
            *final(self) == (Resolver { packages: final(self).packages, ..*old(self) }),
            has_id(final(self).packages.items(), pkg@.id),
            final(self).packages.items() == with_package(old(self).packages.items(), pkg@),
            final(self).tables() == (ResolverTables { resolved: final(self).tables().resolved, ..old(self).tables() }),
    {
        let ghost id = pkg@.id;
        let ghost pm = pkg@;
        proof {
            use_type_invariant(&self.packages);
            self.packages.lemma_distinct();
        }
        self.packages.insert(pkg);
        proof {
            if has_id(old(self).packages.items(), id) {
                let j = choose|j: int|
                    0 <= j < old(self).packages.items().len()
                        && old(self).packages.items()[j].id == id
                        && self.packages.items() == old(self).packages.items().update(j, pm);
                assert(self.packages.items()[j].id == id);
                lemma_with_package(old(self).packages.items(), pm, j);
            } else {
                assert(self.packages.items()[old(self).packages.items().len() as int].id == id);
            }
            let items = self.packages.items();
            assert forall|i: int| 0 <= i < items.len() implies has_node(
                self.graph.nodes(),
                #[trigger] items[i].id,
            ) && resolved_ok(self.listed(), self.platform_model(), items[i]) by {
                if has_id(old(self).packages.items(), id) {
                    let j = choose|j: int|
                        0 <= j < old(self).packages.items().len()
                            && old(self).packages.items()[j].id == id
                            && self.packages.items() == old(self).packages.items().update(
                            j,
                            items[j],
                        );
                    if i != j {
                        assert(items[i] == old(self).packages.items()[i]);
                    }
                } else {
                    if i < old(self).packages.items().len() {
                        assert(items[i] == old(self).packages.items()[i]);
                    }
                }
            }
        }
    }

    /// Adds a package to the graph.
    fn add_node(&mut self, id: &PackageId)
        requires
            old(self).wf(),
            old(self).graph.nodes().len() < u32::MAX,
        ensures
            final(self).wf(),
            final(self).listed() == old(self).listed(),
            final(self).platform_model() == old(self).platform_model(),
            has_node(final(self).graph.nodes(), id@),
            grows(old(self).graph.nodes(), final(self).graph.nodes()),
            final(self).graph.nodes().len() <= old(self).graph.nodes().len() + 1,
            final(self).graph.edges() == old(self).graph.edges(),
            final(self).packages == old(self).packages,
            final(self).frames == old(self).frames,
            final(self).ret == old(self).ret,
            final(self).visiting == old(self).visiting,
            final(self).resolved_versions == old(self).resolved_versions,
            final(self).version_cache == old(self).version_cache,
            final(self).peer_warnings == old(self).peer_warnings,
            final(self).tables() == (ResolverTables { nodes: final(self).tables().nodes, ..old(self).tables() }),
    {
        let ghost before = self.graph.nodes();
        let ix = self.graph.add_package(id.view_clone());
        proof {
            let after = self.graph.nodes();
            assert(grows(before, after));
            assert(has_node(after, id@)) by {
                assert(after[ix as int] == id@);
            }
            assert forall|i: int| 0 <= i < self.packages.items().len() implies has_node(
                after,
                #[trigger] self.packages.items()[i].id,
            ) by {
                lemma_grows_has_node(before, after, self.packages.items()[i].id);
            }
            assert forall|i: int| 0 <= i < self.frames@.len() implies frame_ok(
                #[trigger] self.frames@[i],
                after,
            ) by {
                lemma_frame_ok_grows(self.frames@[i], before, after);
            }
        }
    }

    /// Sets the result of the call that just ended.
    fn give(&mut self, r: Result<PackageId, AlchemyError>) -> (a: Action)
        requires
            old(self).wf(),
        ensures
            a matches Action::FetchVersions(n) ==> !final(self).listed().contains_key(n@),
            final(self).wf(),
            final(self).listed() == old(self).listed(),
            final(self).platform_model() == old(self).platform_model(),
            final(self).graph == old(self).graph,
            a is Continue,
            *final(self) == (Resolver { ret: Some(r), ..*old(self) }),
            final(self).tables() == old(self).tables(),
    {
        self.ret = Some(r);
        Action::Continue
    }

    /// Pushes a frame that names no package.
    fn push_frame(&mut self, f: Frame)
        requires
            old(self).wf(),
            frame_ok(f, old(self).graph.nodes()),
        ensures
            final(self).wf(),
            final(self).listed() == old(self).listed(),
            final(self).platform_model() == old(self).platform_model(),
            final(self).graph == old(self).graph,
            final(self).frames@ == old(self).frames@.push(f),
            *final(self) == (Resolver { frames: final(self).frames, ..*old(self) }),
            final(self).tables() == old(self).tables(),
    {
        self.frames.push(f);
        proof {
            assert forall|i: int| 0 <= i < self.frames@.len() implies frame_ok(
                #[trigger] self.frames@[i],
                self.graph.nodes(),
            ) by {
                if i < old(self).frames@.len() {
                    assert(self.frames@[i] == old(self).frames@[i]);
                }
            }
        }
    }

    /// Starts a call with a fresh set of packages being visited.
    fn call_scoped(&mut self, name: &String, req: &String)
        requires
            old(self).wf(),
        ensures
            final(self).wf(),
            final(self).listed() == old(self).listed(),
            final(self).platform_model() == old(self).platform_model(),
            final(self).graph == old(self).graph,
            final(self).frames@.len() == old(self).frames@.len() + 2,
            final(self).frames@.drop_last().drop_last() == old(self).frames@,
            final(self).frames@[old(self).frames@.len() as int] is Scope,
            final(self).frames@.last() matches Frame::Specifier { name: n, req: q } && n@ == name@
                && q@ == req@,
            final(self).visiting@.len() == old(self).visiting@.len() + 1,
            final(self).visiting@.drop_last() == old(self).visiting@,
            final(self).visiting@.last()@ == Map::<Seq<char>, bool>::empty(),
            *final(self) == (Resolver {
                frames: final(self).frames,
                visiting: final(self).visiting,
                ..*old(self)
            }),
            final(self).tables() == (ResolverTables {
                visits: old(self).tables().visits.push(Map::empty()),
                ..old(self).tables()
            }),
    {
        self.visiting.push(StrMap::new());
        assert(self.visiting@.map_values(|m: StrMap<bool>| m@) =~= old(self).visiting@.map_values(
            |m: StrMap<bool>| m@,
        ).push(Map::empty()));
        self.push_frame(Frame::Scope);
        self.push_frame(Frame::Specifier { name: name.view_clone(), req: req.view_clone() });
    }

    /// Starts `resolve_package` within the current set of packages being visited.
    fn call_package(&mut self, name: &String, req: &String)
        requires
            old(self).wf(),
        ensures
            final(self).wf(),
            final(self).listed() == old(self).listed(),
            final(self).platform_model() == old(self).platform_model(),
            final(self).graph == old(self).graph,
            final(self).frames@.len() == old(self).frames@.len() + 1,
            final(self).frames@.drop_last() == old(self).frames@,
            final(self).frames@.last() matches Frame::Package {
                name: n,
                req: q,
                stage: PkgStage::Start,
            } && n@ == name@ && q@ == req@,
            *final(self) == (Resolver { frames: final(self).frames, ..*old(self) }),
            final(self).tables() == old(self).tables(),
    {
        self.push_frame(
            Frame::Package { name: name.view_clone(), req: req.view_clone(), stage: PkgStage::Start },
        );
    }

    /// Advances the resolution by one small step. `event` answers the last request
    /// (or is `None`). The graph takes at most one more node and one more edge.
    /// What the step does is decided by the frame on top of [`Resolver::stack`]: the
    /// `*_step` predicates of this module say it for each kind of frame.
    pub fn step(&mut self, event: Option<Event>) -> (a: Action)
        requires
            old(self).wf(),
            old(self).has_room(),
        ensures
            a matches Action::FetchVersions(n) ==> !final(self).listed().contains_key(n@),
            final(self).wf(),
            final(self).node_total() <= old(self).node_total() + 1,
            final(self).edge_total() <= old(self).edge_total() + 1,
            final(self).platform_model() == old(self).platform_model(),
            learned(old(self).listed(), final(self).listed(), event),
            old(self).stack().len() == 0 ==> a is Finished && final(self).stack().len() == 0
                && final(self).resolved() == old(self).resolved() && final(self).outcome_view()
                == old(self).outcome_view(),
            old(self).stack().len() > 0 ==> frame_step(*old(self), *final(self), a, event),
            step_taken(*old(self), *final(self), a, event),
    {
        let top = self.frames.pop();
        proof {
            assert forall|i: int| 0 <= i < self.frames@.len() implies frame_ok(
                #[trigger] self.frames@[i],
                self.graph.nodes(),
            ) by {
                assert(self.frames@[i] == old(self).frames@[i]);
            }
        }
        let frame = match top {
            None => {
                return Action::Finished;
            },
            Some(f) => f,
        };
        proof {
            assert(frame_ok(frame, self.graph.nodes())) by {
                assert(frame == old(self).frames@[old(self).frames@.len() - 1]);
            }
        }
        let mut ret: Option<Result<PackageId, AlchemyError>> = None;
        std::mem::swap(&mut ret, &mut self.ret);
        let ghost mid = *self;
        assert(mid.tables() == old(self).tables());
        let ghost gret = ret;
        let ghost gevent = event;
        match frame {
            Frame::Roots { importers, imp, next, direct, done } => {
                let ghost (gi, gd, gdirect) = (importers, done, direct);
                let a = self.step_roots(importers, imp, next, direct, done, ret);
                proof {
                    lemma_roots_step(mid, *self, a, mid.stack(), gret, gi, imp, next, gdirect, gd);
                }
                a
            },
            Frame::Scope => {
                self.visiting.pop();
                self.ret = ret;
                proof {
                    let f = |m: StrMap<bool>| m@;
                    if mid.visiting@.len() > 0 {
                        assert(self.visiting@.map_values(f) =~= mid.visiting@.map_values(f).drop_last());
                    } else {
                        assert(self.visiting@.map_values(f) =~= mid.visiting@.map_values(f));
                    }
                }
                Action::Continue
            },
            Frame::Specifier { name, req } => {
                let ghost (gn, gr) = (name, req);
                let a = self.step_specifier(name, req);
                proof {
                    lemma_specifier_step(mid, *self,
                        a,
                        mid.stack(),
                        gn,
                        gr,
                    );
                }
                a
            },
            Frame::PathManifest { name, dir } => {
                let ghost (gn, gd) = (name, dir);
                let a = self.step_path_manifest(name, dir, event);
                proof {
                    lemma_path_manifest_step(mid, *self, a, mid.stack(), gn, gd, gevent);
                }
                a
            },
            Frame::PathDeps { id, deps, next } => {
                let ghost (gid, gdeps) = (id, deps);
                let a = self.step_path_deps(id, deps, next, ret);
                proof {
                    lemma_path_deps_step(mid, *self, a, mid.stack(), gret, gid, gdeps, next);
                }
                a
            },
            Frame::Fetch { name, url, commitish, git } => {
                let ghost (gn, gu, gc) = (name, url, commitish);
                let a = self.step_fetch(name, url, commitish, git, event);
                proof {
                    lemma_fetch_step(mid, *self, a, mid.stack(), gn, gu, gc, git, gevent);
                }
                a
            },
            Frame::AliasOf { name } => {
                match ret {
                    Some(Ok(aid)) => {
                        self.resolved_versions.insert(name, aid.version.view_clone());
                        self.give(Ok(aid))
                    },
                    Some(Err(e)) => self.give(Err(e)),
                    None => Action::Continue,
                }
            },
            Frame::Package { name, req, stage } => {
                let ghost (gn, gr) = (name, req);
                match stage {
                    PkgStage::Start => {
                        let a = self.step_package_start(name, req);
                        proof {
                            lemma_package_start_step(mid, *self,
                                a,
                                mid.stack(),
                                gn,
                                gr,
                            );
                        }
                        a
                    },
                    PkgStage::AwaitVersions => {
                        let a = self.step_await_versions(name, req, event);
                        proof {
                            lemma_await_step(mid, *self, a, mid.stack(), gn, gr, gevent);
                        }
                        a
                    },
                    PkgStage::Choose => {
                        let a = self.step_choose(name, req);
                        proof {
                            lemma_choose_step(mid, *self,
                                a,
                                mid.stack(),
                                gn,
                                gr,
                            );
                        }
                        a
                    },
                    PkgStage::Children { id, deps, optional, peers, phase, next } => {
                        let ghost (gid, gdeps, gopt, gpeers) = (id, deps, optional, peers);
                        let a = self.step_children(
                            name,
                            req,
                            id,
                            deps,
                            optional,
                            peers,
                            phase,
                            next,
                            ret,
                        );
                        proof {
                            lemma_children_step(mid, *self, a, mid.stack(), gret, gn, gr, gid, gdeps, gopt, gpeers, phase, next);
                        }
                        a
                    },
                }
            },
        }
    }

    fn step_roots(
        &mut self,
        importers: Vec<(String, Vec<(String, String)>)>,
        imp: usize,
        next: usize,
        direct: Vec<PackageId>,
        done: StrMap<Vec<PackageId>>,
        ret: Option<Result<PackageId, AlchemyError>>,
    ) -> (a: Action)
        requires
            old(self).wf(),
            old(self).ret is None,
        ensures
            a matches Action::FetchVersions(n) ==> !final(self).listed().contains_key(n@),
            final(self).wf(),
            final(self).listed() == old(self).listed(),
            final(self).platform_model() == old(self).platform_model(),
            final(self).graph == old(self).graph,
            roots_frames(*final(self), old(self).stack(), ret, importers, imp, next, direct, done),
            ret matches Some(Err(e)) ==> a is Finished && final(self).outcome_view() == Some(
                Err::<Map<Seq<char>, Seq<PackageId>>, AlchemyError>(e),
            ) && final(self).stack().len() == 0,
            !(ret matches Some(Err(_))) && imp >= importers@.len() ==> a is Finished && final(self).outcome_view()
                == Some(Ok::<Map<Seq<char>, Seq<PackageId>>, AlchemyError>(done@)) && final(self).stack() == old(self).stack(),
            !(ret matches Some(Err(_))) && imp < importers@.len() ==> a is Continue && final(self).outcome_view()
                == old(self).outcome_view() && if counted(next, ret) < importers@[imp as int].1@.len() {
                final(self).stack().len() == old(self).stack().len() + 3 && (final(self).stack()[old(self).stack().len() as int] matches Frame::Roots {
                    imp: i2,
                    next: x2,
                    ..
                } && i2 == imp && x2 == counted(next, ret)) && (final(self).stack().last() matches Frame::Specifier {
                    name: n,
                    req: q,
                } && n@ == importers@[imp as int].1@[counted(next, ret)].0@ && q@
                    == importers@[imp as int].1@[counted(next, ret)].1@)
            } else {
                final(self).stack().len() == old(self).stack().len() + 1 && (final(self).stack().last() matches Frame::Roots {
                    imp: i2,
                    next: 0,
                    ..
                } && i2 == imp + 1)
            },
            ret matches Some(Err(e)) ==> final(self).tables() == (ResolverTables {
                outcome: Some(Err::<Map<Seq<char>, Seq<PackageId>>, AlchemyError>(e)),
                visits: Seq::empty(),
                ..old(self).tables()
            }),
            !(ret matches Some(Err(_))) && imp >= importers@.len() ==> final(self).tables() == (ResolverTables {
                outcome: Some(Ok::<Map<Seq<char>, Seq<PackageId>>, AlchemyError>(done@)),
                visits: Seq::empty(),
                ..old(self).tables()
            }),
            !(ret matches Some(Err(_))) && imp < importers@.len() ==> if counted(next, ret) < importers@[imp as int].1@.len() {
                final(self).tables() == (ResolverTables {
                    visits: old(self).tables().visits.push(Map::empty()),
                    ..old(self).tables()
                })
            } else {
                final(self).tables() == old(self).tables()
            },
    {
        let mut direct = direct;
        let mut done = done;
        let mut next = next;
        let mut imp = imp;
        match ret {
            Some(Ok(id)) => {
                direct.push(id);
                next = if next < usize::MAX {
                    next + 1
                } else {
                    next
                };
            },
            Some(Err(e)) => {
                self.outcome = Some(Err(e));
                self.frames = Vec::new();
                self.visiting = Vec::new();
                assert(self.visiting@.map_values(|m: StrMap<bool>| m@) =~= Seq::<Map<Seq<char>, bool>>::empty());
                return Action::Finished;
            },
            None => {},
        }
        if imp < importers.len() {
            if next < importers[imp].1.len() {
                let (dn, dr) = &importers[imp].1[next];
                let dn = dn.view_clone();
                let dr = dr.view_clone();
                let ghost before = self.frames@;
                self.push_frame(Frame::Roots { importers, imp, next, direct, done });
                self.call_scoped(&dn, &dr);
                proof {
                    assert(self.frames@.drop_last().drop_last()[before.len() as int]
                        == self.frames@[before.len() as int]);
                }
                Action::Continue
            } else {
                done.insert(importers[imp].0.view_clone(), direct);
                imp = imp + 1;
                self.push_frame(
                    Frame::Roots { importers, imp, next: 0, direct: Vec::new(), done },
                );
                Action::Continue
            }
        } else {
            self.outcome = Some(Ok(done));
            self.visiting = Vec::new();
            assert(self.visiting@.map_values(|m: StrMap<bool>| m@) =~= Seq::<Map<Seq<char>, bool>>::empty());
            Action::Finished
        }
    }

    fn step_specifier(&mut self, name: String, req: String) -> (a: Action)
        requires
            old(self).wf(),
        ensures
            final(self).stack().len() >= old(self).stack().len(),
            a matches Action::FetchVersions(n) ==> !final(self).listed().contains_key(n@),
            final(self).wf(),
            final(self).listed() == old(self).listed(),
            final(self).platform_model() == old(self).platform_model(),
            final(self).graph == old(self).graph,
            spec_parse(req@) matches SpecifierModel::Registry(v) ==> a is Continue
                && final(self).stack().drop_last() == old(self).stack() && (final(self).stack().last() matches Frame::Package { name: n, req: q, stage: PkgStage::Start }
                && n@ == name@ && q@ == v),
            spec_parse(req@) matches SpecifierModel::Path(rel) ==> (a matches Action::ReadManifest(p)
                && p@ == spec_join(spec_join(path_base(old(self).base_dir()), rel), "package.json"@))
                && final(self).stack().drop_last() == old(self).stack() && (final(self).stack().last() matches Frame::PathManifest { name: n, dir: d } && n@ == name@ && d@
                == spec_join(path_base(old(self).base_dir()), rel)),
            spec_parse(req@) matches SpecifierModel::Git(u, c) ==> if old(self).fetches_non_registry() {
                (a matches Action::FetchGit { name: n, url: u2, commitish: c2 } && n@ == name@ && u2@
                    == u && opt_seq(c2) == c) && final(self).stack().drop_last() == old(self).stack() && (final(self).stack().last() matches Frame::Fetch {
                    name: n,
                    url: u2,
                    commitish: c2,
                    git: true,
                } && n@ == name@ && u2@ == u && opt_seq(c2) == c)
            } else {
                a is Continue && final(self).stack() == old(self).stack() && final(self).handed() matches Some(Err(AlchemyError::ResolutionFailed(_)))
            },
            spec_parse(req@) matches SpecifierModel::Url(u) ==> if old(self).fetches_non_registry() {
                (a matches Action::FetchUrl { name: n, url: u2 } && n@ == name@ && u2@ == u)
                    && final(self).stack().drop_last() == old(self).stack() && (final(self).stack().last() matches Frame::Fetch { name: n, url: u2, commitish: None, git: false }
                    && n@ == name@ && u2@ == u)
            } else {
                a is Continue && final(self).stack() == old(self).stack() && final(self).handed() matches Some(Err(AlchemyError::ResolutionFailed(_)))
            },
            spec_parse(req@) matches SpecifierModel::Alias(pkg, inner) ==> a is Continue && final(self).stack().len() == old(self).stack().len() + 2 && final(self).stack().drop_last().drop_last()
                == old(self).stack() && (final(self).stack()[old(self).stack().len() as int] matches Frame::AliasOf {
                name: n,
            } && n@ == name@) && (final(self).stack().last() matches Frame::Package {
                name: n,
                req: q,
                stage: PkgStage::Start,
            } && n@ == pkg && q@ == match *inner {
                SpecifierModel::Registry(r) => r,
                _ => "*"@,
            }),
            spec_parse(req@) is Workspace ==> a is Continue && final(self).stack() == old(self).stack()
                && final(self).handed() matches Some(Err(AlchemyError::ResolutionFailed(_))),
            final(self).tables() == old(self).tables(),
    {
        match parse(req.as_str()) {
            DependencySpecifier::Registry(semver) => {
                self.call_package(&name, &semver);
                Action::Continue
            },
            DependencySpecifier::Path(rel_path) => {
                let base = match &self.project_dir {
                    Some(d) => d.view_clone(),
                    None => to_owned("."),
                };
                let dir = path_join(base.as_str(), rel_path.as_str());
                let manifest_path = path_join(dir.as_str(), "package.json");
                self.push_frame(Frame::PathManifest { name, dir });
                Action::ReadManifest(manifest_path)
            },
            DependencySpecifier::Git(git_spec) => {
                if !self.non_registry {
                    return self.give(
                        Err(
                            AlchemyError::ResolutionFailed(
                                quoted(
                                    "cannot resolve git dependency '",
                                    name.as_str(),
                                    "': no NonRegistryFetcher configured",
                                ),
                            ),
                        ),
                    );
                }
                let url = git_spec.url.view_clone();
                let commitish = clone_opt(&git_spec.commitish);
                self.push_frame(
                    Frame::Fetch {
                        name: name.view_clone(),
                        url: url.view_clone(),
                        commitish: clone_opt(&commitish),
                        git: true,
                    },
                );
                Action::FetchGit { name, url, commitish }
            },
            DependencySpecifier::Url(url) => {
                if !self.non_registry {
                    return self.give(
                        Err(
                            AlchemyError::ResolutionFailed(
                                quoted(
                                    "cannot resolve url dependency '",
                                    name.as_str(),
                                    "': no NonRegistryFetcher configured",
                                ),
                            ),
                        ),
                    );
                }
                self.push_frame(
                    Frame::Fetch {
                        name: name.view_clone(),
                        url: url.view_clone(),
                        commitish: None,
                        git: false,
                    },
                );
                Action::FetchUrl { name, url }
            },
            DependencySpecifier::Alias { package, spec } => {
                // npm: alias — resolve the aliased package, register under `name`
                let alias_req = specifier_to_version_req(&*spec);
                let ghost before = self.frames@;
                self.push_frame(Frame::AliasOf { name });
                self.call_package(&package, &alias_req);
                proof {
                    assert(self.frames@.drop_last()[before.len() as int] == self.frames@[before.len() as int]);
                    assert(alias_req@ == match crate::specifier::specifier_model(*spec) {
                        SpecifierModel::Registry(r) => r,
                        _ => "*"@,
                    });
                }
                Action::Continue
            },
            DependencySpecifier::Workspace(_) => {
                // workspace: deps are handled by the workspace layer before resolution
                self.give(
                    Err(
                        AlchemyError::ResolutionFailed(
                            quoted(
                                "workspace: specifier for '",
                                name.as_str(),
                                "' should be handled by workspace resolver",
                            ),
                        ),
                    ),
                )
            },
        }
    }

    #[verifier::spinoff_prover]
    #[verifier::rlimit(30)]
    fn step_path_manifest(&mut self, name: String, dir: String, event: Option<Event>) -> (a:
        Action)
        requires
            old(self).wf(),
            old(self).has_room(),
        ensures
            final(self).stack().len() >= old(self).stack().len(),
            a matches Action::FetchVersions(n) ==> !final(self).listed().contains_key(n@),
            final(self).wf(),
            final(self).listed() == old(self).listed(),
            final(self).platform_model() == old(self).platform_model(),
            final(self).graph_nodes().len() <= old(self).graph.nodes().len() + 1,
            final(self).graph_edges() == old(self).graph.edges(),
            event matches Some(Event::Manifest(Ok(m))) ==> a is Continue && has_id(
                final(self).resolved(),
                (name@, manifest_version(m)),
            ) && ((final(self).handed() matches Some(Ok(pid)) && pid@ == (name@, manifest_version(m))
                && final(self).stack() == old(self).stack()) || (final(self).handed() == old(self).handed()
                && final(self).stack().drop_last() == old(self).stack() && (final(self).stack().last() matches Frame::PathDeps {
                id: pid,
                next: 0,
                ..
            } && pid@ == (name@, manifest_version(m))))),
            event matches Some(Event::Manifest(Err(e))) ==> a is Continue && final(self).handed() == Some(
                Err::<PackageId, AlchemyError>(e),
            ) && final(self).stack() == old(self).stack(),
            !(event matches Some(Event::Manifest(_))) ==> (a matches Action::ReadManifest(p) && p@
                == spec_join(dir@, "package.json"@)) && final(self).stack() == old(self).stack().push(
                Frame::PathManifest { name, dir },
            ),
            event matches Some(Event::Manifest(Ok(m))) ==> path_manifest_moves(
                old(self).tables(),
                *final(self),
                old(self).stack(),
                name,
                dir,
                m,
            ),
            !(event matches Some(Event::Manifest(Ok(_)))) ==> final(self).tables() == old(self).tables(),
            event matches Some(Event::Manifest(Ok(m))) ==> final(self).tables() == old(self).tables()
                || final(self).tables() == (ResolverTables {
                chosen: old(self).tables().chosen.insert(name@, manifest_version(m)),
                resolved: final(self).tables().resolved,
                nodes: final(self).tables().nodes,
                ..old(self).tables()
            }),
    {
        match event {
            Some(Event::Manifest(Ok(manifest))) => {
                let ghost (gm, gname, gdir) = (manifest, name, dir);
                let version = match &manifest.version {
                    Some(v) => v.view_clone(),
                    None => to_owned("0.0.0"),
                };
                let id = PackageId { name: name.view_clone(), version: version.view_clone() };
                if self.packages.contains_key(&id) {
                    let a = self.give(Ok(id));
                    assert(path_manifest_moves(old(self).tables(), *self, old(self).stack(), gname, gdir, gm));
                    return a;
                }
                self.add_node(&id);
                self.resolved_versions.insert(name, version);
                let deps = entries_of(&manifest.dependencies);
                let resolved = ResolvedPackage {
                    id: id.view_clone(),
                    tarball_url: String::new(),
                    integrity: None,
                    source_path: Some(dir),
                    dependencies: manifest.dependencies,
                    peer_dependencies: manifest.peer_dependencies,
                    optional_dependencies: manifest.optional_dependencies,
                    bin: manifest.bin,
                    os: None,
                    cpu: None,
                    engines: None,
                };
                assert(resolved@ == path_package(gname@, gdir@, gm));
                let ghost before_items = self.packages.items();
                self.record_package(resolved);
                assert(self.packages.items() == before_items.push(path_package(gname@, gdir@, gm)));
                let ghost mid_tables = self.tables();
                self.push_frame(Frame::PathDeps { id, deps, next: 0 });
                assert(self.tables() == mid_tables);
                assert(!has_id(old(self).tables().resolved, (gname@, manifest_version(gm))));
                assert(self.tables().chosen == old(self).tables().chosen.insert(gname@, manifest_version(gm)));
                assert(self.tables().resolved == old(self).tables().resolved.push(path_package(gname@, gdir@, gm)));
                assert(self.stack().drop_last() == old(self).stack());
                assert(self.stack().last() matches Frame::PathDeps { id: pid, deps: d, next: 0 } && entry_views(d@) == map_entries(gm.dependencies@));
                assert(path_manifest_moves(old(self).tables(), *self, old(self).stack(), gname, gdir, gm));
                Action::Continue
            },
            Some(Event::Manifest(Err(e))) => self.give(Err(e)),
            _ => {
                let manifest_path = path_join(dir.as_str(), "package.json");
                self.push_frame(Frame::PathManifest { name, dir });
                Action::ReadManifest(manifest_path)
            },
        }
    }

    fn step_path_deps(
        &mut self,
        id: PackageId,
        deps: Vec<(String, String)>,
        next: usize,
        ret: Option<Result<PackageId, AlchemyError>>,
    ) -> (a: Action)
        requires
            old(self).wf(),
            old(self).has_room(),
            has_node(old(self).graph.nodes(), id@),
        ensures
            final(self).stack().len() >= old(self).stack().len(),
            a matches Action::FetchVersions(n) ==> !final(self).listed().contains_key(n@),
            final(self).wf(),
            final(self).listed() == old(self).listed(),
            final(self).platform_model() == old(self).platform_model(),
            final(self).graph_nodes().len() <= old(self).graph.nodes().len() + 1,
            final(self).graph_edges().len() <= old(self).graph.edges().len() + 1,
            path_deps_frames(final(self).stack(), old(self).stack(), ret, id, deps, next),
            path_deps_tables(
                old(self).tables(),
                final(self).tables(),
                !(ret matches Some(Err(_))) && counted(next, ret) < deps@.len(),
            ),
            ret matches Some(Err(e)) ==> a is Continue && final(self).handed() == Some(
                Err::<PackageId, AlchemyError>(e),
            ) && final(self).stack() == old(self).stack(),
            ret matches Some(Ok(child)) ==> last_edge_is(
                final(self).graph_nodes(),
                final(self).graph_edges(),
                id@,
                child@,
                DepEdge::Normal,
            ),
            !(ret matches Some(Err(_))) ==> a is Continue && if counted(next, ret) < deps@.len() {
                final(self).stack().len() == old(self).stack().len() + 3 && (final(self).stack()[old(self).stack().len() as int] matches Frame::PathDeps {
                    id: i2,
                    next: x2,
                    ..
                } && i2 == id && x2 == counted(next, ret)) && (final(self).stack().last() matches Frame::Specifier {
                    name: n,
                    req: q,
                } && n@ == deps@[counted(next, ret)].0@ && q@ == deps@[counted(next, ret)].1@)
            } else {
                final(self).stack() == old(self).stack() && (final(self).handed() matches Some(Ok(pid)) && pid == id)
            },
    {
        let mut next = next;
        match ret {
            Some(Ok(child)) => {
                let ghost before = self.graph.nodes();
                self.add_node(&child);
                proof {
                    lemma_grows_has_node(before, self.graph.nodes(), id@);
                }
                self.graph.add_dependency(&id, &child, DepEdge::Normal);
                next = if next < usize::MAX {
                    next + 1
                } else {
                    next
                };
            },
            Some(Err(e)) => {
                return self.give(Err(e));
            },
            None => {},
        }
        if next < deps.len() {
            let (dn, dr) = &deps[next];
            let dn = dn.view_clone();
            let dr = dr.view_clone();
            let ghost before = self.frames@;
            self.push_frame(Frame::PathDeps { id, deps, next });
            self.call_scoped(&dn, &dr);
            proof {
                assert(self.frames@.drop_last().drop_last()[before.len() as int]
                    == self.frames@[before.len() as int]);
            }
            Action::Continue
        } else {
            self.give(Ok(id))
        }
    }

    fn step_fetch(
        &mut self,
        name: String,
        url: String,
        commitish: Option<String>,
        git: bool,
        event: Option<Event>,
    ) -> (a: Action)
        requires
            old(self).wf(),
            old(self).has_room(),
        ensures
            final(self).stack().len() >= old(self).stack().len(),
            a matches Action::FetchVersions(n) ==> !final(self).listed().contains_key(n@),
            final(self).wf(),
            final(self).listed() == old(self).listed(),
            final(self).platform_model() == old(self).platform_model(),
            final(self).graph_nodes().len() <= old(self).graph.nodes().len() + 1,
            final(self).graph_edges() == old(self).graph.edges(),
            event matches Some(Event::Fetched(Ok(fp))) ==> a is Continue && final(self).stack() == old(self).stack()
                && (final(self).handed() matches Some(Ok(pid)) && pid@ == (name@, fetched_version(fp, git)))
                && has_id(final(self).resolved(), (name@, fetched_version(fp, git))),
            event matches Some(Event::Fetched(Err(e))) ==> a is Continue && final(self).handed() == Some(
                Err::<PackageId, AlchemyError>(e),
            ) && final(self).stack() == old(self).stack(),
            !(event matches Some(Event::Fetched(_))) ==> (git ==> (a matches Action::FetchGit {
                name: n,
                url: u,
                commitish: c,
            } && n == name && u == url && c == commitish)) && (!git ==> (a matches Action::FetchUrl {
                name: n,
                url: u,
            } && n == name && u == url)) && final(self).stack().drop_last() == old(self).stack()
                && (final(self).stack().last() matches Frame::Fetch { name: n, url: u, commitish: c, git: g }
                && n@ == name@ && u@ == url@ && opt_seq(c) == opt_seq(commitish) && g == git),
            event matches Some(Event::Fetched(Ok(fp))) ==> fetch_tables(
                old(self).tables(),
                final(self).tables(),
                name@,
                url@,
                fp,
                git,
            ),
            !(event matches Some(Event::Fetched(Ok(_)))) ==> final(self).tables() == old(self).tables(),
            event matches Some(Event::Fetched(Ok(fp))) ==> final(self).tables() == old(self).tables()
                || final(self).tables() == (ResolverTables {
                chosen: old(self).tables().chosen.insert(name@, fetched_version(fp, git)),
                resolved: final(self).tables().resolved,
                nodes: final(self).tables().nodes,
                ..old(self).tables()
            }),
    {
        match event {
            Some(Event::Fetched(Ok(fetched))) => {
                let ghost (gfp, gname, gurl) = (fetched, name, url);
                let FetchedPackage { manifest, source_path, commit } = fetched;
                // A git package without a version takes the first characters of its
                // commit; a tarball package without one is 0.0.0.
                let version = if git {
                    let mv = match &manifest.version {
                        Some(v) => Some(v.as_str()),
                        None => None,
                    };
                    git_version(mv, commit.as_str())
                } else {
                    match &manifest.version {
                        Some(v) => v.view_clone(),
                        None => to_owned("0.0.0"),
                    }
                };
                let id = PackageId::new(name.as_str(), version.as_str());
                if !self.packages.contains_key(&id) {
                    self.add_node(&id);
                    self.resolved_versions.insert(name.view_clone(), version.view_clone());
                    let tarball_url = if git {
                        String::new()
                    } else {
                        url
                    };
                    let resolved = package_from_manifest(
                        name.as_str(),
                        version.as_str(),
                        manifest,
                        source_path,
                        tarball_url,
                    );
                    assert(resolved@ == fetched_package(gname@, gurl@, gfp, git));
                    let ghost before_items = self.packages.items();
                    self.record_package(resolved);
                    assert(self.packages.items() == before_items.push(fetched_package(gname@, gurl@, gfp, git)));
                }
                self.give(Ok(id))
            },
            Some(Event::Fetched(Err(e))) => self.give(Err(e)),
            _ => {
                self.push_frame(
                    Frame::Fetch {
                        name: name.view_clone(),
                        url: url.view_clone(),
                        commitish: clone_opt(&commitish),
                        git,
                    },
                );
                if git {
                    Action::FetchGit { name, url, commitish }
                } else {
                    Action::FetchUrl { name, url }
                }
            },
        }
    }

    /// Marks `name` as being visited in the current set.
    fn visit(&mut self, name: &String)
        requires
            old(self).wf(),
        ensures
            final(self).wf(),
            final(self).listed() == old(self).listed(),
            final(self).platform_model() == old(self).platform_model(),
            final(self).graph == old(self).graph,
            final(self).frames == old(self).frames,
            old(self).visiting@.len() > 0 ==> final(self).visiting@.len() == old(self).visiting@.len()
                && final(self).visiting@.drop_last() == old(self).visiting@.drop_last()
                && final(self).visiting@.last()@ == old(self).visiting@.last()@.insert(name@, true),
            old(self).visiting@.len() == 0 ==> final(self).visiting@.len() == 1
                && final(self).visiting@[0]@ == Map::<Seq<char>, bool>::empty().insert(name@, true),
            *final(self) == (Resolver { visiting: final(self).visiting, ..*old(self) }),
            final(self).tables() == (ResolverTables { visits: final(self).tables().visits, ..old(self).tables() }),
    {
        let mut top = match self.visiting.pop() {
            Some(t) => t,
            None => StrMap::new(),
        };
        top.insert(name.view_clone(), true);
        self.visiting.push(top);
    }

    /// No longer visiting `name` in the current set.
    fn unvisit(&mut self, name: &String)
        requires
            old(self).wf(),
        ensures
            final(self).wf(),
            final(self).listed() == old(self).listed(),
            final(self).platform_model() == old(self).platform_model(),
            final(self).graph == old(self).graph,
            final(self).frames == old(self).frames,
            old(self).visiting@.len() > 0 ==> final(self).visiting@.len() == old(self).visiting@.len()
                && final(self).visiting@.drop_last() == old(self).visiting@.drop_last()
                && final(self).visiting@.last()@ == old(self).visiting@.last()@.remove(name@),
            old(self).visiting@.len() == 0 ==> final(self).visiting@ == old(self).visiting@,
            *final(self) == (Resolver { visiting: final(self).visiting, ..*old(self) }),
            final(self).tables() == (ResolverTables { visits: final(self).tables().visits, ..old(self).tables() }),
    {
        match self.visiting.pop() {
            Some(t) => {
                let mut top = t;
                top.remove(name.as_str());
                self.visiting.push(top);
            },
            None => {},
        }
    }

    fn is_visiting(&self, name: &String) -> (b: bool)
        ensures
            b == (self.visiting@.len() > 0 && self.visiting@.last()@.contains_key(name@)),
    {
        let n = self.visiting.len();
        if n == 0 {
            false
        } else {
            self.visiting[n - 1].contains_key(name.as_str())
        }
    }

    fn step_package_start(&mut self, name: String, req: String) -> (a: Action)
        requires
            old(self).wf(),
        ensures
            final(self).stack().len() >= old(self).stack().len(),
            a matches Action::FetchVersions(n) ==> !final(self).listed().contains_key(n@),
            final(self).wf(),
            final(self).listed() == old(self).listed(),
            final(self).platform_model() == old(self).platform_model(),
            final(self).graph == old(self).graph,
            ({
                let rv = old(self).chosen();
                let reuse = rv.contains_key(name@) && spec_version_satisfies(rv[name@], req@);
                let vis = old(self).in_visit(name@);
                &&& reuse ==> a is Continue && final(self).stack() == old(self).stack() && (final(self).handed() matches Some(Ok(pid)) && pid@ == (name@, rv[name@]))
                &&& !reuse && vis && rv.contains_key(name@) ==> a is Continue && final(self).stack() == old(self).stack() && (final(self).handed() matches Some(Ok(pid)) && pid@ == (name@, rv[name@]))
                &&& !reuse && vis && !rv.contains_key(name@) ==> a is Continue && final(self).stack() == old(self).stack() && (final(self).handed() matches Some(Err(AlchemyError::ResolutionFailed(_))))
                &&& !reuse && !vis ==> final(self).in_visit(name@)
                    && if old(self).listed().contains_key(name@) {
                    a is Continue && final(self).stack() == old(self).stack().push(Frame::Package { name, req, stage: PkgStage::Choose })
                } else {
                    (a matches Action::FetchVersions(n) && n@ == name@) && final(self).stack() == old(self).stack().push(Frame::Package { name, req, stage: PkgStage::AwaitVersions })
                }
            }),
            ({
                let rv = old(self).chosen();
                let reuse = rv.contains_key(name@) && spec_version_satisfies(rv[name@], req@);
                &&& reuse || old(self).in_visit(name@) ==> final(self).tables() == old(self).tables()
                &&& !reuse && !old(self).in_visit(name@) ==> final(self).tables() == (ResolverTables {
                    visits: final(self).tables().visits,
                    ..old(self).tables()
                })
            }),
    {
        // If already resolved and satisfies, reuse
        if let Some(existing) = self.resolved_versions.get(name.as_str()) {
            if version_satisfies(existing.as_str(), req.as_str()) {
                let id = PackageId::new(name.as_str(), existing.as_str());
                return self.give(Ok(id));
            }
        }
        // Cycle detection
        if self.is_visiting(&name) {
            // If we already resolved this package in the current pass, reuse it
            if let Some(ver) = self.resolved_versions.get(name.as_str()) {
                let id = PackageId::new(name.as_str(), ver.as_str());
                return self.give(Ok(id));
            }
            // Unresolvable cycle: package depends on itself before any version was chosen
            return self.give(
                Err(
                    AlchemyError::ResolutionFailed(
                        quoted("circular dependency detected for '", name.as_str(), "'"),
                    ),
                ),
            );
        }
        self.visit(&name);
        if self.version_cache.contains_key(name.as_str()) {
            self.push_frame(Frame::Package { name, req, stage: PkgStage::Choose });
            Action::Continue
        } else {
            let fetch = name.view_clone();
            self.push_frame(Frame::Package { name, req, stage: PkgStage::AwaitVersions });
            Action::FetchVersions(fetch)
        }
    }

    fn step_await_versions(&mut self, name: String, req: String, event: Option<Event>) -> (a:
        Action)
        requires
            old(self).wf(),
        ensures
            final(self).stack().len() >= old(self).stack().len(),
            a matches Action::FetchVersions(n) ==> !final(self).listed().contains_key(n@),
            final(self).wf(),
            final(self).platform_model() == old(self).platform_model(),
            learned(old(self).listed(), final(self).listed(), event),
            final(self).graph == old(self).graph,
            event matches Some(Event::Versions(Ok(vs))) ==> a is Continue && final(self).listed().contains_key(name@)
                && final(self).stack() == old(self).stack().push(Frame::Package { name, req, stage: PkgStage::Choose }),
            event matches Some(Event::Versions(Err(e))) ==> a is Continue && final(self).handed() == Some(
                Err::<PackageId, AlchemyError>(e),
            ) && final(self).stack() == old(self).stack(),
            !(event matches Some(Event::Versions(_))) ==> if old(self).listed().contains_key(name@) {
                a is Continue && final(self).stack() == old(self).stack().push(Frame::Package { name, req, stage: PkgStage::Choose })
            } else {
                (a matches Action::FetchVersions(n) && n@ == name@) && final(self).stack() == old(self).stack().push(Frame::Package { name, req, stage: PkgStage::AwaitVersions })
            },
            event matches Some(Event::Versions(Ok(_))) ==> final(self).tables() == (ResolverTables {
                listed: final(self).tables().listed,
                ..old(self).tables()
            }),
            !(event matches Some(Event::Versions(Ok(_)))) ==> final(self).tables() == old(self).tables(),
    {
        match event {
            Some(Event::Versions(Ok(versions))) => {
                if !self.version_cache.contains_key(name.as_str()) {
                    self.version_cache.insert(name.view_clone(), versions);
                }
                self.push_frame(Frame::Package { name, req, stage: PkgStage::Choose });
                Action::Continue
            },
            Some(Event::Versions(Err(e))) => self.give(Err(e)),
            _ => {
                if self.version_cache.contains_key(name.as_str()) {
                    self.push_frame(Frame::Package { name, req, stage: PkgStage::Choose });
                    return Action::Continue;
                }
                let fetch = name.view_clone();
                self.push_frame(Frame::Package { name, req, stage: PkgStage::AwaitVersions });
                Action::FetchVersions(fetch)
            },
        }
    }

    fn step_choose(&mut self, name: String, req: String) -> (a: Action)
        requires
            old(self).wf(),
            old(self).has_room(),
        ensures
            final(self).stack().len() >= old(self).stack().len(),
            a matches Action::FetchVersions(n) ==> !final(self).listed().contains_key(n@),
            final(self).wf(),
            final(self).listed() == old(self).listed(),
            final(self).platform_model() == old(self).platform_model(),
            final(self).graph_nodes().len() <= old(self).graph.nodes().len() + 1,
            final(self).graph_edges() == old(self).graph.edges(),
            choose_frames(old(self).tables(), *final(self), old(self).stack()),
            !old(self).listed().contains_key(name@) ==> (a matches Action::FetchVersions(n) && n@ == name@)
                && final(self).stack() == old(self).stack().push(Frame::Package { name, req, stage: PkgStage::AwaitVersions }),
            old(self).listed().contains_key(name@) ==> ({
                let vs = old(self).listed()[name@];
                &&& a is Continue
                &&& forall|i: int| #[trigger] is_best(version_texts(vs), req@, i) && fits(old(self).platform_model(), vs[i]) ==> has_id(final(self).resolved(), (name@, vs[i].version@))
                    && final(self).stack().drop_last() == old(self).stack() && (final(self).stack().last() matches Frame::Package {
                    stage: PkgStage::Children { id: pid, phase: 0, next: 0, .. },
                    ..
                } && pid@ == (name@, vs[i].version@))
                &&& (forall|j: int| !#[trigger] is_candidate(version_texts(vs), req@, j)) ==> final(self).stack() == old(self).stack()
                    && (final(self).handed() matches Some(Err(AlchemyError::VersionNotFound(n, q))) && n@ == name@ && q@ == req@)
                &&& (exists|i: int| #[trigger] is_best(version_texts(vs), req@, i) && !fits(old(self).platform_model(), vs[i])) ==> final(self).stack() == old(self).stack()
                    && (final(self).handed() matches Some(Err(AlchemyError::Other(_))))
            }),
            ({
                let vs = old(self).listed()[name@];
                &&& !old(self).listed().contains_key(name@) ==> final(self).tables() == old(self).tables()
                &&& old(self).listed().contains_key(name@) ==> forall|i: int|
                    #[trigger] is_best(version_texts(vs), req@, i) ==> if fits(old(self).platform_model(), vs[i]) {
                        final(self).tables() == (ResolverTables {
                            chosen: old(self).tables().chosen.insert(name@, vs[i].version@),
                            resolved: with_package(old(self).tables().resolved, version_package(name@, vs[i])),
                            nodes: final(self).tables().nodes,
                            ..old(self).tables()
                        })
                    } else {
                        final(self).tables() == old(self).tables()
                    }
                &&& old(self).listed().contains_key(name@) && (forall|j: int| !#[trigger] is_candidate(version_texts(vs), req@, j))
                    ==> final(self).tables() == old(self).tables()
            }),
    {
        let picked = match self.version_cache.get(name.as_str()) {
            None => None,
            Some(versions) => Some(choose_version(versions, &name, &req, &self.platform)),
        };
        let chosen = match picked {
            None => {
                let fetch = name.view_clone();
                self.push_frame(Frame::Package { name, req, stage: PkgStage::AwaitVersions });
                assert(self.stack().drop_last() =~= old(self).stack());
                return Action::FetchVersions(fetch);
            },
            Some(Err(e)) => {
                proof {
                    let vs = self.listed()[name@];
                    let vt = version_texts(vs);
                    assert forall|i: int| #[trigger] is_best(vt, req@, i) implies !fits(
                        self.platform_model(),
                        vs[i],
                    ) by {
                        if exists|i1: int| is_best(vt, req@, i1) && !fits(self.platform_model(), vs[i1]) {
                            let i1 = choose|i1: int| is_best(vt, req@, i1) && !fits(self.platform_model(), vs[i1]);
                            lemma_best_unique(vt, req@, i, i1);
                        }
                    }
                }
                return self.give(Err(e));
            },
            Some(Ok(c)) => c,
        };
        let ghost vs = self.listed()[name@];
        let ghost i0 = choose|i: int|
            is_best(version_texts(vs), req@, i) && chosen.0@.id == (name@, vs[i].version@)
                && chosen.0@ == version_package(name@, vs[i]) && fits(
                self.platform_model(),
                vs[i],
            );
        proof {
            assert forall|i: int| #[trigger] is_best(version_texts(vs), req@, i) implies i == i0 by {
                lemma_best_unique(version_texts(vs), req@, i, i0);
            }
        }
        let (resolved, deps, optional, peers) = chosen;
        let id = resolved.id.view_clone();
        self.add_node(&id);
        self.resolved_versions.insert(name.view_clone(), id.version.view_clone());
        self.record_package(resolved);
        self.push_frame(
            Frame::Package {
                name,
                req,
                stage: PkgStage::Children { id, deps, optional, peers, phase: 0, next: 0 },
            },
        );
        assert(self.stack().drop_last() =~= old(self).stack());
        Action::Continue
    }

    fn peer_warning(&mut self, id: &PackageId, peer: &String, required: &String, found: Option<String>)
        requires
            old(self).wf(),
        ensures
            final(self).wf(),
            final(self).listed() == old(self).listed(),
            final(self).platform_model() == old(self).platform_model(),
            final(self).graph == old(self).graph,
            final(self).frames == old(self).frames,
            final(self).packages == old(self).packages,
            final(self).peer_warnings@ == old(self).peer_warnings@.push(final(self).peer_warnings@.last()),
            final(self).peer_warnings@.last().package@ == id@,
            final(self).peer_warnings@.last().peer_name@ == peer@,
            final(self).peer_warnings@.last().required@ == required@,
            final(self).peer_warnings@.last().found == found,
            *final(self) == (Resolver { peer_warnings: final(self).peer_warnings, ..*old(self) }),
    {
        self.peer_warnings.push(
            PeerWarning {
                package: id.view_clone(),
                peer_name: peer.view_clone(),
                required: required.view_clone(),
                found,
            },
        );
    }

    #[verifier::spinoff_prover]
    #[verifier::rlimit(50)]
    fn step_children(
        &mut self,
        name: String,
        req: String,
        id: PackageId,
        deps: Vec<(String, String)>,
        optional: Vec<(String, String)>,
        peers: Vec<(String, String, bool)>,
        phase: u8,
        next: usize,
        ret: Option<Result<PackageId, AlchemyError>>,
    ) -> (a: Action)
        requires
            old(self).ret is None,
            old(self).wf(),
            old(self).has_room(),
            has_node(old(self).graph.nodes(), id@),
        ensures
            final(self).stack().len() >= old(self).stack().len(),
            a matches Action::FetchVersions(n) ==> !final(self).listed().contains_key(n@),
            final(self).wf(),
            final(self).listed() == old(self).listed(),
            final(self).platform_model() == old(self).platform_model(),
            final(self).graph_nodes().len() <= old(self).graph.nodes().len() + 1,
            final(self).graph_edges().len() <= old(self).graph.edges().len() + 1,
            a is Continue,
            children_tables(
                old(self).tables(),
                final(self).tables(),
                name@,
                peers@.len() > 0,
                final(self).handed() matches Some(Ok(_)),
            ),
            children_moves(
                old(self).tables(),
                *final(self),
                old(self).stack(),
                ret,
                name,
                req,
                id,
                deps,
                optional,
                peers,
                phase,
                next,
            ),
            phase == 0 ==> (ret matches Some(Err(e)) ==> final(self).handed() == Some(
                Err::<PackageId, AlchemyError>(e),
            ) && final(self).stack() == old(self).stack()),
            ret matches Some(Ok(child)) ==> last_edge_is(
                final(self).graph_nodes(),
                final(self).graph_edges(),
                id@,
                child@,
                phase_kind(phase),
            ),
            !(ret matches Some(Err(_)) && phase == 0) ==> ((final(self).handed() matches Some(Ok(pid)) && pid == id)
                && final(self).stack() == old(self).stack() && !final(self).in_visit(name@))
                || (final(self).handed() is None && final(self).stack().len() > old(self).stack().len() && (final(self).stack()[old(self).stack().len() as int] matches Frame::Package {
                name: n,
                stage: PkgStage::Children { id: i2, .. },
                ..
            } && n == name && i2 == id)),
    {
        let ghost frames0 = self.frames@;
        proof {
            let w = old(self).tables().warnings;
            assert(w.take(w.len() as int) =~= w);
        }
        let mut next = next;
        let mut phase = phase;
        let step_on = if next < usize::MAX {
            next + 1
        } else {
            next
        };
        let ghost before = self.graph.nodes();
        let had_ret = ret.is_some();
        match ret {
            Some(Ok(child)) => {
                let kind = if phase == 0 {
                    DepEdge::Normal
                } else if phase == 1 {
                    DepEdge::Optional
                } else {
                    DepEdge::Peer
                };
                self.add_node(&child);
                proof {
                    lemma_grows_has_node(before, self.graph.nodes(), id@);
                }
                self.graph.add_dependency(&id, &child, kind);
                next = step_on;
            },
            Some(Err(e)) => {
                if phase == 0 {
                    return self.give(Err(e));
                } else if phase == 1 {
                    // Optional dependencies that fail are skipped
                    next = step_on;
                } else {
                    if next < peers.len() {
                        let (pn, preq, _) = &peers[next];
                        self.peer_warning(&id, pn, preq, None);
                        proof {
                            assert(self.peer_warnings@.take(old(self).peer_warnings@.len() as int) =~= old(self).peer_warnings@);
                        }
                    }
                    next = step_on;
                }
                proof {
                    assert(self.graph.nodes() == before);
                }
            },
            None => {},
        }
        let ghost mid = self.graph.nodes();
        proof {
            assert(grows(before, mid));
            lemma_grows_has_node(before, mid, id@);
        }
        if phase == 0 {
            if next < deps.len() {
                let (dn, dr) = &deps[next];
                let dn = dn.view_clone();
                let dr = dr.view_clone();
                self.push_frame(
                    Frame::Package {
                        name,
                        req,
                        stage: PkgStage::Children { id, deps, optional, peers, phase, next },
                    },
                );
                self.call_package(&dn, &dr);
                proof {
                    assert(self.frames@.drop_last()[frames0.len() as int] == self.frames@[frames0.len() as int]);
                }
                return Action::Continue;
            }
            phase = 1;
            next = 0;
        }
        if phase == 1 {
            if next < optional.len() {
                let (dn, dr) = &optional[next];
                let dn = dn.view_clone();
                let dr = dr.view_clone();
                self.push_frame(
                    Frame::Package {
                        name,
                        req,
                        stage: PkgStage::Children { id, deps, optional, peers, phase, next },
                    },
                );
                self.call_package(&dn, &dr);
                proof {
                    assert(self.frames@.drop_last()[frames0.len() as int] == self.frames@[frames0.len() as int]);
                }
                return Action::Continue;
            }
            phase = 2;
            next = 0;
        }
        // Handle peer dependencies
        if next < peers.len() && !had_ret {
            let (pn, preq, is_optional) = &peers[next];
            let pn = pn.view_clone();
            let preq = preq.view_clone();
            let is_optional = *is_optional;
            let existing = match self.resolved_versions.get(pn.as_str()) {
                Some(v) => Some(v.view_clone()),
                None => None,
            };
            match existing {
                Some(existing_ver) => {
                    // Check if already resolved with a satisfying version
                    if version_satisfies(existing_ver.as_str(), preq.as_str()) {
                        let peer_id = PackageId::new(pn.as_str(), existing_ver.as_str());
                        if self.graph.contains(&peer_id) {
                            self.graph.add_dependency(&id, &peer_id, DepEdge::Peer);
                        }
                    } else {
                        self.peer_warning(&id, &pn, &preq, Some(existing_ver));
                        proof {
                            assert(self.peer_warnings@.take(old(self).peer_warnings@.len() as int) =~= old(self).peer_warnings@);
                        }
                    }
                    next = next + 1;
                },
                None => {
                    if self.auto_install_peers && !is_optional {
                        self.push_frame(
                            Frame::Package {
                                name,
                                req,
                                stage: PkgStage::Children { id, deps, optional, peers, phase, next },
                            },
                        );
                        self.call_package(&pn, &preq);
                        proof {
                            assert(self.frames@.drop_last()[frames0.len() as int] == self.frames@[frames0.len() as int]);
                        }
                        return Action::Continue;
                    } else if !is_optional {
                        self.peer_warning(&id, &pn, &preq, None);
                        proof {
                            assert(self.peer_warnings@.take(old(self).peer_warnings@.len() as int) =~= old(self).peer_warnings@);
                        }
                    }
                    next = next + 1;
                },
            }
        }
        if next < peers.len() {
            self.push_frame(
                Frame::Package {
                    name,
                    req,
                    stage: PkgStage::Children { id, deps, optional, peers, phase, next },
                },
            );
            Action::Continue
        } else {
            let ghost vb = self.visiting@;
            self.unvisit(&name);
            proof {
                let f = |m: StrMap<bool>| m@;
                if vb.len() > 0 {
                    let nv = self.visiting@;
                    let target = vb.map_values(f).drop_last().push(vb.map_values(f).last().remove(name@));
                    assert forall|i: int| 0 <= i < nv.len() implies nv.map_values(f)[i] == target[i] by {
                        if i < nv.len() - 1 {
                            assert(nv[i] == nv.drop_last()[i]);
                            assert(vb[i] == vb.drop_last()[i]);
                        }
                    }
                    assert(nv.map_values(f) =~= target);
                }
            }
            self.give(Ok(id))
        }
    }

    /// Hands out the graph, packages and warnings of the last resolution.
    fn take_state(&mut self) -> (r: (DependencyGraph, PackageTable, Vec<PeerWarning>))
        requires
            old(self).wf(),
        ensures
            final(self).wf(),
            final(self).listed() == old(self).listed(),
            final(self).platform_model() == old(self).platform_model(),
            forall|i: int|
                0 <= i < r.1.items().len() ==> has_node(r.0.nodes(), #[trigger] r.1.items()[i].id),
            forall|i: int|
                0 <= i < r.1.items().len() ==> resolved_ok(
                    old(self).listed(),
                    old(self).platform_model(),
                    #[trigger] r.1.items()[i],
                ),
            r.0 == old(self).graph,
            r.1 == old(self).packages,
            r.2 == old(self).peer_warnings,
            final(self).frames@.len() == 0,
            final(self).graph.nodes().len() == 0,
            final(self).graph.edges().len() == 0,
            final(self).packages.items().len() == 0,
            final(self).peer_warnings@.len() == 0,
            *final(self) == (Resolver {
                graph: final(self).graph,
                packages: final(self).packages,
                peer_warnings: final(self).peer_warnings,
                frames: final(self).frames,
                ..*old(self)
            }),
    {
        let mut graph = DependencyGraph::new();
        let mut packages = PackageTable::new();
        let mut warnings: Vec<PeerWarning> = Vec::new();
        std::mem::swap(&mut graph, &mut self.graph);
        std::mem::swap(&mut packages, &mut self.packages);
        std::mem::swap(&mut warnings, &mut self.peer_warnings);
        self.frames = Vec::new();
        (graph, packages, warnings)
    }

    /// The result of a finished `start_resolve`, once: `None` while the resolution
    /// runs or after the result was taken. Every resolved package is a node of the
    /// result's graph.
    pub fn take_result(&mut self) -> (r: Option<Result<ResolutionResult, AlchemyError>>)
        requires
            old(self).wf(),
        ensures
            final(self).wf(),
            r matches Some(Ok(res)) ==> forall|i: int|
                0 <= i < res.packages.items().len() ==> has_node(
                    res.graph.nodes(),
                    #[trigger] res.packages.items()[i].id,
                ),
            r matches Some(Ok(res)) ==> forall|i: int|
                0 <= i < res.packages.items().len() ==> resolved_ok(
                    old(self).listed(),
                    old(self).platform_model(),
                    #[trigger] res.packages.items()[i],
                ),
            r is None <==> old(self).outcome_view() is None,
            old(self).outcome_view() matches Some(Err(e)) ==> (r matches Some(Err(e2)) && e2 == e),
            final(self).outcome_view() is None,
            old(self).outcome_view() matches Some(Ok(done)) ==> (r matches Some(Ok(res))
                && res.packages.items() == old(self).resolved() && res.graph.nodes() == old(self).graph_nodes() && res.graph.edges() == old(self).graph_edges() && res.peer_warnings@
                == old(self).warnings() && res.direct_deps@ == if done.contains_key("."@) {
                done["."@]
            } else {
                Seq::<PackageId>::empty()
            }),
    {
        let mut out = None;
        std::mem::swap(&mut out, &mut self.outcome);
        match out {
            None => None,
            Some(Err(e)) => Some(Err(e)),
            Some(Ok(done)) => {
                let mut done = done;
                let direct_deps = match done.remove(".") {
                    Some(d) => d,
                    None => Vec::new(),
                };
                let (graph, packages, peer_warnings) = self.take_state();
                Some(Ok(ResolutionResult { graph, packages, direct_deps, peer_warnings }))
            },
        }
    }

    /// The result of a finished `start_resolve_workspace`, once.
    pub fn take_workspace_result(&mut self) -> (r: Option<
        Result<WorkspaceResolutionResult, AlchemyError>,
    >)
        requires
            old(self).wf(),
        ensures
            final(self).wf(),
            r matches Some(Ok(res)) ==> forall|i: int|
                0 <= i < res.packages.items().len() ==> has_node(
                    res.graph.nodes(),
                    #[trigger] res.packages.items()[i].id,
                ),
            r matches Some(Ok(res)) ==> forall|i: int|
                0 <= i < res.packages.items().len() ==> resolved_ok(
                    old(self).listed(),
                    old(self).platform_model(),
                    #[trigger] res.packages.items()[i],
                ),
            r is None <==> old(self).outcome_view() is None,
            old(self).outcome_view() matches Some(Err(e)) ==> (r matches Some(Err(e2)) && e2 == e),
            final(self).outcome_view() is None,
            old(self).outcome_view() matches Some(Ok(done)) ==> (r matches Some(Ok(res))
                && res.packages.items() == old(self).resolved() && res.graph.nodes() == old(self).graph_nodes() && res.graph.edges() == old(self).graph_edges() && res.peer_warnings@
                == old(self).warnings() && res.importers@ == done),
    {
        let mut out = None;
        std::mem::swap(&mut out, &mut self.outcome);
        match out {
            None => None,
            Some(Err(e)) => Some(Err(e)),
            Some(Ok(importers)) => {
                let (graph, packages, peer_warnings) = self.take_state();
                Some(Ok(WorkspaceResolutionResult { graph, packages, importers, peer_warnings }))
            },
        }
    }

    /// Begin resolving the dependencies of the root project.
    pub fn start_resolve(&mut self, root_deps: &StrMap<String>)
        ensures
            fresh_start(old(self).tables(), *final(self), seq![("."@, map_entries(root_deps@))]),
            final(self).wf(),
            final(self).has_room(),
            final(self).listed() == old(self).listed(),
            final(self).platform_model() == old(self).platform_model(),
    {
        let mut importers: Vec<(String, Vec<(String, String)>)> = Vec::new();
        importers.push((to_owned("."), entries_of(root_deps)));
        assert(importer_views(importers@) =~= seq![("."@, map_entries(root_deps@))]);
        self.reset(importers, false);
    }

    /// Begin resolving several importers (workspace packages) together.
    /// All share the same resolution state, ensuring dependency deduplication.
    pub fn start_resolve_workspace(&mut self, importers: &StrMap<StrMap<String>>)
        ensures
            fresh_start(
                old(self).tables(),
                *final(self),
                ordered_keys(importers@).map_values(
                    |k: Seq<char>| (k, map_entries(importers@[k])),
                ),
            ),
            final(self).wf(),
            final(self).has_room(),
            final(self).listed() == old(self).listed(),
            final(self).platform_model() == old(self).platform_model(),
    {
        let n = importers.len();
        let mut list: Vec<(String, Vec<(String, String)>)> = Vec::new();
        let mut i: usize = 0;
        let ghost want = ordered_keys(importers@).map_values(
            |k: Seq<char>| (k, map_entries(importers@[k])),
        );
        while i < n
            invariant
                i <= n == importers.key_seq().len(),
                importers.key_seq() == ordered_keys(importers@),
                want == ordered_keys(importers@).map_values(
                    |k: Seq<char>| (k, map_entries(importers@[k])),
                ),
                importer_views(list@) == want.take(i as int),
            decreases n - i,
        {
            let (k, deps) = importers.get_index(i);
            let ghost before = list@;
            let e = entries_of(deps);
            let kc = k.view_clone();
            assert(want[i as int] == (kc@, entry_views(e@)));
            list.push((kc, e));
            assert(importer_views(list@) =~= importer_views(before).push((kc@, entry_views(e@))));
            assert(want.take(i + 1) =~= want.take(i as int).push(want[i as int]));
            i = i + 1;
        }
        assert(want.take(n as int) =~= want);
        self.reset(list, true);
    }
}


// ---------------------------------------------------------------------------
// What one step does, by the frame on top
// ---------------------------------------------------------------------------

/// The direct dependencies of the current importer once the result just handed back
/// is counted.
pub open spec fn direct_after(direct: Seq<PackageId>, ret: Option<Result<PackageId, AlchemyError>>) -> Seq<PackageId> {
    match ret {
        Some(Ok(id)) => direct.push(id),
        _ => direct,
    }
}

/// The importers frame a step on it keeps: at the next dependency of the same
/// importer (below a scope and that dependency's specifier), with the result counted
/// among the importer's direct dependencies; or, past the importer's last
/// dependency, at the start of the next importer, the finished one recorded.
pub open spec fn roots_frames(
    fin: Resolver,
    rest: Seq<Frame>,
    ret: Option<Result<PackageId, AlchemyError>>,
    importers: Vec<(String, Vec<(String, String)>)>,
    imp: usize,
    next: usize,
    direct: Vec<PackageId>,
    done: StrMap<Vec<PackageId>>,
) -> bool {
    let n2 = counted(next, ret);
    !(ret matches Some(Err(_))) && imp < importers@.len() ==> {
        &&& fin.handed() is None
        &&& if n2 < importers@[imp as int].1@.len() {
            &&& fin.stack()[rest.len() as int] matches Frame::Roots {
                importers: i1,
                imp: i2,
                next: x2,
                direct: d2,
                done: dn2,
            }
            &&& i1 == importers && i2 == imp && x2 == n2 && d2@ == direct_after(direct@, ret)
                && dn2 == done
            &&& fin.stack()[rest.len() + 1int] is Scope
        } else {
            &&& fin.stack().last() matches Frame::Roots {
                importers: i1,
                imp: i2,
                next: 0,
                direct: d2,
                done: dn2,
            }
            &&& i1 == importers && i2 == imp + 1 && d2@.len() == 0 && dn2@ == done@.insert(
                importers@[imp as int].0@,
                direct_after(direct@, ret),
            )
        }
    }
}

/// The frames a step on a `file:` package's dependencies keeps when it calls the
/// next one: the same package at the next position, then a scope.
pub open spec fn path_deps_frames(
    stack: Seq<Frame>,
    rest: Seq<Frame>,
    ret: Option<Result<PackageId, AlchemyError>>,
    id: PackageId,
    deps: Vec<(String, String)>,
    next: usize,
) -> bool {
    !(ret matches Some(Err(_))) && counted(next, ret) < deps@.len() ==> {
        &&& stack.drop_last().drop_last() == rest.push(
            Frame::PathDeps { id, deps, next: counted(next, ret) as usize },
        )
        &&& stack[rest.len() + 1int] is Scope
    }
}

/// Choosing a version keeps the frames below, adds at most one frame for the
/// package, and leaves the outcome as it was.
pub open spec fn choose_frames(before: ResolverTables, fin: Resolver, rest: Seq<Frame>) -> bool {
    &&& fin.tables().outcome == before.outcome
    &&& fin.stack() == rest || (fin.stack().drop_last() == rest && fin.stack().last() is Package)
}

/// A step on the importers frame, with `rest` the frames below it and `ret` what the
/// last call handed back: a failure ends the resolution with that error; when every
/// importer is done the resolution ends with the direct dependencies of each;
/// otherwise the next dependency of the current importer is resolved (after the
/// importers frame, a scope and the dependency's specifier), or the next importer
/// begins.
pub open spec fn roots_step(
    before: ResolverTables,
    fin: Resolver,
    a: Action,
    rest: Seq<Frame>,
    ret: Option<Result<PackageId, AlchemyError>>,
    importers: Vec<(String, Vec<(String, String)>)>,
    imp: usize,
    next: usize,
    direct: Vec<PackageId>,
    done: StrMap<Vec<PackageId>>,
) -> bool {
    let n2 = counted(next, ret);
    &&& roots_frames(fin, rest, ret, importers, imp, next, direct, done)
    &&& ret matches Some(Err(e)) ==> a is Finished && fin.outcome_view() == Some(
        Err::<Map<Seq<char>, Seq<PackageId>>, AlchemyError>(e),
    ) && fin.stack().len() == 0 && fin.tables() == (ResolverTables {
        outcome: Some(Err::<Map<Seq<char>, Seq<PackageId>>, AlchemyError>(e)),
        visits: Seq::empty(),
        ..before
    })
    &&& !(ret matches Some(Err(_))) && imp >= importers@.len() ==> a is Finished
        && fin.stack() == rest && fin.tables() == (ResolverTables {
        outcome: Some(Ok::<Map<Seq<char>, Seq<PackageId>>, AlchemyError>(done@)),
        visits: Seq::empty(),
        ..before
    })
    &&& !(ret matches Some(Err(_))) && imp < importers@.len() ==> a is Continue
        && if n2 < importers@[imp as int].1@.len() {
        &&& fin.stack().len() == rest.len() + 3
        &&& fin.tables() == (ResolverTables { visits: before.visits.push(Map::empty()), ..before })
        &&& fin.stack()[rest.len() as int] matches Frame::Roots { imp: i2, next: x2, .. } && i2
            == imp && x2 == n2
        &&& fin.stack().last() matches Frame::Specifier { name: dn, req: dr } && dn@
            == importers@[imp as int].1@[n2].0@ && dr@ == importers@[imp as int].1@[n2].1@
    } else {
        &&& fin.stack().len() == rest.len() + 1
        &&& fin.tables() == before
        &&& fin.stack().last() matches Frame::Roots { imp: i2, next: 0, .. } && i2 == imp + 1
    }
}

/// A step on a dependency's specifier: a registry range resolves the package; a
/// `file:` path reads its package.json; a git or tarball dependency is fetched when
/// the resolver may, and fails otherwise; an `npm:` alias resolves the aliased
/// package under the alias; a `workspace:` specifier fails.
pub open spec fn specifier_step(
    before: ResolverTables,
    fin: Resolver,
    a: Action,
    rest: Seq<Frame>,
    name: String,
    req: String,
) -> bool {
    let base = path_base(before.base_dir);
    &&& fin.tables() == before
    &&& spec_parse(req@) matches SpecifierModel::Registry(v) ==> a is Continue
        && fin.stack().drop_last() == rest && (fin.stack().last() matches Frame::Package {
        name: n,
        req: q,
        stage: PkgStage::Start,
    } && n@ == name@ && q@ == v)
    &&& spec_parse(req@) matches SpecifierModel::Path(rel) ==> (a matches Action::ReadManifest(p)
        && p@ == spec_join(spec_join(base, rel), "package.json"@)) && fin.stack().drop_last()
        == rest && (fin.stack().last() matches Frame::PathManifest { name: n, dir: d } && n@
        == name@ && d@ == spec_join(base, rel))
    &&& spec_parse(req@) matches SpecifierModel::Git(u, c) ==> if before.non_registry {
        &&& a matches Action::FetchGit { name: n, url: u2, commitish: c2 } && n@ == name@ && u2@
            == u && opt_seq(c2) == c
        &&& fin.stack().drop_last() == rest
        &&& fin.stack().last() matches Frame::Fetch { name: n, url: u2, commitish: c2, git: true }
            && n@ == name@ && u2@ == u && opt_seq(c2) == c
    } else {
        a is Continue && fin.stack() == rest && fin.handed() matches Some(
            Err(AlchemyError::ResolutionFailed(_)),
        )
    }
    &&& spec_parse(req@) matches SpecifierModel::Url(u) ==> if before.non_registry {
        &&& a matches Action::FetchUrl { name: n, url: u2 } && n@ == name@ && u2@ == u
        &&& fin.stack().drop_last() == rest
        &&& fin.stack().last() matches Frame::Fetch { name: n, url: u2, commitish: None, git: false }
            && n@ == name@ && u2@ == u
    } else {
        a is Continue && fin.stack() == rest && fin.handed() matches Some(
            Err(AlchemyError::ResolutionFailed(_)),
        )
    }
    &&& spec_parse(req@) matches SpecifierModel::Alias(pkg, inner) ==> {
        &&& a is Continue
        &&& fin.stack().len() == rest.len() + 2
        &&& fin.stack().drop_last().drop_last() == rest
        &&& fin.stack()[rest.len() as int] matches Frame::AliasOf { name: n } && n@ == name@
        &&& fin.stack().last() matches Frame::Package { name: n, req: q, stage: PkgStage::Start }
            && n@ == pkg && q@ == match *inner {
            SpecifierModel::Registry(r) => r,
            _ => "*"@,
        }
    }
    &&& spec_parse(req@) is Workspace ==> a is Continue && fin.stack() == rest && fin.handed() matches Some(
        Err(AlchemyError::ResolutionFailed(_)),
    )
}

/// The package a `file:` dependency resolves to: its package.json's version (else
/// 0.0.0) and dependencies, the directory it is in, and no tarball URL or integrity.
pub open spec fn path_package(name: Seq<char>, dir: Seq<char>, m: Manifest) -> ResolvedModel {
    ResolvedModel {
        id: (name, manifest_version(m)),
        tarball_url: Seq::empty(),
        integrity: None,
        source_path: Some(dir),
        dependencies: m.dependencies@,
        peer_dependencies: m.peer_dependencies@,
        optional_dependencies: m.optional_dependencies@,
        bin: opt_bin(m.bin),
        os: None,
        cpu: None,
        engines: None,
    }
}

/// What reading a `file:` package's package.json does: a package already resolved
/// with that id is handed back and nothing changes; otherwise the package is recorded
/// (its version chosen for its name) and its dependencies, in key order, are resolved
/// next.
pub open spec fn path_manifest_moves(
    before: ResolverTables,
    fin: Resolver,
    rest: Seq<Frame>,
    name: String,
    dir: String,
    m: Manifest,
) -> bool {
    let id = (name@, manifest_version(m));
    if has_id(before.resolved, id) {
        &&& fin.tables() == before
        &&& fin.handed() matches Some(Ok(pid))
        &&& pid@ == id
        &&& fin.stack() == rest
    } else {
        &&& fin.tables() == (ResolverTables {
            chosen: before.chosen.insert(name@, manifest_version(m)),
            resolved: before.resolved.push(path_package(name@, dir@, m)),
            nodes: fin.tables().nodes,
            ..before
        })
        &&& fin.stack().drop_last() == rest
        &&& fin.stack().last() matches Frame::PathDeps { id: pid, deps: d, next: 0 }
        &&& pid@ == id
        &&& entry_views(d@) == map_entries(m.dependencies@)
    }
}

/// A step on a `file:` dependency: a package.json read records the package (version
/// 0.0.0 when it has none) and resolves its dependencies, or hands it back when it
/// was known; a failure is handed back; without an answer the package.json is asked
/// for.
pub open spec fn path_manifest_step(
    before: ResolverTables,
    fin: Resolver,
    a: Action,
    rest: Seq<Frame>,
    name: String,
    dir: String,
    event: Option<Event>,
) -> bool {
    &&& event matches Some(Event::Manifest(Ok(m))) ==> path_manifest_moves(before, fin, rest, name, dir, m)
    &&& !(event matches Some(Event::Manifest(Ok(_)))) ==> fin.tables() == before
    &&& event matches Some(Event::Manifest(Ok(m))) ==> fin.tables() == before || fin.tables() == (
    ResolverTables {
        chosen: before.chosen.insert(name@, manifest_version(m)),
        resolved: fin.tables().resolved,
        nodes: fin.tables().nodes,
        ..before
    })
    &&& event matches Some(Event::Manifest(Ok(m))) ==> a is Continue && has_id(
        fin.resolved(),
        (name@, manifest_version(m)),
    ) && ((fin.handed() matches Some(Ok(pid)) && pid@ == (name@, manifest_version(m))
        && fin.stack() == rest) || (fin.handed() is None && fin.stack().drop_last() == rest
        && (fin.stack().last() matches Frame::PathDeps { id: pid, next: 0, .. } && pid@ == (
        name@,
        manifest_version(m),
    ))))
    &&& event matches Some(Event::Manifest(Err(e))) ==> a is Continue && fin.handed() == Some(
        Err::<PackageId, AlchemyError>(e),
    ) && fin.stack() == rest
    &&& !(event matches Some(Event::Manifest(_))) ==> (a matches Action::ReadManifest(p) && p@
        == spec_join(dir@, "package.json"@)) && fin.stack() == rest.push(
        Frame::PathManifest { name, dir },
    )
}

/// What a step on the dependencies of a `file:` package does to the tables: only the
/// graph changes, and a fresh visit set is opened when the next dependency is called.
pub open spec fn path_deps_tables(before: ResolverTables, after: ResolverTables, calls: bool) -> bool {
    &&& after == (ResolverTables {
        nodes: after.nodes,
        edges: after.edges,
        visits: after.visits,
        ..before
    })
    &&& after.visits == if calls {
        before.visits.push(Map::empty())
    } else {
        before.visits
    }
}

/// A step on the dependencies of a `file:` package: a failure is handed back; a
/// resolved dependency becomes an edge; the next dependency is resolved, or, when
/// none is left, the package is handed back.
pub open spec fn path_deps_step(
    before: ResolverTables,
    fin: Resolver,
    a: Action,
    rest: Seq<Frame>,
    ret: Option<Result<PackageId, AlchemyError>>,
    id: PackageId,
    deps: Vec<(String, String)>,
    next: usize,
) -> bool {
    let n2 = counted(next, ret);
    &&& path_deps_frames(fin.stack(), rest, ret, id, deps, next)
    &&& path_deps_tables(before, fin.tables(), !(ret matches Some(Err(_))) && n2 < deps@.len())
    &&& ret matches Some(Err(e)) ==> a is Continue && fin.handed() == Some(
        Err::<PackageId, AlchemyError>(e),
    ) && fin.stack() == rest
    &&& ret matches Some(Ok(child)) ==> last_edge_is(
        fin.graph_nodes(),
        fin.graph_edges(),
        id@,
        child@,
        DepEdge::Normal,
    )
    &&& !(ret matches Some(Err(_))) ==> a is Continue && if n2 < deps@.len() {
        &&& fin.stack().len() == rest.len() + 3
        &&& fin.stack()[rest.len() as int] matches Frame::PathDeps { id: i2, next: x2, .. } && i2
            == id && x2 == n2
        &&& fin.stack().last() matches Frame::Specifier { name: dn, req: dr } && dn@
            == deps@[n2].0@ && dr@ == deps@[n2].1@
    } else {
        fin.stack() == rest && (fin.handed() matches Some(Ok(pid)) && pid == id)
    }
}

/// The package a git or tarball dependency resolves to: read from its package.json,
/// in the directory it was unpacked to, with the tarball URL for a tarball and none
/// for git, and no integrity.
pub open spec fn fetched_package(name: Seq<char>, url: Seq<char>, fp: FetchedPackage, git: bool) -> ResolvedModel {
    ResolvedModel {
        id: (name, fetched_version(fp, git)),
        tarball_url: if git {
            Seq::empty()
        } else {
            url
        },
        integrity: None,
        source_path: Some(fp.source_path@),
        dependencies: fp.manifest.dependencies@,
        peer_dependencies: fp.manifest.peer_dependencies@,
        optional_dependencies: fp.manifest.optional_dependencies@,
        bin: opt_bin(fp.manifest.bin),
        os: None,
        cpu: None,
        engines: None,
    }
}

/// What a fetched git or tarball package does to the tables: none change when a
/// package with its id is already resolved; otherwise it is recorded, its version
/// chosen for its name.
pub open spec fn fetch_tables(before: ResolverTables, after: ResolverTables, name: Seq<char>, url: Seq<char>, fp: FetchedPackage, git: bool) -> bool {
    if has_id(before.resolved, (name, fetched_version(fp, git))) {
        after == before
    } else {
        after == (ResolverTables {
            chosen: before.chosen.insert(name, fetched_version(fp, git)),
            resolved: before.resolved.push(fetched_package(name, url, fp, git)),
            nodes: after.nodes,
            ..before
        })
    }
}

/// A step on a git or tarball dependency: a fetched package is recorded (unless
/// known) and handed back; a failure is handed back; without an answer the package
/// is asked for.
pub open spec fn fetch_step(
    before: ResolverTables,
    fin: Resolver,
    a: Action,
    rest: Seq<Frame>,
    name: String,
    url: String,
    commitish: Option<String>,
    git: bool,
    event: Option<Event>,
) -> bool {
    &&& event matches Some(Event::Fetched(Ok(fp))) ==> fetch_tables(before, fin.tables(), name@, url@, fp, git)
    &&& !(event matches Some(Event::Fetched(Ok(_)))) ==> fin.tables() == before
    &&& event matches Some(Event::Fetched(Ok(fp))) ==> fin.tables() == before || fin.tables() == (
    ResolverTables {
        chosen: before.chosen.insert(name@, fetched_version(fp, git)),
        resolved: fin.tables().resolved,
        nodes: fin.tables().nodes,
        ..before
    })
    &&& event matches Some(Event::Fetched(Ok(fp))) ==> a is Continue && fin.stack() == rest
        && (fin.handed() matches Some(Ok(pid)) && pid@ == (name@, fetched_version(fp, git)))
        && has_id(fin.resolved(), (name@, fetched_version(fp, git)))
    &&& event matches Some(Event::Fetched(Err(e))) ==> a is Continue && fin.handed() == Some(
        Err::<PackageId, AlchemyError>(e),
    ) && fin.stack() == rest
    &&& !(event matches Some(Event::Fetched(_))) ==> {
        &&& git ==> (a matches Action::FetchGit { name: n, url: u, commitish: c } && n == name && u
            == url && c == commitish)
        &&& !git ==> (a matches Action::FetchUrl { name: n, url: u } && n == name && u == url)
        &&& fin.stack().drop_last() == rest
        &&& fin.stack().last() matches Frame::Fetch { name: n, url: u, commitish: c, git: g } && n@
            == name@ && u@ == url@ && opt_seq(c) == opt_seq(commitish) && g == git
    }
}

/// The start of resolving a registry package: a chosen version that satisfies the
/// range is handed back; a package met again while it is being visited hands back
/// its chosen version, or fails when it has none (a cycle); otherwise the package is
/// visited and its versions are asked for, or chosen from when known.
pub open spec fn package_start_step(
    before: ResolverTables,
    fin: Resolver,
    a: Action,
    rest: Seq<Frame>,
    name: String,
    req: String,
) -> bool {
    let rv = before.chosen;
    let reuse = rv.contains_key(name@) && spec_version_satisfies(rv[name@], req@);
    let vis = before.visits.len() > 0 && before.visits.last().contains_key(name@);
    &&& reuse || vis ==> fin.tables() == before
    &&& !reuse && !vis ==> fin.tables() == (ResolverTables { visits: fin.tables().visits, ..before })
    &&& reuse ==> a is Continue && fin.stack() == rest && (fin.handed() matches Some(Ok(pid))
        && pid@ == (name@, rv[name@]))
    &&& !reuse && vis && rv.contains_key(name@) ==> a is Continue && fin.stack() == rest && (
    fin.handed() matches Some(Ok(pid)) && pid@ == (name@, rv[name@]))
    &&& !reuse && vis && !rv.contains_key(name@) ==> a is Continue && fin.stack() == rest && (
    fin.handed() matches Some(Err(AlchemyError::ResolutionFailed(_))))
    &&& !reuse && !vis ==> fin.in_visit(name@) && if before.listed.contains_key(name@) {
        a is Continue && fin.stack() == rest.push(
            Frame::Package { name, req, stage: PkgStage::Choose },
        )
    } else {
        (a matches Action::FetchVersions(n) && n@ == name@) && fin.stack() == rest.push(
            Frame::Package { name, req, stage: PkgStage::AwaitVersions },
        )
    }
}

/// Waiting for a package's versions: versions handed in are kept and chosen from; a
/// failure is handed back; without an answer they are asked for again (unless known).
pub open spec fn await_step(
    before: ResolverTables,
    fin: Resolver,
    a: Action,
    rest: Seq<Frame>,
    name: String,
    req: String,
    event: Option<Event>,
) -> bool {
    &&& event matches Some(Event::Versions(Ok(_))) ==> fin.tables() == (ResolverTables {
        listed: fin.tables().listed,
        ..before
    })
    &&& !(event matches Some(Event::Versions(Ok(_)))) ==> fin.tables() == before
    &&& event matches Some(Event::Versions(Ok(vs))) ==> a is Continue && fin.listed().contains_key(
        name@,
    ) && fin.stack() == rest.push(Frame::Package { name, req, stage: PkgStage::Choose })
    &&& event matches Some(Event::Versions(Err(e))) ==> a is Continue && fin.handed() == Some(
        Err::<PackageId, AlchemyError>(e),
    ) && fin.stack() == rest
    &&& !(event matches Some(Event::Versions(_))) ==> if before.listed.contains_key(name@) {
        a is Continue && fin.stack() == rest.push(
            Frame::Package { name, req, stage: PkgStage::Choose },
        )
    } else {
        (a matches Action::FetchVersions(n) && n@ == name@) && fin.stack() == rest.push(
            Frame::Package { name, req, stage: PkgStage::AwaitVersions },
        )
    }
}

/// Choosing a version: the highest listed version satisfying the range is recorded
/// and its dependencies are resolved next; no satisfying version, or one that does
/// not suit the platform, is a failure handed back; unknown versions are asked for.
pub open spec fn choose_step(
    before: ResolverTables,
    fin: Resolver,
    a: Action,
    rest: Seq<Frame>,
    name: String,
    req: String,
) -> bool {
    let vs = before.listed[name@];
    &&& choose_frames(before, fin, rest)
    &&& !before.listed.contains_key(name@) ==> (a matches Action::FetchVersions(n) && n@ == name@)
        && fin.tables() == before && fin.stack() == rest.push(Frame::Package { name, req, stage: PkgStage::AwaitVersions })
    &&& before.listed.contains_key(name@) ==> {
        &&& a is Continue
        &&& forall|i: int|
            #[trigger] is_best(version_texts(vs), req@, i) && fits(before.platform, vs[i])
                ==> fin.tables() == (ResolverTables {
                chosen: before.chosen.insert(name@, vs[i].version@),
                resolved: with_package(before.resolved, version_package(name@, vs[i])),
                nodes: fin.tables().nodes,
                ..before
            }) && has_id(fin.resolved(), (name@, vs[i].version@)) && fin.stack().drop_last()
                == rest && (fin.stack().last() matches Frame::Package {
                stage: PkgStage::Children { id: pid, phase: 0, next: 0, .. },
                ..
            } && pid@ == (name@, vs[i].version@))
        &&& (forall|j: int| !#[trigger] is_candidate(version_texts(vs), req@, j)) ==> fin.tables() == before && fin.stack()
            == rest && (fin.handed() matches Some(Err(AlchemyError::VersionNotFound(n, q))) && n@
            == name@ && q@ == req@)
        &&& (exists|i: int|
            #[trigger] is_best(version_texts(vs), req@, i) && !fits(before.platform, vs[i]))
            ==> fin.tables() == before && fin.stack() == rest && (fin.handed() matches Some(
            Err(AlchemyError::Other(_)),
        ))
    }
}

/// The visits after a package is no longer visited: `name` leaves the innermost set.
pub open spec fn unvisited(visits: Seq<Map<Seq<char>, bool>>, name: Seq<char>) -> Seq<
    Map<Seq<char>, bool>,
> {
    if visits.len() > 0 {
        visits.drop_last().push(visits.last().remove(name))
    } else {
        visits
    }
}

/// What a step on a package's dependencies does to the tables: only the graph, the
/// peer warnings and the visits may change; warnings are only added, and only for a
/// package with peers; the package leaves the visits when it is handed back, and the
/// visits stay as they were otherwise.
pub open spec fn children_tables(
    before: ResolverTables,
    after: ResolverTables,
    name: Seq<char>,
    has_peers: bool,
    done: bool,
) -> bool {
    &&& after == (ResolverTables {
        nodes: after.nodes,
        edges: after.edges,
        warnings: after.warnings,
        visits: after.visits,
        ..before
    })
    &&& before.warnings.len() <= after.warnings.len()
    &&& after.warnings.take(before.warnings.len() as int) == before.warnings
    &&& !has_peers ==> after.warnings == before.warnings
    &&& done ==> after.visits == unvisited(before.visits, name)
    &&& !done ==> after.visits == before.visits
}

/// Where a package's dependency list stands once the result just handed back is
/// counted: each result but a failed dependency moves on by one.
pub open spec fn advanced(phase: u8, next: usize, ret: Option<Result<PackageId, AlchemyError>>) -> usize {
    if ret is Some && !(phase == 0 && ret matches Some(Err(_))) && next < usize::MAX {
        (next + 1) as usize
    } else {
        next
    }
}

/// The phase and position the step goes on from: past the end of the dependencies
/// the optional dependencies begin, and past those the peers.
pub open spec fn settled(phase: u8, n: usize, deps_len: nat, optional_len: nat) -> (u8, usize) {
    if phase == 0 {
        if n < deps_len {
            (0u8, n)
        } else if 0 < optional_len {
            (1u8, 0usize)
        } else {
            (2u8, 0usize)
        }
    } else if phase == 1 {
        if n < optional_len {
            (1u8, n)
        } else {
            (2u8, 0usize)
        }
    } else {
        (phase, n)
    }
}

/// The frame of a package whose dependencies are being resolved.
pub open spec fn children_frame(
    name: String,
    req: String,
    id: PackageId,
    deps: Vec<(String, String)>,
    optional: Vec<(String, String)>,
    peers: Vec<(String, String, bool)>,
    phase: u8,
    next: usize,
) -> Frame {
    Frame::Package {
        name,
        req,
        stage: PkgStage::Children { id, deps, optional, peers, phase, next },
    }
}

/// The step keeps `kept` and calls `resolve_package(dn, dr)` above it.
pub open spec fn calls_with(fin: Resolver, rest: Seq<Frame>, kept: Frame, dn: Seq<char>, dr: Seq<char>) -> bool {
    &&& fin.handed() is None
    &&& fin.stack().len() == rest.len() + 2
    &&& fin.stack().drop_last() == rest.push(kept)
    &&& fin.stack().last() matches Frame::Package { name: n, req: q, stage: PkgStage::Start }
    &&& n@ == dn
    &&& q@ == dr
}

/// What the step on a package's dependencies does next. A failed (normal) dependency
/// is handed back (stated beside). Otherwise, counting the result just handed back:
/// while dependencies, then optional dependencies, remain, the frame is kept at the
/// next one and that one is resolved. Then the peers, one per step: a peer that no
/// package name has been chosen for is resolved (when peers are installed and it is
/// not optional); any other peer is only looked at. A frame with peers left is kept
/// at the next peer; when none is left the package is handed back.
pub open spec fn children_moves(
    before: ResolverTables,
    fin: Resolver,
    rest: Seq<Frame>,
    ret: Option<Result<PackageId, AlchemyError>>,
    name: String,
    req: String,
    id: PackageId,
    deps: Vec<(String, String)>,
    optional: Vec<(String, String)>,
    peers: Vec<(String, String, bool)>,
    phase: u8,
    next: usize,
) -> bool {
    let (ph, nx) = settled(phase, advanced(phase, next, ret), deps@.len(), optional@.len());
    let peer = peers@[nx as int];
    let takes = nx < peers@.len() && ret is None;
    let n3: usize = if takes {
        (nx + 1) as usize
    } else {
        nx
    };
    if phase == 0 && ret matches Some(Err(_)) {
        true
    } else if ph == 0 {
        calls_with(
            fin,
            rest,
            children_frame(name, req, id, deps, optional, peers, ph, nx),
            deps@[nx as int].0@,
            deps@[nx as int].1@,
        )
    } else if ph == 1 {
        calls_with(
            fin,
            rest,
            children_frame(name, req, id, deps, optional, peers, ph, nx),
            optional@[nx as int].0@,
            optional@[nx as int].1@,
        )
    } else if takes && !before.chosen.contains_key(peer.0@) && before.installs_peers && !peer.2 {
        calls_with(
            fin,
            rest,
            children_frame(name, req, id, deps, optional, peers, ph, nx),
            peer.0@,
            peer.1@,
        )
    } else if n3 < peers@.len() {
        fin.handed() is None && fin.stack() == rest.push(
            children_frame(name, req, id, deps, optional, peers, ph, n3),
        )
    } else {
        fin.handed() == Some(Ok::<PackageId, AlchemyError>(id)) && fin.stack() == rest
    }
}

/// The entries of a list from position `next` on.
pub open spec fn left_in(len: nat, next: usize) -> nat {
    if next < len {
        (len - next) as nat
    } else {
        0
    }
}

/// The entries a package's frame still has to go through: the rest of the current
/// list and all the lists after it (dependencies, optional dependencies, peers).
pub open spec fn children_left(deps_len: nat, optional_len: nat, peers_len: nat, phase: u8, next: usize) -> nat {
    if phase == 0 {
        left_in(deps_len, next) + optional_len + peers_len
    } else if phase == 1 {
        left_in(optional_len, next) + peers_len
    } else {
        left_in(peers_len, next)
    }
}

/// The length of the list a phase goes through.
pub open spec fn phase_len(deps_len: nat, optional_len: nat, peers_len: nat, phase: u8) -> nat {
    if phase == 0 {
        deps_len
    } else if phase == 1 {
        optional_len
    } else {
        peers_len
    }
}

/// Each step on a package's dependencies makes progress. The frame it keeps has no
/// more entries left than before, and one fewer for the result it counted; when it
/// keeps the frame without calling a dependency, strictly fewer. So a package's
/// frame goes through each of its dependencies, optional dependencies and peers once,
/// and is handed back after the last.
pub proof fn lemma_children_progress(
    before: ResolverTables,
    fin: Resolver,
    rest: Seq<Frame>,
    ret: Option<Result<PackageId, AlchemyError>>,
    name: String,
    req: String,
    id: PackageId,
    deps: Vec<(String, String)>,
    optional: Vec<(String, String)>,
    peers: Vec<(String, String, bool)>,
    phase: u8,
    next: usize,
    p: u8,
    x: usize,
)
    requires
        children_moves(before, fin, rest, ret, name, req, id, deps, optional, peers, phase, next),
        !(phase == 0 && ret matches Some(Err(_))),
        phase <= 2,
        deps@.len() <= usize::MAX,
        optional@.len() <= usize::MAX,
        peers@.len() <= usize::MAX,
        next <= phase_len(deps@.len(), optional@.len(), peers@.len(), phase),
        ret is Some ==> next < phase_len(deps@.len(), optional@.len(), peers@.len(), phase),
        fin.stack().len() > rest.len(),
        fin.stack()[rest.len() as int] == children_frame(name, req, id, deps, optional, peers, p, x),
    ensures
        children_left(deps@.len(), optional@.len(), peers@.len(), p, x) + (if ret is Some {
            1int
        } else {
            0int
        }) <= children_left(deps@.len(), optional@.len(), peers@.len(), phase, next),
        fin.stack().len() == rest.len() + 1 ==> children_left(
            deps@.len(),
            optional@.len(),
            peers@.len(),
            p,
            x,
        ) < children_left(deps@.len(), optional@.len(), peers@.len(), phase, next),
{
    let (ph, nx) = settled(phase, advanced(phase, next, ret), deps@.len(), optional@.len());
    let takes = nx < peers@.len() && ret is None;
    let n3: usize = if takes {
        (nx + 1) as usize
    } else {
        nx
    };
    if ph == 0 || ph == 1 || (takes && !before.chosen.contains_key(peers@[nx as int].0@)
        && before.installs_peers && !peers@[nx as int].2) {
        assert(fin.stack().drop_last()[rest.len() as int] == children_frame(name, req, id, deps, optional, peers, ph, nx));
        assert(p == ph && x == nx);
    } else if n3 < peers@.len() {
        assert(fin.stack()[rest.len() as int] == children_frame(name, req, id, deps, optional, peers, ph, n3));
        assert(p == ph && x == n3);
    } else {
        assert(fin.stack() == rest);
    }
}

/// A step on the dependencies of a registry package: a resolved dependency (or
/// optional dependency, or peer) becomes an edge of that kind; a failed dependency
/// is handed back; otherwise either the package is handed back, no longer visited,
/// or its frame stays with more to resolve.
pub open spec fn children_step(
    before: ResolverTables,
    fin: Resolver,
    a: Action,
    rest: Seq<Frame>,
    ret: Option<Result<PackageId, AlchemyError>>,
    name: String,
    req: String,
    id: PackageId,
    deps: Vec<(String, String)>,
    optional: Vec<(String, String)>,
    peers: Vec<(String, String, bool)>,
    phase: u8,
    next: usize,
) -> bool {
    let has_peers = peers@.len() > 0;
    &&& a is Continue
    &&& children_moves(before, fin, rest, ret, name, req, id, deps, optional, peers, phase, next)
    &&& children_tables(before, fin.tables(), name@, has_peers, fin.handed() matches Some(Ok(_)))
    &&& phase == 0 ==> (ret matches Some(Err(e)) ==> fin.handed() == Some(
        Err::<PackageId, AlchemyError>(e),
    ) && fin.stack() == rest)
    &&& ret matches Some(Ok(child)) ==> last_edge_is(
        fin.graph_nodes(),
        fin.graph_edges(),
        id@,
        child@,
        phase_kind(phase),
    )
    &&& !(ret matches Some(Err(_)) && phase == 0) ==> ((fin.handed() matches Some(Ok(pid)) && pid
        == id) && fin.stack() == rest && !fin.in_visit(name@)) || (fin.handed() is None
        && fin.stack().len() > rest.len() && (fin.stack()[rest.len() as int] matches Frame::Package {
        name: n,
        stage: PkgStage::Children { id: i2, .. },
        ..
    } && n == name && i2 == id))
}

/// The effect that the helper of `step` states for this frame, gathered into [`roots_step`].
proof fn lemma_roots_step(
    old_r: Resolver,
    fin: Resolver,
    a: Action,
    rest: Seq<Frame>,
    ret: Option<Result<PackageId, AlchemyError>>,
    importers: Vec<(String, Vec<(String, String)>)>,
    imp: usize,
    next: usize,
    direct: Vec<PackageId>,
    done: StrMap<Vec<PackageId>>,
)
    requires
        roots_frames(fin, rest, ret, importers, imp, next, direct, done),
        ret matches Some(Err(e)) ==> a is Finished && fin.outcome_view() == Some(
            Err::<Map<Seq<char>, Seq<PackageId>>, AlchemyError>(e),
        ) && fin.stack().len() == 0,
        !(ret matches Some(Err(_))) && imp >= importers@.len() ==> a is Finished && fin.outcome_view()
            == Some(Ok::<Map<Seq<char>, Seq<PackageId>>, AlchemyError>(done@)) && fin.stack() == rest,
        !(ret matches Some(Err(_))) && imp < importers@.len() ==> a is Continue && fin.outcome_view()
            == old_r.outcome_view() && if counted(next, ret) < importers@[imp as int].1@.len() {
            fin.stack().len() == rest.len() + 3 && (fin.stack()[rest.len() as int] matches Frame::Roots {
                imp: i2,
                next: x2,
                ..
            } && i2 == imp && x2 == counted(next, ret)) && (fin.stack().last() matches Frame::Specifier {
                name: n,
                req: q,
            } && n@ == importers@[imp as int].1@[counted(next, ret)].0@ && q@
                == importers@[imp as int].1@[counted(next, ret)].1@)
        } else {
            fin.stack().len() == rest.len() + 1 && (fin.stack().last() matches Frame::Roots {
                imp: i2,
                next: 0,
                ..
            } && i2 == imp + 1)
        },
        ret matches Some(Err(e)) ==> fin.tables() == (ResolverTables {
            outcome: Some(Err::<Map<Seq<char>, Seq<PackageId>>, AlchemyError>(e)),
            visits: Seq::empty(),
            ..old_r.tables()
        }),
        !(ret matches Some(Err(_))) && imp >= importers@.len() ==> fin.tables() == (ResolverTables {
            outcome: Some(Ok::<Map<Seq<char>, Seq<PackageId>>, AlchemyError>(done@)),
            visits: Seq::empty(),
            ..old_r.tables()
        }),
        !(ret matches Some(Err(_))) && imp < importers@.len() ==> if counted(next, ret) < importers@[imp as int].1@.len() {
            fin.tables() == (ResolverTables {
                visits: old_r.tables().visits.push(Map::empty()),
                ..old_r.tables()
            })
        } else {
            fin.tables() == old_r.tables()
        },
    ensures
        roots_step(old_r.tables(), fin, a, rest, ret, importers, imp, next, direct, done),
{
}

/// The effect that the helper of `step` states for this frame, gathered into [`specifier_step`].
proof fn lemma_specifier_step(
    old_r: Resolver,
    fin: Resolver,
    a: Action,
    rest: Seq<Frame>,
    name: String,
    req: String,
)
    requires
        spec_parse(req@) matches SpecifierModel::Registry(v) ==> a is Continue
            && fin.stack().drop_last() == rest && (fin.stack().last() matches Frame::Package { name: n, req: q, stage: PkgStage::Start }
            && n@ == name@ && q@ == v),
        spec_parse(req@) matches SpecifierModel::Path(rel) ==> (a matches Action::ReadManifest(p)
            && p@ == spec_join(spec_join(path_base(old_r.base_dir()), rel), "package.json"@))
            && fin.stack().drop_last() == rest && (fin.stack().last() matches Frame::PathManifest { name: n, dir: d } && n@ == name@ && d@
            == spec_join(path_base(old_r.base_dir()), rel)),
        spec_parse(req@) matches SpecifierModel::Git(u, c) ==> if old_r.fetches_non_registry() {
            (a matches Action::FetchGit { name: n, url: u2, commitish: c2 } && n@ == name@ && u2@
                == u && opt_seq(c2) == c) && fin.stack().drop_last() == rest && (fin.stack().last() matches Frame::Fetch {
                name: n,
                url: u2,
                commitish: c2,
                git: true,
            } && n@ == name@ && u2@ == u && opt_seq(c2) == c)
        } else {
            a is Continue && fin.stack() == rest && fin.handed() matches Some(Err(AlchemyError::ResolutionFailed(_)))
        },
        spec_parse(req@) matches SpecifierModel::Url(u) ==> if old_r.fetches_non_registry() {
            (a matches Action::FetchUrl { name: n, url: u2 } && n@ == name@ && u2@ == u)
                && fin.stack().drop_last() == rest && (fin.stack().last() matches Frame::Fetch { name: n, url: u2, commitish: None, git: false }
                && n@ == name@ && u2@ == u)
        } else {
            a is Continue && fin.stack() == rest && fin.handed() matches Some(Err(AlchemyError::ResolutionFailed(_)))
        },
        spec_parse(req@) matches SpecifierModel::Alias(pkg, inner) ==> a is Continue && fin.stack().len() == rest.len() + 2 && fin.stack().drop_last().drop_last()
            == rest && (fin.stack()[rest.len() as int] matches Frame::AliasOf {
            name: n,
        } && n@ == name@) && (fin.stack().last() matches Frame::Package {
            name: n,
            req: q,
            stage: PkgStage::Start,
        } && n@ == pkg && q@ == match *inner {
            SpecifierModel::Registry(r) => r,
            _ => "*"@,
        }),
        spec_parse(req@) is Workspace ==> a is Continue && fin.stack() == rest
            && fin.handed() matches Some(Err(AlchemyError::ResolutionFailed(_))),
        fin.tables() == old_r.tables(),
    ensures
        specifier_step(old_r.tables(), fin, a, rest, name, req),
{
}

/// The effect that the helper of `step` states for this frame, gathered into [`path_manifest_step`].
proof fn lemma_path_manifest_step(
    old_r: Resolver,
    fin: Resolver,
    a: Action,
    rest: Seq<Frame>,
    name: String,
    dir: String,
    event: Option<Event>,
)
    requires
        old_r.handed() is None,
        event matches Some(Event::Manifest(Ok(m))) ==> a is Continue && has_id(
            fin.resolved(),
            (name@, manifest_version(m)),
        ) && ((fin.handed() matches Some(Ok(pid)) && pid@ == (name@, manifest_version(m))
            && fin.stack() == rest) || (fin.handed() == old_r.handed()
            && fin.stack().drop_last() == rest && (fin.stack().last() matches Frame::PathDeps {
            id: pid,
            next: 0,
            ..
        } && pid@ == (name@, manifest_version(m))))),
        event matches Some(Event::Manifest(Err(e))) ==> a is Continue && fin.handed() == Some(
            Err::<PackageId, AlchemyError>(e),
        ) && fin.stack() == rest,
        !(event matches Some(Event::Manifest(_))) ==> (a matches Action::ReadManifest(p) && p@
            == spec_join(dir@, "package.json"@)) && fin.stack() == rest.push(
            Frame::PathManifest { name, dir },
        ),
        event matches Some(Event::Manifest(Ok(m))) ==> path_manifest_moves(
            old_r.tables(),
            fin,
            rest,
            name,
            dir,
            m,
        ),
        !(event matches Some(Event::Manifest(Ok(_)))) ==> fin.tables() == old_r.tables(),
        event matches Some(Event::Manifest(Ok(m))) ==> fin.tables() == old_r.tables()
            || fin.tables() == (ResolverTables {
            chosen: old_r.tables().chosen.insert(name@, manifest_version(m)),
            resolved: fin.tables().resolved,
            nodes: fin.tables().nodes,
            ..old_r.tables()
        }),
    ensures
        path_manifest_step(old_r.tables(), fin, a, rest, name, dir, event),
{
}

/// The effect that the helper of `step` states for this frame, gathered into [`path_deps_step`].
proof fn lemma_path_deps_step(
    old_r: Resolver,
    fin: Resolver,
    a: Action,
    rest: Seq<Frame>,
    ret: Option<Result<PackageId, AlchemyError>>,
    id: PackageId,
    deps: Vec<(String, String)>,
    next: usize,
)
    requires
        path_deps_frames(fin.stack(), rest, ret, id, deps, next),
        path_deps_tables(
            old_r.tables(),
            fin.tables(),
            !(ret matches Some(Err(_))) && counted(next, ret) < deps@.len(),
        ),
        ret matches Some(Err(e)) ==> a is Continue && fin.handed() == Some(
            Err::<PackageId, AlchemyError>(e),
        ) && fin.stack() == rest,
        ret matches Some(Ok(child)) ==> last_edge_is(
            fin.graph_nodes(),
            fin.graph_edges(),
            id@,
            child@,
            DepEdge::Normal,
        ),
        !(ret matches Some(Err(_))) ==> a is Continue && if counted(next, ret) < deps@.len() {
            fin.stack().len() == rest.len() + 3 && (fin.stack()[rest.len() as int] matches Frame::PathDeps {
                id: i2,
                next: x2,
                ..
            } && i2 == id && x2 == counted(next, ret)) && (fin.stack().last() matches Frame::Specifier {
                name: n,
                req: q,
            } && n@ == deps@[counted(next, ret)].0@ && q@ == deps@[counted(next, ret)].1@)
        } else {
            fin.stack() == rest && (fin.handed() matches Some(Ok(pid)) && pid == id)
        },
    ensures
        path_deps_step(old_r.tables(), fin, a, rest, ret, id, deps, next),
{
}

/// The effect that the helper of `step` states for this frame, gathered into [`fetch_step`].
proof fn lemma_fetch_step(
    old_r: Resolver,
    fin: Resolver,
    a: Action,
    rest: Seq<Frame>,
    name: String,
    url: String,
    commitish: Option<String>,
    git: bool,
    event: Option<Event>,
)
    requires
        event matches Some(Event::Fetched(Ok(fp))) ==> fetch_tables(
            old_r.tables(),
            fin.tables(),
            name@,
            url@,
            fp,
            git,
        ),
        event matches Some(Event::Fetched(Ok(fp))) ==> a is Continue && fin.stack() == rest
            && (fin.handed() matches Some(Ok(pid)) && pid@ == (name@, fetched_version(fp, git)))
            && has_id(fin.resolved(), (name@, fetched_version(fp, git))),
        event matches Some(Event::Fetched(Err(e))) ==> a is Continue && fin.handed() == Some(
            Err::<PackageId, AlchemyError>(e),
        ) && fin.stack() == rest,
        !(event matches Some(Event::Fetched(_))) ==> (git ==> (a matches Action::FetchGit {
            name: n,
            url: u,
            commitish: c,
        } && n == name && u == url && c == commitish)) && (!git ==> (a matches Action::FetchUrl {
            name: n,
            url: u,
        } && n == name && u == url)) && fin.stack().drop_last() == rest
            && (fin.stack().last() matches Frame::Fetch { name: n, url: u, commitish: c, git: g }
            && n@ == name@ && u@ == url@ && opt_seq(c) == opt_seq(commitish) && g == git),
        !(event matches Some(Event::Fetched(Ok(_)))) ==> fin.tables() == old_r.tables(),
        event matches Some(Event::Fetched(Ok(fp))) ==> fin.tables() == old_r.tables()
            || fin.tables() == (ResolverTables {
            chosen: old_r.tables().chosen.insert(name@, fetched_version(fp, git)),
            resolved: fin.tables().resolved,
            nodes: fin.tables().nodes,
            ..old_r.tables()
        }),
    ensures
        fetch_step(old_r.tables(), fin, a, rest, name, url, commitish, git, event),
{
}

/// The effect that the helper of `step` states for this frame, gathered into [`package_start_step`].
proof fn lemma_package_start_step(
    old_r: Resolver,
    fin: Resolver,
    a: Action,
    rest: Seq<Frame>,
    name: String,
    req: String,
)
    requires
        ({
            let rv = old_r.chosen();
            let reuse = rv.contains_key(name@) && spec_version_satisfies(rv[name@], req@);
            let vis = old_r.in_visit(name@);
            &&& reuse ==> a is Continue && fin.stack() == rest && (fin.handed() matches Some(Ok(pid)) && pid@ == (name@, rv[name@]))
            &&& !reuse && vis && rv.contains_key(name@) ==> a is Continue && fin.stack() == rest && (fin.handed() matches Some(Ok(pid)) && pid@ == (name@, rv[name@]))
            &&& !reuse && vis && !rv.contains_key(name@) ==> a is Continue && fin.stack() == rest && (fin.handed() matches Some(Err(AlchemyError::ResolutionFailed(_))))
            &&& !reuse && !vis ==> fin.in_visit(name@)
                && if old_r.listed().contains_key(name@) {
                a is Continue && fin.stack() == rest.push(Frame::Package { name, req, stage: PkgStage::Choose })
            } else {
                (a matches Action::FetchVersions(n) && n@ == name@) && fin.stack() == rest.push(Frame::Package { name, req, stage: PkgStage::AwaitVersions })
            }
        }),
        ({
            let rv = old_r.chosen();
            let reuse = rv.contains_key(name@) && spec_version_satisfies(rv[name@], req@);
            &&& reuse || old_r.in_visit(name@) ==> fin.tables() == old_r.tables()
            &&& !reuse && !old_r.in_visit(name@) ==> fin.tables() == (ResolverTables {
                visits: fin.tables().visits,
                ..old_r.tables()
            })
        }),
    ensures
        package_start_step(old_r.tables(), fin, a, rest, name, req),
{
}

/// The effect that the helper of `step` states for this frame, gathered into [`await_step`].
proof fn lemma_await_step(
    old_r: Resolver,
    fin: Resolver,
    a: Action,
    rest: Seq<Frame>,
    name: String,
    req: String,
    event: Option<Event>,
)
    requires
        event matches Some(Event::Versions(Ok(vs))) ==> a is Continue && fin.listed().contains_key(name@)
            && fin.stack() == rest.push(Frame::Package { name, req, stage: PkgStage::Choose }),
        event matches Some(Event::Versions(Err(e))) ==> a is Continue && fin.handed() == Some(
            Err::<PackageId, AlchemyError>(e),
        ) && fin.stack() == rest,
        !(event matches Some(Event::Versions(_))) ==> if old_r.listed().contains_key(name@) {
            a is Continue && fin.stack() == rest.push(Frame::Package { name, req, stage: PkgStage::Choose })
        } else {
            (a matches Action::FetchVersions(n) && n@ == name@) && fin.stack() == rest.push(Frame::Package { name, req, stage: PkgStage::AwaitVersions })
        },
        event matches Some(Event::Versions(Ok(_))) ==> fin.tables() == (ResolverTables {
            listed: fin.tables().listed,
            ..old_r.tables()
        }),
        !(event matches Some(Event::Versions(Ok(_)))) ==> fin.tables() == old_r.tables(),
    ensures
        await_step(old_r.tables(), fin, a, rest, name, req, event),
{
}

/// The effect that the helper of `step` states for this frame, gathered into [`choose_step`].
proof fn lemma_choose_step(
    old_r: Resolver,
    fin: Resolver,
    a: Action,
    rest: Seq<Frame>,
    name: String,
    req: String,
)
    requires
        choose_frames(old_r.tables(), fin, rest),
        !old_r.listed().contains_key(name@) ==> (a matches Action::FetchVersions(n) && n@ == name@)
            && fin.stack() == rest.push(Frame::Package { name, req, stage: PkgStage::AwaitVersions }),
        old_r.listed().contains_key(name@) ==> ({
            let vs = old_r.listed()[name@];
            &&& a is Continue
            &&& forall|i: int| #[trigger] is_best(version_texts(vs), req@, i) && fits(old_r.platform_model(), vs[i]) ==> has_id(fin.resolved(), (name@, vs[i].version@))
                && fin.stack().drop_last() == rest && (fin.stack().last() matches Frame::Package {
                stage: PkgStage::Children { id: pid, phase: 0, next: 0, .. },
                ..
            } && pid@ == (name@, vs[i].version@))
            &&& (forall|j: int| !#[trigger] is_candidate(version_texts(vs), req@, j)) ==> fin.stack() == rest
                && (fin.handed() matches Some(Err(AlchemyError::VersionNotFound(n, q))) && n@ == name@ && q@ == req@)
            &&& (exists|i: int| #[trigger] is_best(version_texts(vs), req@, i) && !fits(old_r.platform_model(), vs[i])) ==> fin.stack() == rest
                && (fin.handed() matches Some(Err(AlchemyError::Other(_))))
        }),
        ({
            let vs = old_r.listed()[name@];
            &&& !old_r.listed().contains_key(name@) ==> fin.tables() == old_r.tables()
            &&& old_r.listed().contains_key(name@) ==> forall|i: int|
                #[trigger] is_best(version_texts(vs), req@, i) ==> if fits(old_r.platform_model(), vs[i]) {
                    fin.tables() == (ResolverTables {
                        chosen: old_r.tables().chosen.insert(name@, vs[i].version@),
                        resolved: with_package(old_r.tables().resolved, version_package(name@, vs[i])),
                        nodes: fin.tables().nodes,
                        ..old_r.tables()
                    })
                } else {
                    fin.tables() == old_r.tables()
                }
            &&& old_r.listed().contains_key(name@) && (forall|j: int| !#[trigger] is_candidate(version_texts(vs), req@, j))
                ==> fin.tables() == old_r.tables()
        }),
    ensures
        choose_step(old_r.tables(), fin, a, rest, name, req),
{
}

/// The effect that the helper of `step` states for this frame, gathered into [`children_step`].
proof fn lemma_children_step(
    old_r: Resolver,
    fin: Resolver,
    a: Action,
    rest: Seq<Frame>,
    ret: Option<Result<PackageId, AlchemyError>>,
    name: String,
    req: String,
    id: PackageId,
    deps: Vec<(String, String)>,
    optional: Vec<(String, String)>,
    peers: Vec<(String, String, bool)>,
    phase: u8,
    next: usize,
)
    requires
        a is Continue,
        children_tables(
            old_r.tables(),
            fin.tables(),
            name@,
            peers@.len() > 0,
            fin.handed() matches Some(Ok(_)),
        ),
        children_moves(old_r.tables(), fin, rest, ret, name, req, id, deps, optional, peers, phase, next),
        phase == 0 ==> (ret matches Some(Err(e)) ==> fin.handed() == Some(
            Err::<PackageId, AlchemyError>(e),
        ) && fin.stack() == rest),
        ret matches Some(Ok(child)) ==> last_edge_is(
            fin.graph_nodes(),
            fin.graph_edges(),
            id@,
            child@,
            phase_kind(phase),
        ),
        !(ret matches Some(Err(_)) && phase == 0) ==> ((fin.handed() matches Some(Ok(pid)) && pid == id)
            && fin.stack() == rest && !fin.in_visit(name@))
            || (fin.handed() is None && fin.stack().len() > rest.len() && (fin.stack()[rest.len() as int] matches Frame::Package {
            name: n,
            stage: PkgStage::Children { id: i2, .. },
            ..
        } && n == name && i2 == id)),
    ensures
        children_step(old_r.tables(), fin, a, rest, ret, name, req, id, deps, optional, peers, phase, next),
{
}

} // verus!
