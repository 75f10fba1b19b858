//! The lockfile (`alchemy-lock.yaml`): importers and the packages they resolved to.
use vstd::prelude::*;

use crate::dependency::{opt_seq, PackageId, ResolvedModel, ResolvedPackage};
use crate::graph::{has_node, DepEdge, DependencyGraph};
use crate::packages::{first_named, has_id, lemma_first_named, lemma_first_named_found, PackageTable};
use crate::error::{spec_error_message, AlchemyError};
use crate::manifest::clone_opt;
use crate::resolver::ResolutionResult;
use crate::strmap::{lemma_ordered_keys, ordered_keys, strictly_sorted, StrMap, ViewClone};
use crate::text::{
    lemma_lex_irreflexive, lex_lt, char_vec, occurs_at, rfind_upto, chars_of, concat, push_str, rfind, rfind_exec, slice_vec, str_eq, string_of_range,
    to_owned,
};

verus! {

pub struct Lockfile {
    pub lockfile_version: String,
    pub importers: StrMap<LockfileImporter>,
    pub packages: StrMap<LockfilePackage>,
}

pub struct LockfileImporter {
    pub dependencies: StrMap<LockfileDependencyRef>,
    pub dev_dependencies: StrMap<LockfileDependencyRef>,
}

pub struct LockfileDependencyRef {
    pub specifier: String,
    pub version: String,
}

pub struct LockfilePackage {
    pub resolution: LockfileResolution,
    pub dependencies: StrMap<String>,
    pub peer_dependencies: StrMap<String>,
    pub optional_dependencies: StrMap<String>,
}

pub struct LockfileResolution {
    pub integrity: Option<String>,
    pub tarball: Option<String>,
    pub git: Option<String>,
    pub directory: Option<String>,
}

// ---------------------------------------------------------------------------
// Values
// ---------------------------------------------------------------------------

/// The value of a [`LockfileImporter`]: name → (specifier, version).
pub struct ImporterModel {
    pub dependencies: Map<Seq<char>, (Seq<char>, Seq<char>)>,
    pub dev_dependencies: Map<Seq<char>, (Seq<char>, Seq<char>)>,
}

/// The value of a [`LockfileResolution`].
pub struct LockResolutionModel {
    pub integrity: Option<Seq<char>>,
    pub tarball: Option<Seq<char>>,
    pub git: Option<Seq<char>>,
    pub directory: Option<Seq<char>>,
}

/// The value of a [`LockfilePackage`].
pub struct LockPackageModel {
    pub resolution: LockResolutionModel,
    pub dependencies: Map<Seq<char>, Seq<char>>,
    pub peer_dependencies: Map<Seq<char>, Seq<char>>,
    pub optional_dependencies: Map<Seq<char>, Seq<char>>,
}

/// The value of a [`Lockfile`].
pub struct LockfileModel {
    pub lockfile_version: Seq<char>,
    pub importers: Map<Seq<char>, ImporterModel>,
    pub packages: Map<Seq<char>, LockPackageModel>,
}

impl View for LockfileDependencyRef {
    type V = (Seq<char>, Seq<char>);

    open spec fn view(&self) -> (Seq<char>, Seq<char>) {
        (self.specifier@, self.version@)
    }
}

impl View for LockfileImporter {
    type V = ImporterModel;

    open spec fn view(&self) -> ImporterModel {
        ImporterModel {
            dependencies: self.dependencies@,
            dev_dependencies: self.dev_dependencies@,
        }
    }
}

impl View for LockfileResolution {
    type V = LockResolutionModel;

    open spec fn view(&self) -> LockResolutionModel {
        LockResolutionModel {
            integrity: opt_seq(self.integrity),
            tarball: opt_seq(self.tarball),
            git: opt_seq(self.git),
            directory: opt_seq(self.directory),
        }
    }
}

impl View for LockfilePackage {
    type V = LockPackageModel;

    open spec fn view(&self) -> LockPackageModel {
        LockPackageModel {
            resolution: self.resolution@,
            dependencies: self.dependencies@,
            peer_dependencies: self.peer_dependencies@,
            optional_dependencies: self.optional_dependencies@,
        }
    }
}

impl View for Lockfile {
    type V = LockfileModel;

    open spec fn view(&self) -> LockfileModel {
        LockfileModel {
            lockfile_version: self.lockfile_version@,
            importers: self.importers@,
            packages: self.packages@,
        }
    }
}

impl ViewClone for LockfileDependencyRef {
    fn view_clone(&self) -> (r: LockfileDependencyRef) {
        LockfileDependencyRef {
            specifier: self.specifier.view_clone(),
            version: self.version.view_clone(),
        }
    }
}

// ---------------------------------------------------------------------------
// Package keys ("/name@version")
// ---------------------------------------------------------------------------

/// The key of a package in the lockfile: "/name@version".
pub open spec fn lock_key(id: (Seq<char>, Seq<char>)) -> Seq<char> {
    seq!['/'] + id.0 + seq!['@'] + id.1
}

/// The id a key stands for: after a leading '/', the name runs up to the last '@'.
pub open spec fn spec_parse_key(k: Seq<char>) -> Option<(Seq<char>, Seq<char>)> {
    if k.len() > 0 && k[0] == '/' {
        let s = k.skip(1);
        match rfind(s, seq!['@']) {
            Some(i) => Some((s.take(i), s.skip(i + 1))),
            None => None,
        }
    } else {
        None
    }
}

/// The id a lockfile key stands for, if it is well formed.
pub fn parse_key(k: &str) -> (r: Option<PackageId>)
    ensures
        match r {
            Some(id) => spec_parse_key(k@) == Some(id@),
            None => spec_parse_key(k@) is None,
        },
{
    let v = chars_of(k);
    if v.len() == 0 || v[0] != '/' {
        return None;
    }
    let s = slice_vec(&v, 1, v.len());
    assert(s@ =~= k@.skip(1));
    let at = char_vec('@');
    match rfind_exec(&s, &at) {
        Some(i) => {
            proof {
                crate::specifier::lemma_rfind_bounds(s@, at@);
            }
            let name = string_of_range(&s, 0, i);
            let version = string_of_range(&s, i + 1, s.len());
            assert(name@ =~= s@.take(i as int));
            assert(version@ =~= s@.skip(i + 1));
            Some(PackageId { name, version })
        },
        None => None,
    }
}

/// The ids that a sequence of keys stands for, in order, skipping malformed keys.
pub open spec fn ids_of_keys(keys: Seq<Seq<char>>) -> Seq<(Seq<char>, Seq<char>)>
    decreases keys.len(),
{
    if keys.len() == 0 {
        Seq::empty()
    } else {
        let prev = ids_of_keys(keys.drop_last());
        match spec_parse_key(keys.last()) {
            Some(id) => prev.push(id),
            None => prev,
        }
    }
}

// ---------------------------------------------------------------------------
// Validation against package.json
// ---------------------------------------------------------------------------

/// What is wrong with one entry of package.json against the locked entries, if anything.
pub open spec fn dep_problem(
    name: Seq<char>,
    spec: Seq<char>,
    locked: Map<Seq<char>, (Seq<char>, Seq<char>)>,
    dev: bool,
) -> Option<Seq<char>> {
    if locked.contains_key(name) {
        if locked[name].0 == spec {
            None
        } else {
            Some(
                "Lockfile out of date: "@ + name + " specifier is '"@ + locked[name].0
                    + "' but package.json has '"@ + spec + "'"@,
            )
        }
    } else if dev {
        Some(
            "Lockfile out of date: "@ + name
                + " is in package.json devDependencies but not in lockfile"@,
        )
    } else {
        Some("Lockfile out of date: "@ + name + " is in package.json but not in lockfile"@)
    }
}

/// The first problem among the entries `i..` of package.json, in key order.
pub open spec fn first_problem(
    keys: Seq<Seq<char>>,
    deps: Map<Seq<char>, Seq<char>>,
    locked: Map<Seq<char>, (Seq<char>, Seq<char>)>,
    dev: bool,
    i: int,
) -> Option<Seq<char>>
    decreases keys.len() - i,
{
    if i < 0 || i >= keys.len() {
        None
    } else {
        match dep_problem(keys[i], deps[keys[i]], locked, dev) {
            Some(e) => Some(e),
            None => first_problem(keys, deps, locked, dev, i + 1),
        }
    }
}

/// The error text of validating a lockfile against the dependencies and dev
/// dependencies of package.json; `None` when they agree.
pub open spec fn spec_validation(
    lock: LockfileModel,
    deps: Map<Seq<char>, Seq<char>>,
    dev_deps: Map<Seq<char>, Seq<char>>,
) -> Option<Seq<char>> {
    if !lock.importers.contains_key(seq!['.']) {
        Some("Lockfile has no root importer"@)
    } else {
        let root = lock.importers[seq!['.']];
        match first_problem(ordered_keys(deps), deps, root.dependencies, false, 0) {
            Some(e) => Some(e),
            None => first_problem(
                ordered_keys(dev_deps),
                dev_deps,
                root.dev_dependencies,
                true,
                0,
            ),
        }
    }
}

/// Each entry of package.json from position `i` on (in key order) is locked with the
/// same specifier exactly when no problem is found there.
proof fn lemma_first_problem_none_iff(
    keys: Seq<Seq<char>>,
    deps: Map<Seq<char>, Seq<char>>,
    locked: Map<Seq<char>, (Seq<char>, Seq<char>)>,
    dev: bool,
    i: int,
)
    requires
        0 <= i,
    ensures
        first_problem(keys, deps, locked, dev, i) is None <==> forall|j: int|
            i <= j < keys.len() ==> locked.contains_key(#[trigger] keys[j]) && locked[keys[j]].0
                == deps[keys[j]],
    decreases keys.len() - i,
{
    if i < keys.len() {
        lemma_first_problem_none_iff(keys, deps, locked, dev, i + 1);
    }
}

/// Validating a lockfile against package.json succeeds exactly when the lockfile has
/// a root importer that locks every dependency of package.json, and every dev
/// dependency, with the specifier package.json gives it. So a dependency added to
/// package.json, or one whose range changed, makes validation fail.
pub proof fn lemma_validation_agrees(
    lock: LockfileModel,
    deps: Map<Seq<char>, Seq<char>>,
    dev_deps: Map<Seq<char>, Seq<char>>,
)
    requires
        deps.dom().finite(),
        dev_deps.dom().finite(),
    ensures
        spec_validation(lock, deps, dev_deps) is None <==> {
            &&& lock.importers.contains_key(seq!['.'])
            &&& forall|k: Seq<char>| #[trigger] deps.contains_key(k) ==> lock.importers[seq!['.']].dependencies.contains_key(k)
                && lock.importers[seq!['.']].dependencies[k].0 == deps[k]
            &&& forall|k: Seq<char>| #[trigger] dev_deps.contains_key(k) ==> lock.importers[seq!['.']].dev_dependencies.contains_key(k)
                && lock.importers[seq!['.']].dev_dependencies[k].0 == dev_deps[k]
        },
{
    lemma_ordered_keys(deps);
    lemma_ordered_keys(dev_deps);
    if lock.importers.contains_key(seq!['.']) {
        let root = lock.importers[seq!['.']];
        let dk = ordered_keys(deps);
        let vk = ordered_keys(dev_deps);
        lemma_first_problem_none_iff(dk, deps, root.dependencies, false, 0);
        lemma_first_problem_none_iff(vk, dev_deps, root.dev_dependencies, true, 0);
        assert((forall|j: int| 0 <= j < dk.len() ==> root.dependencies.contains_key(#[trigger] dk[j])
            && root.dependencies[dk[j]].0 == deps[dk[j]]) <==> (forall|k: Seq<char>| #[trigger] deps.contains_key(k)
            ==> root.dependencies.contains_key(k) && root.dependencies[k].0 == deps[k])) by {
            if forall|j: int| 0 <= j < dk.len() ==> root.dependencies.contains_key(#[trigger] dk[j])
                && root.dependencies[dk[j]].0 == deps[dk[j]] {
                assert forall|k: Seq<char>| #[trigger] deps.contains_key(k) implies root.dependencies.contains_key(k)
                    && root.dependencies[k].0 == deps[k] by {
                    assert(dk.contains(k));
                    let j = choose|j: int| 0 <= j < dk.len() && dk[j] == k;
                }
            }
            if forall|k: Seq<char>| #[trigger] deps.contains_key(k) ==> root.dependencies.contains_key(k)
                && root.dependencies[k].0 == deps[k] {
                assert forall|j: int| 0 <= j < dk.len() implies root.dependencies.contains_key(#[trigger] dk[j])
                    && root.dependencies[dk[j]].0 == deps[dk[j]] by {
                    assert(dk.contains(dk[j]));
                }
            }
        }
        assert((forall|j: int| 0 <= j < vk.len() ==> root.dev_dependencies.contains_key(#[trigger] vk[j])
            && root.dev_dependencies[vk[j]].0 == dev_deps[vk[j]]) <==> (forall|k: Seq<char>| #[trigger] dev_deps.contains_key(k)
            ==> root.dev_dependencies.contains_key(k) && root.dev_dependencies[k].0 == dev_deps[k])) by {
            if forall|j: int| 0 <= j < vk.len() ==> root.dev_dependencies.contains_key(#[trigger] vk[j])
                && root.dev_dependencies[vk[j]].0 == dev_deps[vk[j]] {
                assert forall|k: Seq<char>| #[trigger] dev_deps.contains_key(k) implies root.dev_dependencies.contains_key(k)
                    && root.dev_dependencies[k].0 == dev_deps[k] by {
                    assert(vk.contains(k));
                    let j = choose|j: int| 0 <= j < vk.len() && vk[j] == k;
                }
            }
            if forall|k: Seq<char>| #[trigger] dev_deps.contains_key(k) ==> root.dev_dependencies.contains_key(k)
                && root.dev_dependencies[k].0 == dev_deps[k] {
                assert forall|j: int| 0 <= j < vk.len() implies root.dev_dependencies.contains_key(#[trigger] vk[j])
                    && root.dev_dependencies[vk[j]].0 == dev_deps[vk[j]] by {
                    assert(vk.contains(vk[j]));
                }
            }
        }
    }
}

/// A problem found from position `i` on is the problem of one of those entries.
proof fn lemma_first_problem_from(
    keys: Seq<Seq<char>>,
    deps: Map<Seq<char>, Seq<char>>,
    locked: Map<Seq<char>, (Seq<char>, Seq<char>)>,
    dev: bool,
    i: int,
)
    requires
        0 <= i,
    ensures
        first_problem(keys, deps, locked, dev, i) matches Some(e) ==> exists|j: int|
            i <= j < keys.len() && dep_problem(#[trigger] keys[j], deps[keys[j]], locked, dev) == Some(e),
    decreases keys.len() - i,
{
    if i < keys.len() {
        lemma_first_problem_from(keys, deps, locked, dev, i + 1);
    }
}

/// The message of a failed validation names what is out of date: a missing root
/// importer; or a dependency (or dev dependency) of package.json that the lockfile
/// does not lock; or one that it locks with another specifier, with both specifiers.
pub proof fn lemma_validation_reports(
    lock: LockfileModel,
    deps: Map<Seq<char>, Seq<char>>,
    dev_deps: Map<Seq<char>, Seq<char>>,
)
    requires
        deps.dom().finite(),
        dev_deps.dom().finite(),
    ensures
        spec_validation(lock, deps, dev_deps) matches Some(e) ==> {
            ||| !lock.importers.contains_key(seq!['.']) && e == "Lockfile has no root importer"@
            ||| exists|k: Seq<char>| #[trigger] deps.contains_key(k) && {
                let locked = lock.importers[seq!['.']].dependencies;
                ||| !locked.contains_key(k) && e == "Lockfile out of date: "@ + k
                    + " is in package.json but not in lockfile"@
                ||| locked.contains_key(k) && locked[k].0 != deps[k] && e == "Lockfile out of date: "@
                    + k + " specifier is '"@ + locked[k].0 + "' but package.json has '"@ + deps[k]
                    + "'"@
            }
            ||| exists|k: Seq<char>| #[trigger] dev_deps.contains_key(k) && {
                let locked = lock.importers[seq!['.']].dev_dependencies;
                ||| !locked.contains_key(k) && e == "Lockfile out of date: "@ + k
                    + " is in package.json devDependencies but not in lockfile"@
                ||| locked.contains_key(k) && locked[k].0 != dev_deps[k] && e
                    == "Lockfile out of date: "@ + k + " specifier is '"@ + locked[k].0
                    + "' but package.json has '"@ + dev_deps[k] + "'"@
            }
        },
{
    lemma_ordered_keys(deps);
    lemma_ordered_keys(dev_deps);
    if lock.importers.contains_key(seq!['.']) {
        let root = lock.importers[seq!['.']];
        let dk = ordered_keys(deps);
        let vk = ordered_keys(dev_deps);
        lemma_first_problem_from(dk, deps, root.dependencies, false, 0);
        lemma_first_problem_from(vk, dev_deps, root.dev_dependencies, true, 0);
        match first_problem(dk, deps, root.dependencies, false, 0) {
            Some(e) => {
                let j = choose|j: int|
                    0 <= j < dk.len() && dep_problem(#[trigger] dk[j], deps[dk[j]], root.dependencies, false)
                        == Some(e);
                assert(dk.contains(dk[j]));
                assert(deps.contains_key(dk[j]));
            },
            None => {
                match first_problem(vk, dev_deps, root.dev_dependencies, true, 0) {
                    Some(e) => {
                        let j = choose|j: int|
                            0 <= j < vk.len() && dep_problem(
                                #[trigger] vk[j],
                                dev_deps[vk[j]],
                                root.dev_dependencies,
                                true,
                            ) == Some(e);
                        assert(vk.contains(vk[j]));
                        assert(dev_deps.contains_key(vk[j]));
                    },
                    None => {},
                }
            },
        }
    }
}

fn check_group(
    deps: &StrMap<String>,
    locked: &StrMap<LockfileDependencyRef>,
    dev: bool,
) -> (r: Option<String>)
    ensures
        match r {
            Some(e) => first_problem(ordered_keys(deps@), deps@, locked@, dev, 0) == Some(e@),
            None => first_problem(ordered_keys(deps@), deps@, locked@, dev, 0) is None,
        },
{
    let n = deps.len();
    let mut i: usize = 0;
    while i < n
        invariant
            i <= n == deps.key_seq().len(),
            deps.key_seq() == ordered_keys(deps@),
            first_problem(deps.key_seq(), deps@, locked@, dev, 0) == first_problem(
                deps.key_seq(),
                deps@,
                locked@,
                dev,
                i as int,
            ),
        decreases n - i,
    {
        let (name, specifier) = deps.get_index(i);
        match locked.get(name.as_str()) {
            Some(dep_ref) => {
                if !str_eq(dep_ref.specifier.as_str(), specifier.as_str()) {
                    let mut e = concat("Lockfile out of date: ", name.as_str());
                    push_str(&mut e, " specifier is '");
                    push_str(&mut e, dep_ref.specifier.as_str());
                    push_str(&mut e, "' but package.json has '");
                    push_str(&mut e, specifier.as_str());
                    push_str(&mut e, "'");
                    return Some(e);
                }
            },
            None => {
                let mut e = concat("Lockfile out of date: ", name.as_str());
                if dev {
                    push_str(&mut e, " is in package.json devDependencies but not in lockfile");
                } else {
                    push_str(&mut e, " is in package.json but not in lockfile");
                }
                return Some(e);
            },
        }
        i = i + 1;
    }
    None
}

// ---------------------------------------------------------------------------
// Building a lockfile from a resolution
// ---------------------------------------------------------------------------

/// The root importer after recording the first `n` direct dependencies: a dependency
/// listed among the dev dependencies is recorded there, any other among the
/// dependencies; its specifier comes from the dependencies, else from the dev
/// dependencies, else is empty.
pub open spec fn importer_after(
    direct: Seq<(Seq<char>, Seq<char>)>,
    deps: Map<Seq<char>, Seq<char>>,
    dev: Map<Seq<char>, Seq<char>>,
    n: int,
) -> ImporterModel
    decreases n,
{
    if n <= 0 {
        ImporterModel { dependencies: Map::empty(), dev_dependencies: Map::empty() }
    } else {
        let prev = importer_after(direct, deps, dev, n - 1);
        let id = direct[n - 1];
        let spec = if deps.contains_key(id.0) {
            deps[id.0]
        } else if dev.contains_key(id.0) {
            dev[id.0]
        } else {
            Seq::empty()
        };
        if dev.contains_key(id.0) {
            ImporterModel {
                dependencies: prev.dependencies,
                dev_dependencies: prev.dev_dependencies.insert(id.0, (spec, id.1)),
            }
        } else {
            ImporterModel {
                dependencies: prev.dependencies.insert(id.0, (spec, id.1)),
                dev_dependencies: prev.dev_dependencies,
            }
        }
    }
}

/// How a resolved package is found again: its directory for a local package, else its
/// integrity and tarball URL (none when empty).
pub open spec fn lock_resolution_of(p: ResolvedModel) -> LockResolutionModel {
    match p.source_path {
        Some(path) => LockResolutionModel {
            integrity: None,
            tarball: None,
            git: None,
            directory: Some(path),
        },
        None => LockResolutionModel {
            integrity: p.integrity,
            tarball: if p.tarball_url.len() == 0 {
                None
            } else {
                Some(p.tarball_url)
            },
            git: None,
            directory: None,
        },
    }
}

/// The versions a package's dependencies were resolved to: each dependency whose name
/// some resolved package carries, with the version of the first package of that name
/// (one version is resolved per name).
pub open spec fn pinned_deps(items: Seq<ResolvedModel>, deps: Map<Seq<char>, Seq<char>>) -> Map<
    Seq<char>,
    Seq<char>,
> {
    Map::new(
        |d: Seq<char>| deps.contains_key(d) && first_named(items, d) is Some,
        |d: Seq<char>| items[first_named(items, d)->0].id.1,
    )
}

/// The lockfile entry of a resolved package: how it is found again, and the versions
/// its dependencies of each kind were resolved to among `items`.
pub open spec fn lock_package_of(items: Seq<ResolvedModel>, p: ResolvedModel) -> LockPackageModel {
    LockPackageModel {
        resolution: lock_resolution_of(p),
        dependencies: pinned_deps(items, p.dependencies),
        peer_dependencies: pinned_deps(items, p.peer_dependencies),
        optional_dependencies: pinned_deps(items, p.optional_dependencies),
    }
}

/// The lockfile entries of the first `n` resolved packages, keyed by `lock_key`.
pub open spec fn lock_packages_after(items: Seq<ResolvedModel>, n: int) -> Map<
    Seq<char>,
    LockPackageModel,
>
    decreases n,
{
    if n <= 0 {
        Map::empty()
    } else {
        lock_packages_after(items, n - 1).insert(
            lock_key(items[n - 1].id),
            lock_package_of(items, items[n - 1]),
        )
    }
}

/// The key of a package: "/name@version".
pub fn package_key(id: &PackageId) -> (k: String)
    ensures
        k@ == lock_key(id@),
{
    let mut k = concat("/", id.name.as_str());
    push_str(&mut k, "@");
    push_str(&mut k, id.version.as_str());
    proof {
        reveal_strlit("/");
        reveal_strlit("@");
        assert(k@ =~= lock_key(id@));
    }
    k
}

/// A package's dependencies, each with the version resolved for its name.
fn pin_deps(packages: &PackageTable, deps: &StrMap<String>) -> (r: StrMap<String>)
    ensures
        r@ == pinned_deps(packages.items(), deps@),
{
    let ghost items = packages.items();
    let n = deps.len();
    let mut r: StrMap<String> = StrMap::new();
    let mut j: usize = 0;
    while j < n
        invariant
            j <= n == deps.key_seq().len(),
            items == packages.items(),
            forall|d: Seq<char>| #[trigger]
                r@.contains_key(d) <==> deps.key_seq().take(j as int).contains(d) && first_named(
                    items,
                    d,
                ) is Some,
            forall|d: Seq<char>| #[trigger]
                r@.contains_key(d) ==> r@[d] == items[first_named(items, d)->0].id.1,
        decreases n - j,
    {
        let (name, _) = deps.get_index(j);
        let ghost before = r@;
        match packages.find_by_name(name.as_str()) {
            Some(id) => {
                proof {
                    let i = choose|i: int|
                        0 <= i < items.len() && items[i].id == id@ && id@.0 == name@
                            && forall|k: int| 0 <= k < i ==> (#[trigger] items[k]).id.0 != name@;
                    lemma_first_named(items, name@, i);
                }
                r.insert(name.view_clone(), id.version.view_clone());
            },
            None => {
                assert(first_named(items, name@) is None);
            },
        }
        proof {
            let pre = deps.key_seq().take(j as int);
            let post = deps.key_seq().take(j + 1);
            assert(post =~= pre.push(name@));
            assert forall|d: Seq<char>| #[trigger]
                r@.contains_key(d) <==> post.contains(d) && first_named(items, d) is Some by {
                if d == name@ {
                    assert(post[j as int] == d);
                } else {
                    assert(r@.contains_key(d) == before.contains_key(d));
                    if post.contains(d) {
                        let i = choose|i: int| 0 <= i < post.len() && post[i] == d;
                        assert(pre[i] == d);
                    }
                    if pre.contains(d) {
                        let i = choose|i: int| 0 <= i < pre.len() && pre[i] == d;
                        assert(post[i] == d);
                    }
                }
            }
        }
        j = j + 1;
    }
    let _ = deps.len();
    proof {
        assert(deps.key_seq().take(n as int) =~= deps.key_seq());
        assert forall|d: Seq<char>| deps@.contains_key(d) <==> #[trigger] deps.key_seq().contains(d) by {
            if deps@.contains_key(d) {
                let i = choose|i: int| 0 <= i < deps.entry_seq().len() && deps.entry_seq()[i].0@ == d;
                assert(deps.key_seq()[i] == d);
            }
            if deps.key_seq().contains(d) {
                let i = choose|i: int| 0 <= i < n && deps.key_seq()[i] == d;
                assert(deps@.contains_key(deps.entry_seq()[i].0@));
            }
        }
        assert(r@ =~= pinned_deps(items, deps@));
    }
    r
}

fn lock_package_for(packages: &PackageTable, pkg: &ResolvedPackage) -> (l: LockfilePackage)
    ensures
        l@ == lock_package_of(packages.items(), pkg@),
{
    let resolution = match &pkg.source_path {
        Some(path) => LockfileResolution {
            integrity: None,
            tarball: None,
            git: None,
            directory: Some(path.view_clone()),
        },
        None => LockfileResolution {
            integrity: clone_opt(&pkg.integrity),
            tarball: if pkg.tarball_url.as_str().unicode_len() == 0 {
                None
            } else {
                Some(pkg.tarball_url.view_clone())
            },
            git: None,
            directory: None,
        },
    };
    LockfilePackage {
        resolution,
        dependencies: pin_deps(packages, &pkg.dependencies),
        peer_dependencies: pin_deps(packages, &pkg.peer_dependencies),
        optional_dependencies: pin_deps(packages, &pkg.optional_dependencies),
    }
}

// ---------------------------------------------------------------------------
// Reading a resolution back from a lockfile
// ---------------------------------------------------------------------------

/// A lockfile key is the key of the id it stands for.
pub proof fn lemma_parse_key_inverse(k: Seq<char>)
    requires
        spec_parse_key(k) is Some,
    ensures
        lock_key(spec_parse_key(k)->0) == k,
{
    let s = k.skip(1);
    let i = rfind(s, seq!['@'])->0;
    crate::specifier::lemma_rfind_bounds(s, seq!['@']);
    assert(s.subrange(i, i + 1) == seq!['@']);
    assert(s =~= s.take(i) + seq!['@'] + s.skip(i + 1));
    assert(k =~= seq!['/'] + s);
}

/// The position of the first malformed key at or after `i`.
pub open spec fn first_bad_key(keys: Seq<Seq<char>>, i: int) -> Option<int>
    decreases keys.len() - i,
{
    if i < 0 || i >= keys.len() {
        None
    } else if spec_parse_key(keys[i]) is None {
        Some(i)
    } else {
        first_bad_key(keys, i + 1)
    }
}

/// The ids the keys stand for.
pub open spec fn key_ids(keys: Seq<Seq<char>>) -> Seq<(Seq<char>, Seq<char>)> {
    keys.map_values(|k: Seq<char>| spec_parse_key(k)->0)
}

/// The resolved package that a lockfile entry stands for.
pub open spec fn resolved_from_lock(id: (Seq<char>, Seq<char>), lp: LockPackageModel) -> ResolvedModel {
    ResolvedModel {
        id,
        tarball_url: match lp.resolution.tarball {
            Some(t) => t,
            None => Seq::empty(),
        },
        integrity: lp.resolution.integrity,
        source_path: lp.resolution.directory,
        dependencies: lp.dependencies,
        peer_dependencies: lp.peer_dependencies,
        optional_dependencies: lp.optional_dependencies,
        bin: None,
        os: None,
        cpu: None,
        engines: None,
    }
}

/// The resolved packages of a lockfile, in key order.
pub open spec fn lock_items(keys: Seq<Seq<char>>, lps: Map<Seq<char>, LockPackageModel>) -> Seq<
    ResolvedModel,
> {
    Seq::new(keys.len(), |i: int| resolved_from_lock(spec_parse_key(keys[i])->0, lps[keys[i]]))
}

/// The position of `id` among `ids`.
pub open spec fn index_in(ids: Seq<(Seq<char>, Seq<char>)>, id: (Seq<char>, Seq<char>)) -> int {
    choose|j: int| 0 <= j < ids.len() && ids[j] == id
}

/// The edges of one kind from package `p`: one for each entry (in key order) that
/// names a package of the lockfile.
pub open spec fn kind_edges(
    p: int,
    names: Seq<Seq<char>>,
    m: Map<Seq<char>, Seq<char>>,
    ids: Seq<(Seq<char>, Seq<char>)>,
    kind: DepEdge,
) -> Seq<(usize, usize, DepEdge)>
    decreases names.len(),
{
    if names.len() == 0 {
        Seq::empty()
    } else {
        let prev = kind_edges(p, names.drop_last(), m, ids, kind);
        let c = (names.last(), m[names.last()]);
        if ids.contains(c) {
            prev.push((p as usize, index_in(ids, c) as usize, kind))
        } else {
            prev
        }
    }
}

/// The edges from package `p`: its dependencies, then its peer dependencies, then its
/// optional dependencies.
pub open spec fn package_edges(p: int, lp: LockPackageModel, ids: Seq<(Seq<char>, Seq<char>)>) -> Seq<
    (usize, usize, DepEdge),
> {
    kind_edges(p, ordered_keys(lp.dependencies), lp.dependencies, ids, DepEdge::Normal)
        + kind_edges(p, ordered_keys(lp.peer_dependencies), lp.peer_dependencies, ids, DepEdge::Peer)
        + kind_edges(
        p,
        ordered_keys(lp.optional_dependencies),
        lp.optional_dependencies,
        ids,
        DepEdge::Optional,
    )
}

/// The edges of the first `n` packages, in key order.
pub open spec fn lock_edges(
    keys: Seq<Seq<char>>,
    lps: Map<Seq<char>, LockPackageModel>,
    ids: Seq<(Seq<char>, Seq<char>)>,
    n: int,
) -> Seq<(usize, usize, DepEdge)>
    decreases n,
{
    if n <= 0 {
        Seq::empty()
    } else {
        lock_edges(keys, lps, ids, n - 1) + package_edges(n - 1, lps[keys[n - 1]], ids)
    }
}

/// The number of dependency entries of all kinds in the first `n` packages.
pub open spec fn dep_entry_count(keys: Seq<Seq<char>>, lps: Map<Seq<char>, LockPackageModel>, n: int) -> int
    decreases n,
{
    if n <= 0 {
        0
    } else {
        let lp = lps[keys[n - 1]];
        dep_entry_count(keys, lps, n - 1) + ordered_keys(lp.dependencies).len() + ordered_keys(
            lp.peer_dependencies,
        ).len() + ordered_keys(lp.optional_dependencies).len()
    }
}

/// The importer entries (in key order) that name a package of the lockfile.
pub open spec fn direct_from(
    names: Seq<Seq<char>>,
    m: Map<Seq<char>, (Seq<char>, Seq<char>)>,
    ids: Seq<(Seq<char>, Seq<char>)>,
) -> Seq<(Seq<char>, Seq<char>)>
    decreases names.len(),
{
    if names.len() == 0 {
        Seq::empty()
    } else {
        let prev = direct_from(names.drop_last(), m, ids);
        let c = (names.last(), m[names.last()].1);
        if ids.contains(c) {
            prev.push(c)
        } else {
            prev
        }
    }
}

/// The direct dependencies of the root importer, dependencies first, then dev ones.
pub open spec fn lock_direct(lock: LockfileModel, ids: Seq<(Seq<char>, Seq<char>)>) -> Seq<
    (Seq<char>, Seq<char>),
> {
    if lock.importers.contains_key(seq!['.']) {
        let root = lock.importers[seq!['.']];
        direct_from(ordered_keys(root.dependencies), root.dependencies, ids) + direct_from(
            ordered_keys(root.dev_dependencies),
            root.dev_dependencies,
            ids,
        )
    } else {
        Seq::empty()
    }
}

/// No id occurs twice.
pub open spec fn distinct_pairs(ids: Seq<(Seq<char>, Seq<char>)>) -> bool {
    forall|i: int, j: int| 0 <= i < j < ids.len() ==> #[trigger] ids[i] != #[trigger] ids[j]
}

fn add_kind_edges(
    graph: &mut DependencyGraph,
    packages: &PackageTable,
    parent: &PackageId,
    p: usize,
    deps: &StrMap<String>,
    kind: DepEdge,
    Ghost(ids): Ghost<Seq<(Seq<char>, Seq<char>)>>,
)
    requires
        old(graph).nodes() == ids,
        distinct_pairs(ids),
        p < ids.len(),
        ids[p as int] == parent@,
        forall|c: (Seq<char>, Seq<char>)| #[trigger] ids.contains(c) <==> has_id(packages.items(), c),
        ids.len() < u32::MAX,
        old(graph).edges().len() + ordered_keys(deps@).len() < u32::MAX,
    ensures
        final(graph).nodes() == ids,
        final(graph).edges() == old(graph).edges() + kind_edges(
            p as int,
            ordered_keys(deps@),
            deps@,
            ids,
            kind,
        ),
{
    let n = deps.len();
    let mut j: usize = 0;
    assert(old(graph).edges() =~= old(graph).edges() + kind_edges(
        p as int,
        ordered_keys(deps@).take(0),
        deps@,
        ids,
        kind,
    ));
    while j < n
        invariant
            j <= n == ordered_keys(deps@).len(),
            deps.key_seq() == ordered_keys(deps@),
            graph.nodes() == ids,
            distinct_pairs(ids),
            p < ids.len(),
            ids[p as int] == parent@,
            forall|c: (Seq<char>, Seq<char>)| #[trigger] ids.contains(c) <==> has_id(packages.items(), c),
            ids.len() < u32::MAX,
            old(graph).edges().len() + ordered_keys(deps@).len() < u32::MAX,
            graph.edges() == old(graph).edges() + kind_edges(
                p as int,
                ordered_keys(deps@).take(j as int),
                deps@,
                ids,
                kind,
            ),
            kind_edges(p as int, ordered_keys(deps@).take(j as int), deps@, ids, kind).len() <= j,
        decreases n - j,
    {
        let (dep_name, dep_ver) = deps.get_index(j);
        let child = PackageId::new(dep_name.as_str(), dep_ver.as_str());
        let ghost names = ordered_keys(deps@).take(j + 1);
        assert(names.drop_last() =~= ordered_keys(deps@).take(j as int));
        assert(names.last() == dep_name@);
        assert(child@ == (names.last(), deps@[names.last()]));
        if packages.contains_key(&child) {
            assert(ids.contains(child@));
            proof {
                use_type_invariant(&*graph);
                graph.lemma_wf();
            }
            let ghost before = graph.edges();
            let ghost b = index_in(ids, child@);
            graph.add_package(child.view_clone());
            graph.add_dependency(parent, &child, kind);
            proof {
                let a2 = choose|a: int, b2: int|
                    #![trigger ids[a], ids[b2]]
                    0 <= a < ids.len() && 0 <= b2 < ids.len() && ids[a] == parent@ && ids[b2]
                        == child@ && graph.edges() == before.push((a as usize, b2 as usize, kind));
                let (a, b2) = a2;
                assert(a == p);
                assert(ids[b] == child@);
                assert(b2 == b);
                assert(graph.edges() =~= old(graph).edges() + kind_edges(
                    p as int,
                    names,
                    deps@,
                    ids,
                    kind,
                ));
            }
        } else {
            assert(!ids.contains(child@));
            assert(graph.edges() =~= old(graph).edges() + kind_edges(
                p as int,
                names,
                deps@,
                ids,
                kind,
            ));
        }
        j = j + 1;
    }
    assert(ordered_keys(deps@).take(j as int) =~= ordered_keys(deps@));
}

fn collect_direct(
    m: &StrMap<LockfileDependencyRef>,
    packages: &PackageTable,
    out: &mut Vec<PackageId>,
    Ghost(ids): Ghost<Seq<(Seq<char>, Seq<char>)>>,
)
    requires
        forall|c: (Seq<char>, Seq<char>)| #[trigger] ids.contains(c) <==> has_id(packages.items(), c),
    ensures
        final(out)@.map_values(|p: PackageId| p@) == old(out)@.map_values(|p: PackageId| p@)
            + direct_from(ordered_keys(m@), m@, ids),
{
    let n = m.len();
    let mut j: usize = 0;
    assert(old(out)@.map_values(|p: PackageId| p@) =~= old(out)@.map_values(|p: PackageId| p@)
        + direct_from(ordered_keys(m@).take(0), m@, ids));
    while j < n
        invariant
            j <= n == ordered_keys(m@).len(),
            m.key_seq() == ordered_keys(m@),
            forall|c: (Seq<char>, Seq<char>)| #[trigger] ids.contains(c) <==> has_id(packages.items(), c),
            out@.map_values(|p: PackageId| p@) == old(out)@.map_values(|p: PackageId| p@)
                + direct_from(ordered_keys(m@).take(j as int), m@, ids),
        decreases n - j,
    {
        let (name, dep_ref) = m.get_index(j);
        let id = PackageId::new(name.as_str(), dep_ref.version.as_str());
        let ghost names = ordered_keys(m@).take(j + 1);
        assert(names.drop_last() =~= ordered_keys(m@).take(j as int));
        assert(names.last() == name@);
        assert(id@ == (names.last(), m@[names.last()].1));
        let ghost prev = out@.map_values(|p: PackageId| p@);
        if packages.contains_key(&id) {
            assert(ids.contains(id@));
            out.push(id);
            assert(out@.map_values(|p: PackageId| p@) =~= prev.push(id@));
        } else {
            assert(!ids.contains(id@));
        }
        assert(out@.map_values(|p: PackageId| p@) =~= old(out)@.map_values(|p: PackageId| p@)
            + direct_from(names, m@, ids));
        j = j + 1;
    }
    assert(ordered_keys(m@).take(j as int) =~= ordered_keys(m@));
}

proof fn lemma_first_bad_none(keys: Seq<Seq<char>>, i: int)
    requires
        0 <= i <= keys.len(),
        forall|k: int| i <= k < keys.len() ==> spec_parse_key(#[trigger] keys[k]) is Some,
    ensures
        first_bad_key(keys, i) is None,
    decreases keys.len() - i,
{
    if i < keys.len() {
        lemma_first_bad_none(keys, i + 1);
    }
}

proof fn lemma_dep_entry_count_mono(
    keys: Seq<Seq<char>>,
    lps: Map<Seq<char>, LockPackageModel>,
    a: int,
    b: int,
)
    requires
        0 <= a <= b,
    ensures
        dep_entry_count(keys, lps, a) <= dep_entry_count(keys, lps, b),
    decreases b - a,
{
    if a < b {
        lemma_dep_entry_count_mono(keys, lps, a, b - 1);
    }
}

proof fn lemma_kind_edges_len(
    p: int,
    names: Seq<Seq<char>>,
    m: Map<Seq<char>, Seq<char>>,
    ids: Seq<(Seq<char>, Seq<char>)>,
    kind: DepEdge,
)
    ensures
        kind_edges(p, names, m, ids, kind).len() <= names.len(),
    decreases names.len(),
{
    if names.len() > 0 {
        lemma_kind_edges_len(p, names.drop_last(), m, ids, kind);
    }
}

// ---------------------------------------------------------------------------
// Laws
// ---------------------------------------------------------------------------

proof fn lemma_lock_packages_dom(items: Seq<ResolvedModel>, n: int)
    requires
        0 <= n <= items.len(),
    ensures
        lock_packages_after(items, n).dom().finite(),
        forall|k: Seq<char>|
            #[trigger] lock_packages_after(items, n).contains_key(k) <==> exists|i: int|
                0 <= i < n && lock_key(items[i].id) == k,
    decreases n,
{
    if n > 0 {
        lemma_lock_packages_dom(items, n - 1);
        let m = lock_packages_after(items, n);
        assert forall|k: Seq<char>| #[trigger] m.contains_key(k) <==> exists|i: int|
            0 <= i < n && lock_key(items[i].id) == k by {
            if m.contains_key(k) && k != lock_key(items[n - 1].id) {
                assert(lock_packages_after(items, n - 1).contains_key(k));
                let i = choose|i: int| 0 <= i < n - 1 && lock_key(items[i].id) == k;
                assert(0 <= i < n && lock_key(items[i].id) == k);
            }
            if exists|i: int| 0 <= i < n && lock_key(items[i].id) == k {
                let i = choose|i: int| 0 <= i < n && lock_key(items[i].id) == k;
                if i < n - 1 {
                    assert(lock_packages_after(items, n - 1).contains_key(k));
                }
            }
        }
    } else {
        assert(lock_packages_after(items, n).dom() =~= Set::<Seq<char>>::empty());
    }
}

/// `rfind` finds the occurrence at `j` when none follows it up to `i`.
proof fn lemma_rfind_upto_at(s: Seq<char>, pat: Seq<char>, j: int, i: int)
    requires
        0 <= j <= i,
        occurs_at(s, pat, j),
        forall|k: int| j < k <= i ==> !occurs_at(s, pat, k),
    ensures
        rfind_upto(s, pat, i) == Some(j),
    decreases i - j,
{
    if i > j {
        lemma_rfind_upto_at(s, pat, j, i - 1);
    }
}

/// A version without '@' is read back from the key of its package.
pub proof fn lemma_parse_lock_key(id: (Seq<char>, Seq<char>))
    requires
        !id.1.contains('@'),
    ensures
        spec_parse_key(lock_key(id)) == Some(id),
{
    let k = lock_key(id);
    let s = k.skip(1);
    let n = id.0.len() as int;
    assert(s =~= id.0 + seq!['@'] + id.1);
    assert(occurs_at(s, seq!['@'], n)) by {
        assert(s.subrange(n, n + 1) =~= seq!['@']);
    }
    assert forall|q: int| n < q <= s.len() - 1 implies !occurs_at(s, seq!['@'], q) by {
        if occurs_at(s, seq!['@'], q) {
            assert(s.subrange(q, q + 1)[0] == '@');
            assert(s[q] == id.1[q - n - 1]);
            assert(id.1.contains('@'));
        }
    }
    lemma_rfind_upto_at(s, seq!['@'], n, s.len() - 1);
    assert(s.take(n) =~= id.0);
    assert(s.skip(n + 1) =~= id.1);
}

/// Writing a resolution into a lockfile and reading it back gives the same packages:
/// every key of the lockfile is well formed, and the ids read back are exactly the
/// ids of the resolution (for versions without '@').
pub proof fn lemma_lockfile_roundtrip(items: Seq<ResolvedModel>)
    requires
        forall|i: int| 0 <= i < items.len() ==> !(#[trigger] items[i]).id.1.contains('@'),
    ensures
        ({
            let m = lock_packages_after(items, items.len() as int);
            let keys = ordered_keys(m);
            &&& first_bad_key(keys, 0) is None
            &&& forall|id: (Seq<char>, Seq<char>)|
                #[trigger] key_ids(keys).contains(id) <==> has_id(items, id)
        }),
{
    let m = lock_packages_after(items, items.len() as int);
    lemma_lock_packages_dom(items, items.len() as int);
    lemma_ordered_keys(m);
    let keys = ordered_keys(m);
    assert forall|k: int| 0 <= k < keys.len() implies spec_parse_key(#[trigger] keys[k]) is Some by {
        assert(keys.contains(keys[k]));
        let i = choose|i: int| 0 <= i < items.len() && lock_key(items[i].id) == keys[k];
        lemma_parse_lock_key(items[i].id);
    }
    lemma_first_bad_none(keys, 0);
    assert forall|id: (Seq<char>, Seq<char>)| #[trigger] key_ids(keys).contains(id) <==> has_id(
        items,
        id,
    ) by {
        if key_ids(keys).contains(id) {
            let j = choose|j: int| 0 <= j < key_ids(keys).len() && key_ids(keys)[j] == id;
            assert(keys.contains(keys[j]));
            let i = choose|i: int| 0 <= i < items.len() && lock_key(items[i].id) == keys[j];
            lemma_parse_lock_key(items[i].id);
            assert(items[i].id == id);
        }
        if has_id(items, id) {
            let i = choose|i: int| 0 <= i < items.len() && #[trigger] items[i].id == id;
            assert(m.contains_key(lock_key(id)));
            assert(keys.contains(lock_key(id)));
            let j = choose|j: int| 0 <= j < keys.len() && keys[j] == lock_key(id);
            lemma_parse_lock_key(id);
            assert(key_ids(keys)[j] == id);
        }
    }
}

/// The specifier the root importer records for a direct dependency named `name`.
pub open spec fn recorded_specifier(
    deps: Map<Seq<char>, Seq<char>>,
    dev: Map<Seq<char>, Seq<char>>,
    name: Seq<char>,
) -> Seq<char> {
    if deps.contains_key(name) {
        deps[name]
    } else if dev.contains_key(name) {
        dev[name]
    } else {
        Seq::empty()
    }
}

proof fn lemma_importer_after(
    direct: Seq<(Seq<char>, Seq<char>)>,
    deps: Map<Seq<char>, Seq<char>>,
    dev: Map<Seq<char>, Seq<char>>,
    n: int,
)
    requires
        0 <= n <= direct.len(),
    ensures
        forall|name: Seq<char>|
            #![trigger dev.contains_key(name)]
            (exists|i: int| 0 <= i < n && (#[trigger] direct[i]).0 == name) ==> {
                let imp = importer_after(direct, deps, dev, n);
                &&& dev.contains_key(name) ==> imp.dev_dependencies.contains_key(name)
                    && imp.dev_dependencies[name].0 == recorded_specifier(deps, dev, name)
                &&& !dev.contains_key(name) ==> imp.dependencies.contains_key(name)
                    && imp.dependencies[name].0 == recorded_specifier(deps, dev, name)
            },
    decreases n,
{
    if n > 0 {
        lemma_importer_after(direct, deps, dev, n - 1);
        assert forall|name: Seq<char>|
            #![trigger dev.contains_key(name)]
            (exists|i: int| 0 <= i < n && (#[trigger] direct[i]).0 == name) implies {
                let imp = importer_after(direct, deps, dev, n);
                &&& dev.contains_key(name) ==> imp.dev_dependencies.contains_key(name)
                    && imp.dev_dependencies[name].0 == recorded_specifier(deps, dev, name)
                &&& !dev.contains_key(name) ==> imp.dependencies.contains_key(name)
                    && imp.dependencies[name].0 == recorded_specifier(deps, dev, name)
            } by {
            if direct[n - 1].0 != name {
                let i = choose|i: int| 0 <= i < n && (#[trigger] direct[i]).0 == name;
                assert(i < n - 1);
                assert(exists|i: int| 0 <= i < n - 1 && (#[trigger] direct[i]).0 == name);
            }
        }
    }
}

proof fn lemma_first_problem_none(
    keys: Seq<Seq<char>>,
    deps: Map<Seq<char>, Seq<char>>,
    locked: Map<Seq<char>, (Seq<char>, Seq<char>)>,
    dev: bool,
    i: int,
)
    requires
        0 <= i,
        forall|j: int|
            i <= j < keys.len() ==> dep_problem(#[trigger] keys[j], deps[keys[j]], locked, dev)
                is None,
    ensures
        first_problem(keys, deps, locked, dev, i) is None,
    decreases keys.len() - i,
{
    if i < keys.len() {
        lemma_first_problem_none(keys, deps, locked, dev, i + 1);
    }
}

/// A lockfile written for a manifest agrees with that manifest: when every
/// dependency and dev dependency (none both) is a direct dependency of the
/// resolution, validating the lockfile against them finds no problem.
pub proof fn lemma_validate_in_sync(
    lock: LockfileModel,
    direct: Seq<(Seq<char>, Seq<char>)>,
    deps: Map<Seq<char>, Seq<char>>,
    dev: Map<Seq<char>, Seq<char>>,
)
    requires
        deps.dom().finite(),
        dev.dom().finite(),
        lock.importers == Map::<Seq<char>, ImporterModel>::empty().insert(
            seq!['.'],
            importer_after(direct, deps, dev, direct.len() as int),
        ),
        forall|name: Seq<char>|
            #[trigger] deps.contains_key(name) || dev.contains_key(name) ==> exists|i: int|
                0 <= i < direct.len() && (#[trigger] direct[i]).0 == name,
        forall|name: Seq<char>| !(#[trigger] deps.contains_key(name) && dev.contains_key(name)),
    ensures
        spec_validation(lock, deps, dev) is None,
{
    lemma_importer_after(direct, deps, dev, direct.len() as int);
    lemma_ordered_keys(deps);
    lemma_ordered_keys(dev);
    let root = importer_after(direct, deps, dev, direct.len() as int);
    let dk = ordered_keys(deps);
    let vk = ordered_keys(dev);
    assert forall|j: int| 0 <= j < dk.len() implies dep_problem(
        #[trigger] dk[j],
        deps[dk[j]],
        root.dependencies,
        false,
    ) is None by {
        assert(dk.contains(dk[j]));
        assert(deps.contains_key(dk[j]));
        assert(!dev.contains_key(dk[j]));
    }
    assert forall|j: int| 0 <= j < vk.len() implies dep_problem(
        #[trigger] vk[j],
        dev[vk[j]],
        root.dev_dependencies,
        true,
    ) is None by {
        assert(vk.contains(vk[j]));
        assert(dev.contains_key(vk[j]));
        assert(!deps.contains_key(vk[j]));
    }
    lemma_first_problem_none(dk, deps, root.dependencies, false, 0);
    lemma_first_problem_none(vk, dev, root.dev_dependencies, true, 0);
}

/// A package from the registry keeps its integrity and tarball URL through the
/// lockfile, and reads back with its dependencies pinned to the resolved versions.
pub proof fn lemma_lockfile_keeps_registry_fields(items: Seq<ResolvedModel>, p: ResolvedModel)
    requires
        p.source_path is None,
    ensures
        resolved_from_lock(p.id, lock_package_of(items, p)).integrity == p.integrity,
        resolved_from_lock(p.id, lock_package_of(items, p)).tarball_url == p.tarball_url,
        resolved_from_lock(p.id, lock_package_of(items, p)).dependencies == pinned_deps(
            items,
            p.dependencies,
        ),
        resolved_from_lock(p.id, lock_package_of(items, p)).source_path is None,
{
}

/// A local package keeps its directory through the lockfile.
pub proof fn lemma_lockfile_keeps_directory(items: Seq<ResolvedModel>, p: ResolvedModel)
    requires
        p.source_path is Some,
    ensures
        resolved_from_lock(p.id, lock_package_of(items, p)).source_path == p.source_path,
{
}

/// The dependencies a written lockfile records are resolved packages: each entry names
/// a package of the resolution (and so a key of the lockfile), and every dependency
/// whose name was resolved has an entry. Reading the lockfile back therefore turns
/// each entry into an edge.
pub proof fn lemma_lockfile_pins_resolved(
    items: Seq<ResolvedModel>,
    deps: Map<Seq<char>, Seq<char>>,
    d: Seq<char>,
)
    ensures
        pinned_deps(items, deps).contains_key(d) ==> has_id(
            items,
            (d, pinned_deps(items, deps)[d]),
        ),
        deps.contains_key(d) && (exists|i: int| 0 <= i < items.len() && items[i].id.0 == d)
            ==> pinned_deps(items, deps).contains_key(d),
{
    if exists|i: int| 0 <= i < items.len() && items[i].id.0 == d {
        let i = choose|i: int| 0 <= i < items.len() && items[i].id.0 == d;
        lemma_first_named_found(items, d, i);
        let k = first_named(items, d)->0;
        assert(items[k].id == (d, items[k].id.1));
    } else if first_named(items, d) is Some {
        assert(false);
    }
}

/// What the root importer written for `direct` holds after `n` of them: the two maps are
/// finite, a name goes to the dev map exactly when it is a dev dependency, every entry
/// comes from a direct dependency, and (names being distinct) each of the first `n`
/// direct dependencies is recorded with its version.
proof fn lemma_importer_records(
    direct: Seq<(Seq<char>, Seq<char>)>,
    deps: Map<Seq<char>, Seq<char>>,
    dev: Map<Seq<char>, Seq<char>>,
    n: int,
)
    requires
        0 <= n <= direct.len(),
        forall|i: int, j: int| 0 <= i < j < direct.len() ==> #[trigger] direct[i].0 != #[trigger] direct[j].0,
    ensures
        ({
            let imp = importer_after(direct, deps, dev, n);
            &&& imp.dependencies.dom().finite()
            &&& imp.dev_dependencies.dom().finite()
            &&& forall|k: Seq<char>| #[trigger] imp.dependencies.contains_key(k) ==> exists|i: int|
                0 <= i < n && direct[i] == (k, imp.dependencies[k].1)
            &&& forall|k: Seq<char>| #[trigger] imp.dev_dependencies.contains_key(k) ==> exists|i: int|
                0 <= i < n && direct[i] == (k, imp.dev_dependencies[k].1)
            &&& forall|i: int| 0 <= i < n ==> if dev.contains_key(#[trigger] direct[i].0) {
                imp.dev_dependencies.contains_key(direct[i].0) && imp.dev_dependencies[direct[i].0].1
                    == direct[i].1
            } else {
                imp.dependencies.contains_key(direct[i].0) && imp.dependencies[direct[i].0].1
                    == direct[i].1
            }
        }),
    decreases n,
{
    if n <= 0 {
        let imp = importer_after(direct, deps, dev, n);
        assert(imp.dependencies.dom() =~= Set::<Seq<char>>::empty());
        assert(imp.dev_dependencies.dom() =~= Set::<Seq<char>>::empty());
    } else {
        lemma_importer_records(direct, deps, dev, n - 1);
        let prev = importer_after(direct, deps, dev, n - 1);
        let imp = importer_after(direct, deps, dev, n);
        let id = direct[n - 1];
        assert forall|k: Seq<char>| #[trigger] imp.dependencies.contains_key(k) implies exists|i: int|
            0 <= i < n && direct[i] == (k, imp.dependencies[k].1) by {
            if k == id.0 && !dev.contains_key(id.0) {
                assert(direct[n - 1] == (k, imp.dependencies[k].1));
            } else {
                assert(prev.dependencies.contains_key(k));
                let i = choose|i: int| 0 <= i < n - 1 && direct[i] == (k, prev.dependencies[k].1);
                assert(direct[i] == (k, imp.dependencies[k].1));
            }
        }
        assert forall|k: Seq<char>| #[trigger] imp.dev_dependencies.contains_key(k) implies exists|i: int|
            0 <= i < n && direct[i] == (k, imp.dev_dependencies[k].1) by {
            if k == id.0 && dev.contains_key(id.0) {
                assert(direct[n - 1] == (k, imp.dev_dependencies[k].1));
            } else {
                assert(prev.dev_dependencies.contains_key(k));
                let i = choose|i: int| 0 <= i < n - 1 && direct[i] == (k, prev.dev_dependencies[k].1);
                assert(direct[i] == (k, imp.dev_dependencies[k].1));
            }
        }
        assert forall|i: int| 0 <= i < n implies if dev.contains_key(#[trigger] direct[i].0) {
            imp.dev_dependencies.contains_key(direct[i].0) && imp.dev_dependencies[direct[i].0].1
                == direct[i].1
        } else {
            imp.dependencies.contains_key(direct[i].0) && imp.dependencies[direct[i].0].1
                == direct[i].1
        } by {
            if i < n - 1 {
                assert(direct[i].0 != direct[n - 1].0);
            }
        }
    }
}

/// The importer entries that `direct_from` keeps are those, among the names, whose
/// recorded id is one of `ids`.
proof fn lemma_direct_from_contains(
    names: Seq<Seq<char>>,
    m: Map<Seq<char>, (Seq<char>, Seq<char>)>,
    ids: Seq<(Seq<char>, Seq<char>)>,
    c: (Seq<char>, Seq<char>),
)
    ensures
        direct_from(names, m, ids).contains(c) <==> ids.contains(c) && exists|j: int|
            0 <= j < names.len() && c == (#[trigger] names[j], m[names[j]].1),
    decreases names.len(),
{
    if names.len() > 0 {
        let prev = direct_from(names.drop_last(), m, ids);
        lemma_direct_from_contains(names.drop_last(), m, ids, c);
        let last = (names.last(), m[names.last()].1);
        let cur = direct_from(names, m, ids);
        if cur.contains(c) {
            if !(ids.contains(last) && c == last) {
                let k = choose|k: int| 0 <= k < cur.len() && cur[k] == c;
                assert(prev.contains(c)) by {
                    assert(prev[k] == c);
                }
                let j = choose|j: int|
                    0 <= j < names.drop_last().len() && c == (names.drop_last()[j], m[names.drop_last()[j]].1);
                assert(names[j] == names.drop_last()[j]);
            } else {
                assert(names[names.len() - 1] == names.last());
            }
        }
        if ids.contains(c) && exists|j: int| 0 <= j < names.len() && c == (#[trigger] names[j], m[names[j]].1) {
            let j = choose|j: int| 0 <= j < names.len() && c == (#[trigger] names[j], m[names[j]].1);
            if j == names.len() - 1 {
                assert(cur == prev.push(c));
                assert(cur[prev.len() as int] == c);
            } else {
                assert(names.drop_last()[j] == names[j]);
                assert(prev.contains(c));
                let k = choose|k: int| 0 <= k < prev.len() && prev[k] == c;
                if ids.contains(last) {
                    assert(cur[k] == c);
                }
            }
        }
    }
}

/// The direct dependencies of a resolution survive writing the lockfile and reading it
/// back: the root importer of the lockfile written for them names, among the packages
/// read back, exactly the direct dependencies (when they are resolved packages with
/// distinct names and versions without '@').
pub proof fn lemma_lockfile_keeps_direct_deps(
    l: LockfileModel,
    items: Seq<ResolvedModel>,
    direct: Seq<(Seq<char>, Seq<char>)>,
    deps: Map<Seq<char>, Seq<char>>,
    dev: Map<Seq<char>, Seq<char>>,
)
    requires
        l.importers == Map::<Seq<char>, ImporterModel>::empty().insert(
            seq!['.'],
            importer_after(direct, deps, dev, direct.len() as int),
        ),
        l.packages == lock_packages_after(items, items.len() as int),
        forall|i: int| 0 <= i < items.len() ==> !(#[trigger] items[i]).id.1.contains('@'),
        forall|i: int| 0 <= i < direct.len() ==> has_id(items, #[trigger] direct[i]),
        forall|i: int, j: int| 0 <= i < j < direct.len() ==> #[trigger] direct[i].0 != #[trigger] direct[j].0,
    ensures
        forall|c: (Seq<char>, Seq<char>)| #[trigger]
            lock_direct(l, key_ids(ordered_keys(l.packages))).contains(c) <==> direct.contains(c),
{
    let ids = key_ids(ordered_keys(l.packages));
    lemma_lockfile_roundtrip(items);
    let root = importer_after(direct, deps, dev, direct.len() as int);
    lemma_importer_records(direct, deps, dev, direct.len() as int);
    assert(l.importers.contains_key(seq!['.']));
    assert(l.importers[seq!['.']] == root);
    let dk = ordered_keys(root.dependencies);
    let vk = ordered_keys(root.dev_dependencies);
    lemma_ordered_keys(root.dependencies);
    lemma_ordered_keys(root.dev_dependencies);
    let a = direct_from(dk, root.dependencies, ids);
    let b = direct_from(vk, root.dev_dependencies, ids);
    assert(lock_direct(l, ids) == a + b);
    assert forall|c: (Seq<char>, Seq<char>)| #[trigger]
        lock_direct(l, ids).contains(c) <==> direct.contains(c) by {
        lemma_direct_from_contains(dk, root.dependencies, ids, c);
        lemma_direct_from_contains(vk, root.dev_dependencies, ids, c);
        if (a + b).contains(c) {
            let k = choose|k: int| 0 <= k < (a + b).len() && (a + b)[k] == c;
            if k < a.len() {
                assert(a[k] == c);
                let j = choose|j: int| 0 <= j < dk.len() && c == (#[trigger] dk[j], root.dependencies[dk[j]].1);
                assert(dk.contains(dk[j]));
                let i = choose|i: int|
                    0 <= i < direct.len() && direct[i] == (dk[j], root.dependencies[dk[j]].1);
                assert(direct[i] == c);
            } else {
                assert(b[k - a.len()] == c);
                let j = choose|j: int| 0 <= j < vk.len() && c == (#[trigger] vk[j], root.dev_dependencies[vk[j]].1);
                assert(vk.contains(vk[j]));
                let i = choose|i: int|
                    0 <= i < direct.len() && direct[i] == (vk[j], root.dev_dependencies[vk[j]].1);
                assert(direct[i] == c);
            }
        }
        if direct.contains(c) {
            let i = choose|i: int| 0 <= i < direct.len() && direct[i] == c;
            assert(has_id(items, direct[i]));
            assert(ids.contains(c));
            if dev.contains_key(direct[i].0) {
                assert(root.dev_dependencies.contains_key(c.0));
                assert(vk.contains(c.0));
                let j = choose|j: int| 0 <= j < vk.len() && vk[j] == c.0;
                assert(c == (vk[j], root.dev_dependencies[vk[j]].1));
                assert(b.contains(c));
                let k = choose|k: int| 0 <= k < b.len() && b[k] == c;
                assert((a + b)[a.len() + k] == c);
            } else {
                assert(root.dependencies.contains_key(c.0));
                assert(dk.contains(c.0));
                let j = choose|j: int| 0 <= j < dk.len() && dk[j] == c.0;
                assert(c == (dk[j], root.dependencies[dk[j]].1));
                assert(a.contains(c));
                let k = choose|k: int| 0 <= k < a.len() && a[k] == c;
                assert((a + b)[k] == c);
            }
        }
    }
}

impl Lockfile {
    pub fn new() -> (l: Lockfile)
        ensures
            l@.lockfile_version == "1.0"@,
            l@.importers == Map::<Seq<char>, ImporterModel>::empty(),
            l@.packages == Map::<Seq<char>, LockPackageModel>::empty(),
    {
        Lockfile {
            lockfile_version: to_owned("1.0"),
            importers: StrMap::new(),
            packages: StrMap::new(),
        }
    }

    /// Build lockfile from resolution result
    pub fn from_resolution(
        resolution: &ResolutionResult,
        root_deps: &StrMap<String>,
        root_dev_deps: &StrMap<String>,
    ) -> (l: Lockfile)
        ensures
            l@.lockfile_version == "1.0"@,
            l@.importers == Map::<Seq<char>, ImporterModel>::empty().insert(
                seq!['.'],
                importer_after(
                    resolution.direct_deps@.map_values(|p: PackageId| p@),
                    root_deps@,
                    root_dev_deps@,
                    resolution.direct_deps@.len() as int,
                ),
            ),
            l@.packages == lock_packages_after(
                resolution.packages.items(),
                resolution.packages.items().len() as int,
            ),
    {
        let mut lockfile = Lockfile::new();
        let ghost direct = resolution.direct_deps@.map_values(|p: PackageId| p@);

        // Build importer for root project
        let mut importer = LockfileImporter {
            dependencies: StrMap::new(),
            dev_dependencies: StrMap::new(),
        };
        let mut i: usize = 0;
        while i < resolution.direct_deps.len()
            invariant
                i <= resolution.direct_deps@.len(),
                direct == resolution.direct_deps@.map_values(|p: PackageId| p@),
                importer@ == importer_after(direct, root_deps@, root_dev_deps@, i as int),
            decreases resolution.direct_deps@.len() - i,
        {
            let id = &resolution.direct_deps[i];
            assert(direct[i as int] == id@);
            let specifier = match root_deps.get(id.name.as_str()) {
                Some(s) => s.view_clone(),
                None => match root_dev_deps.get(id.name.as_str()) {
                    Some(s) => s.view_clone(),
                    None => String::new(),
                },
            };
            let dep_ref = LockfileDependencyRef { specifier, version: id.version.view_clone() };
            if root_dev_deps.contains_key(id.name.as_str()) {
                importer.dev_dependencies.insert(id.name.view_clone(), dep_ref);
            } else {
                importer.dependencies.insert(id.name.view_clone(), dep_ref);
            }
            i = i + 1;
        }
        let dot = to_owned(".");
        proof {
            reveal_strlit(".");
            assert(dot@ =~= seq!['.']);
        }
        lockfile.importers.insert(dot, importer);

        // Build packages
        let n = resolution.packages.len();
        let mut k: usize = 0;
        while k < n
            invariant
                k <= n == resolution.packages.items().len(),
                lockfile@.lockfile_version == "1.0"@,
                lockfile@.importers == Map::<Seq<char>, ImporterModel>::empty().insert(
                    seq!['.'],
                    importer_after(direct, root_deps@, root_dev_deps@, direct.len() as int),
                ),
                lockfile@.packages == lock_packages_after(resolution.packages.items(), k as int),
            decreases n - k,
        {
            let pkg = resolution.packages.get_index(k);
            let key = package_key(&pkg.id);
            let lock_pkg = lock_package_for(&resolution.packages, pkg);
            lockfile.packages.insert(key, lock_pkg);
            k = k + 1;
        }
        lockfile
    }

    /// Reconstruct a ResolutionResult from the lockfile, avoiding full resolution.
    /// Used by `alchemy ci` to install directly from the lockfile.
    pub fn to_resolution_result(&self) -> (r: Result<ResolutionResult, AlchemyError>)
        requires
            ordered_keys(self@.packages).len() < u32::MAX,
            dep_entry_count(
                ordered_keys(self@.packages),
                self@.packages,
                ordered_keys(self@.packages).len() as int,
            ) < u32::MAX,
        ensures
            ({
                let keys = ordered_keys(self@.packages);
                let ids = key_ids(keys);
                match r {
                    Err(e) => first_bad_key(keys, 0) is Some && e is Other && spec_error_message(e)
                        == "Invalid lockfile key: "@ + keys[first_bad_key(keys, 0)->0],
                    Ok(res) => {
                        &&& first_bad_key(keys, 0) is None
                        &&& res.graph.nodes() == ids
                        &&& res.packages.items() == lock_items(keys, self@.packages)
                        &&& res.graph.edges() == lock_edges(
                            keys,
                            self@.packages,
                            ids,
                            keys.len() as int,
                        )
                        &&& res.direct_deps@.map_values(|p: PackageId| p@) == lock_direct(self@, ids)
                        &&& res.peer_warnings@.len() == 0
                    },
                }
            }),
    {
        let ghost keys = ordered_keys(self@.packages);
        let ghost lps = self@.packages;
        let n = self.packages.len();
        let mut graph = DependencyGraph::new();
        let mut packages = PackageTable::new();
        let mut ids_vec: Vec<PackageId> = Vec::new();

        // Parse all packages
        let mut i: usize = 0;
        while i < n
            invariant
                i <= n == keys.len(),
                n < u32::MAX,
                keys == ordered_keys(self@.packages),
                lps == self@.packages,
                self.packages.key_seq() == keys,
                strictly_sorted(keys),
                forall|k: int| 0 <= k < i ==> spec_parse_key(#[trigger] keys[k]) is Some,
                first_bad_key(keys, 0) == first_bad_key(keys, i as int),
                ids_vec@.map_values(|p: PackageId| p@) == key_ids(keys).take(i as int),
                graph.nodes() == key_ids(keys).take(i as int),
                packages.items() == lock_items(keys, lps).take(i as int),
                graph.edges() == Seq::<(usize, usize, DepEdge)>::empty(),
            decreases n - i,
        {
            let (key, lock_pkg) = self.packages.get_index(i);
            assert(keys[i as int] == key@);
            let id = match parse_key(key.as_str()) {
                Some(id) => id,
                None => {
                    return Err(
                        AlchemyError::Other(concat("Invalid lockfile key: ", key.as_str())),
                    );
                },
            };
            proof {
                let ids = key_ids(keys).take(i as int);
                assert forall|k: int| 0 <= k < ids.len() implies ids[k] != id@ by {
                    lemma_parse_key_inverse(keys[k]);
                    lemma_parse_key_inverse(keys[i as int]);
                    assert(lex_lt(keys[k], keys[i as int]));
                    lemma_lex_irreflexive(keys[k]);
                }
                if has_node(graph.nodes(), id@) {
                    let k = choose|k: int| 0 <= k < ids.len() && ids[k] == id@;
                }
                if has_id(packages.items(), id@) {
                    let k = choose|k: int|
                        0 <= k < packages.items().len() && #[trigger] packages.items()[k].id
                            == id@;
                    assert(lock_items(keys, lps)[k].id == ids[k]);
                }
            }
            graph.add_package(id.view_clone());
            let resolved = ResolvedPackage {
                id: id.view_clone(),
                tarball_url: match &lock_pkg.resolution.tarball {
                    Some(t) => t.view_clone(),
                    None => String::new(),
                },
                integrity: clone_opt(&lock_pkg.resolution.integrity),
                source_path: clone_opt(&lock_pkg.resolution.directory),
                dependencies: lock_pkg.dependencies.view_clone(),
                peer_dependencies: lock_pkg.peer_dependencies.view_clone(),
                optional_dependencies: lock_pkg.optional_dependencies.view_clone(),
                bin: None,
                os: None,
                cpu: None,
                engines: None,
            };
            packages.insert(resolved);
            ids_vec.push(id);
            proof {
                assert(key_ids(keys).take(i + 1) =~= key_ids(keys).take(i as int).push(id@));
                assert(lock_items(keys, lps).take(i + 1) =~= lock_items(keys, lps).take(
                    i as int,
                ).push(resolved_from_lock(id@, lps[keys[i as int]])));
                assert(ids_vec@.map_values(|p: PackageId| p@) =~= key_ids(keys).take(i + 1));
            }
            i = i + 1;
        }
        let ghost ids = key_ids(keys);
        proof {
            assert(key_ids(keys).take(n as int) =~= ids);
            assert(lock_items(keys, lps).take(n as int) =~= lock_items(keys, lps));
            lemma_first_bad_none(keys, n as int);
            use_type_invariant(&graph);
            graph.lemma_wf();
            assert(distinct_pairs(ids));
            assert forall|c: (Seq<char>, Seq<char>)| #[trigger] ids.contains(c) <==> has_id(
                packages.items(),
                c,
            ) by {
                if ids.contains(c) {
                    let k = choose|k: int| 0 <= k < ids.len() && ids[k] == c;
                    assert(packages.items()[k].id == c);
                }
                if has_id(packages.items(), c) {
                    let k = choose|k: int|
                        0 <= k < packages.items().len() && #[trigger] packages.items()[k].id == c;
                    assert(ids[k] == c);
                }
            }
        }

        // Build graph edges
        let mut k: usize = 0;
        while k < n
            invariant
                k <= n == keys.len() == ids.len(),
                n < u32::MAX,
                keys == ordered_keys(self@.packages),
                lps == self@.packages,
                self.packages.key_seq() == keys,
                ids == key_ids(keys),
                ids_vec@.map_values(|p: PackageId| p@) == ids,
                distinct_pairs(ids),
                graph.nodes() == ids,
                forall|c: (Seq<char>, Seq<char>)| #[trigger] ids.contains(c) <==> has_id(packages.items(), c),
                dep_entry_count(keys, lps, keys.len() as int) < u32::MAX,
                graph.edges() == lock_edges(keys, lps, ids, k as int),
                graph.edges().len() <= dep_entry_count(keys, lps, k as int),
            decreases n - k,
        {
            let (_, lock_pkg) = self.packages.get_index(k);
            let parent = &ids_vec[k];
            assert(parent@ == ids[k as int]);
            assert(lock_pkg@ == lps[keys[k as int]]);
            proof {
                lemma_dep_entry_count_mono(keys, lps, k + 1, keys.len() as int);
                lemma_kind_edges_len(k as int, ordered_keys(lock_pkg@.dependencies), lock_pkg@.dependencies, ids, DepEdge::Normal);
                lemma_kind_edges_len(k as int, ordered_keys(lock_pkg@.peer_dependencies), lock_pkg@.peer_dependencies, ids, DepEdge::Peer);
                lemma_kind_edges_len(k as int, ordered_keys(lock_pkg@.optional_dependencies), lock_pkg@.optional_dependencies, ids, DepEdge::Optional);
            }
            add_kind_edges(&mut graph, &packages, parent, k, &lock_pkg.dependencies, DepEdge::Normal, Ghost(ids));
            add_kind_edges(&mut graph, &packages, parent, k, &lock_pkg.peer_dependencies, DepEdge::Peer, Ghost(ids));
            add_kind_edges(&mut graph, &packages, parent, k, &lock_pkg.optional_dependencies, DepEdge::Optional, Ghost(ids));
            proof {
                assert(graph.edges() =~= lock_edges(keys, lps, ids, k + 1));
            }
            k = k + 1;
        }

        // Determine direct deps from importers
        let mut direct_deps: Vec<PackageId> = Vec::new();
        let dot = to_owned(".");
        proof {
            reveal_strlit(".");
            assert(dot@ =~= seq!['.']);
        }
        match self.importers.get(dot.as_str()) {
            Some(root) => {
                collect_direct(&root.dependencies, &packages, &mut direct_deps, Ghost(ids));
                collect_direct(&root.dev_dependencies, &packages, &mut direct_deps, Ghost(ids));
            },
            None => {},
        }
        proof {
            assert(direct_deps@.map_values(|p: PackageId| p@) =~= lock_direct(self@, ids));
        }
        Ok(ResolutionResult { graph, packages, direct_deps, peer_warnings: Vec::new() })
    }

    /// Get all resolved PackageIds from the lockfile, in key order; malformed keys are
    /// skipped.
    pub fn all_package_ids(&self) -> (r: Vec<PackageId>)
        ensures
            r@.map_values(|p: PackageId| p@) == ids_of_keys(ordered_keys(self@.packages)),
    {
        let n = self.packages.len();
        let mut r: Vec<PackageId> = Vec::new();
        let mut i: usize = 0;
        while i < n
            invariant
                i <= n == self.packages.key_seq().len(),
                self.packages.key_seq() == ordered_keys(self@.packages),
                r@.map_values(|p: PackageId| p@) == ids_of_keys(
                    self.packages.key_seq().take(i as int),
                ),
            decreases n - i,
        {
            let (key, _) = self.packages.get_index(i);
            let ghost ks = self.packages.key_seq().take(i + 1);
            assert(ks.drop_last() =~= self.packages.key_seq().take(i as int));
            assert(ks.last() == key@);
            match parse_key(key.as_str()) {
                Some(id) => {
                    r.push(id);
                    assert(r@.map_values(|p: PackageId| p@) =~= ids_of_keys(ks));
                },
                None => {},
            }
            i = i + 1;
        }
        assert(self.packages.key_seq().take(i as int) =~= self.packages.key_seq());
        r
    }

    /// Validate that the lockfile is consistent with the given manifest deps.
    /// Returns an error describing mismatches.
    pub fn validate_against_manifest(&self, deps: &StrMap<String>, dev_deps: &StrMap<String>) -> (r:
        Result<(), AlchemyError>)
        ensures
            r is Ok <==> spec_validation(self@, deps@, dev_deps@) is None,
            r matches Err(e) ==> e is Other && Some(spec_error_message(e)) == spec_validation(
                self@,
                deps@,
                dev_deps@,
            ),
    {
        let dot = to_owned(".");
        proof {
            reveal_strlit(".");
            assert(dot@ =~= seq!['.']);
        }
        let root_importer = match self.importers.get(dot.as_str()) {
            Some(r) => r,
            None => {
                return Err(AlchemyError::Other(to_owned("Lockfile has no root importer")));
            },
        };
        match check_group(deps, &root_importer.dependencies, false) {
            Some(e) => {
                return Err(AlchemyError::Other(e));
            },
            None => {},
        }
        match check_group(dev_deps, &root_importer.dev_dependencies, true) {
            Some(e) => Err(AlchemyError::Other(e)),
            None => Ok(()),
        }
    }
}

} // verus!
