//! Importing an npm package-lock.json (v2/v3) into the lockfile format.
use vstd::prelude::*;

use crate::error::{spec_error_message, AlchemyError};
use crate::lockfile::{
    lock_key, package_key, LockPackageModel, LockResolutionModel, Lockfile,
    LockfileDependencyRef, LockfileImporter, LockfilePackage, LockfileResolution,
};
use crate::dependency::{opt_seq, PackageId};
use crate::manifest::clone_opt;
use crate::strmap::{ordered_keys, StrMap, ViewClone};
use crate::text::{
    chars_of, concat, count_from, find_from, find_from_exec, lemma_find_from_props, occurs_at,
    rfind, rfind_exec, string_of_range, to_owned, trim_end_char, trim_end_char_len,
};

verus! {

/// npm package-lock.json v3 structures
pub struct NpmLockfile {
    pub lockfile_version: u32,
    pub packages: StrMap<NpmPackageEntry>,
}

pub struct NpmPackageEntry {
    pub version: Option<String>,
    pub resolved: Option<String>,
    pub integrity: Option<String>,
    pub dependencies: StrMap<String>,
    pub dev_dependencies: StrMap<String>,
    pub peer_dependencies: StrMap<String>,
    pub optional_dependencies: StrMap<String>,
    pub dev: Option<bool>,
    pub link: Option<bool>,
}

/// The value of an [`NpmPackageEntry`].
pub struct NpmEntryModel {
    pub version: Option<Seq<char>>,
    pub resolved: Option<Seq<char>>,
    pub integrity: Option<Seq<char>>,
    pub dependencies: Map<Seq<char>, Seq<char>>,
    pub dev_dependencies: Map<Seq<char>, Seq<char>>,
    pub peer_dependencies: Map<Seq<char>, Seq<char>>,
    pub optional_dependencies: Map<Seq<char>, Seq<char>>,
    pub dev: Option<bool>,
    pub link: Option<bool>,
}

impl View for NpmPackageEntry {
    type V = NpmEntryModel;

    open spec fn view(&self) -> NpmEntryModel {
        NpmEntryModel {
            version: opt_seq(self.version),
            resolved: opt_seq(self.resolved),
            integrity: opt_seq(self.integrity),
            dependencies: self.dependencies@,
            dev_dependencies: self.dev_dependencies@,
            peer_dependencies: self.peer_dependencies@,
            optional_dependencies: self.optional_dependencies@,
            dev: self.dev,
            link: self.link,
        }
    }
}

/// "node_modules/"
pub open spec fn nm_marker() -> Seq<char> {
    seq!['n', 'o', 'd', 'e', '_', 'm', 'o', 'd', 'u', 'l', 'e', 's', '/']
}

fn nm_marker_exec() -> (v: Vec<char>)
    ensures
        v@ == nm_marker(),
{
    let v = chars_of("node_modules/");
    proof {
        reveal_strlit("node_modules/");
        assert(v@ =~= nm_marker());
    }
    v
}

/// The package name of a node_modules path: what follows its last "node_modules/",
/// without trailing '/'; `None` when that is empty.
pub open spec fn spec_extract_package_name(path: Seq<char>) -> Option<Seq<char>> {
    let last = match rfind(path, nm_marker()) {
        Some(i) => path.skip(i + nm_marker().len()),
        None => path,
    };
    if last.len() == 0 {
        None
    } else {
        Some(trim_end_char(last, '/'))
    }
}

/// Extract package name from node_modules path.
/// "node_modules/express" → "express"
/// "node_modules/@scope/name" → "@scope/name"
/// "node_modules/a/node_modules/b" → "b"
pub fn extract_package_name(path: &str) -> (r: Option<String>)
    ensures
        match r {
            Some(n) => spec_extract_package_name(path@) == Some(n@),
            None => spec_extract_package_name(path@) is None,
        },
{
    let v = chars_of(path);
    let marker = nm_marker_exec();
    let _vlen = v.len();
    let start = match rfind_exec(&v, &marker) {
        Some(i) => {
            proof {
                crate::specifier::lemma_rfind_bounds(v@, marker@);
                assert(occurs_at(v@, marker@, i as int));
            }
            i + marker.len()
        },
        None => 0,
    };
    let last = crate::text::slice_vec(&v, start, v.len());
    assert(last@ =~= match rfind(path@, nm_marker()) {
        Some(i) => path@.skip(i + nm_marker().len()),
        None => path@,
    });
    if last.len() == 0 {
        return None;
    }
    let n = trim_end_char_len(&last, '/');
    Some(string_of_range(&last, 0, n))
}

/// Number of non-overlapping occurrences of `pat`, counted from the left.
pub fn count_matches(v: &Vec<char>, pat: &Vec<char>) -> (n: usize)
    requires
        pat@.len() > 0,
    ensures
        n == count_from(v@, pat@, 0),
{
    let mut count: usize = 0;
    let mut i: usize = 0;
    let vlen = v.len();
    loop
        invariant
            vlen == v@.len(),
            pat@.len() > 0,
            i <= v@.len(),
            count <= i,
            count + count_from(v@, pat@, i as int) == count_from(v@, pat@, 0),
        decreases v@.len() - i,
    {
        proof {
            lemma_find_from_props(v@, pat@, i as int);
        }
        match find_from_exec(v, pat, i) {
            None => {
                return count;
            },
            Some(j) => {
                assert(find_from(v@, pat@, i as int) == Some(j as int));
                assert(occurs_at(v@, pat@, j as int));
                assert(i <= j && j + pat@.len() <= v@.len());
                count = count + 1;
                i = j + pat.len();
            },
        }
    }
}

/// Check if a path represents a direct (top-level) dependency.
/// "node_modules/express" → true
/// "node_modules/express/node_modules/debug" → false
pub fn is_direct_dep(path: &str) -> (r: bool)
    ensures
        r == (count_from(path@, nm_marker(), 0) == 1),
{
    let v = chars_of(path);
    let marker = nm_marker_exec();
    count_matches(&v, &marker) == 1
}

/// The package an entry of package-lock.json stands for, if it is imported: not the
/// root entry (empty path), not a link, with a version and a package name.
pub open spec fn npm_included(path: Seq<char>, e: NpmEntryModel) -> Option<(Seq<char>, Seq<char>)> {
    if path.len() == 0 || e.link == Some(true) {
        None
    } else {
        match e.version {
            None => None,
            Some(v) => match spec_extract_package_name(path) {
                None => None,
                Some(n) => Some((n, v)),
            },
        }
    }
}

/// The lockfile entry for an imported package.
pub open spec fn npm_lock_package(e: NpmEntryModel) -> LockPackageModel {
    LockPackageModel {
        resolution: LockResolutionModel {
            integrity: e.integrity,
            tarball: e.resolved,
            git: None,
            directory: None,
        },
        dependencies: e.dependencies,
        peer_dependencies: e.peer_dependencies,
        optional_dependencies: e.optional_dependencies,
    }
}

/// The specifier the root entry gives a direct dependency: from its dependencies,
/// dev dependencies or optional dependencies, else "^" and the version.
pub open spec fn npm_specifier(root: NpmEntryModel, name: Seq<char>, version: Seq<char>) -> Seq<char> {
    if root.dependencies.contains_key(name) {
        root.dependencies[name]
    } else if root.dev_dependencies.contains_key(name) {
        root.dev_dependencies[name]
    } else if root.optional_dependencies.contains_key(name) {
        root.optional_dependencies[name]
    } else {
        seq!['^'] + version
    }
}

/// The packages and the root importer after importing the first `n` entries (in key
/// order).
pub open spec fn npm_import(
    keys: Seq<Seq<char>>,
    entries: Map<Seq<char>, NpmEntryModel>,
    n: int,
) -> (Map<Seq<char>, LockPackageModel>, crate::lockfile::ImporterModel)
    decreases n,
{
    if n <= 0 {
        (
            Map::empty(),
            crate::lockfile::ImporterModel {
                dependencies: Map::empty(),
                dev_dependencies: Map::empty(),
            },
        )
    } else {
        let prev = npm_import(keys, entries, n - 1);
        let path = keys[n - 1];
        let e = entries[path];
        match npm_included(path, e) {
            None => prev,
            Some(id) => {
                let pkgs = prev.0.insert(lock_key(id), npm_lock_package(e));
                if count_from(path, nm_marker(), 0) == 1 && entries.contains_key(Seq::empty()) {
                    let root = entries[Seq::empty()];
                    let r = (npm_specifier(root, id.0, id.1), id.1);
                    if e.dev == Some(true) || root.dev_dependencies.contains_key(id.0) {
                        (
                            pkgs,
                            crate::lockfile::ImporterModel {
                                dependencies: prev.1.dependencies,
                                dev_dependencies: prev.1.dev_dependencies.insert(id.0, r),
                            },
                        )
                    } else {
                        (
                            pkgs,
                            crate::lockfile::ImporterModel {
                                dependencies: prev.1.dependencies.insert(id.0, r),
                                dev_dependencies: prev.1.dev_dependencies,
                            },
                        )
                    }
                } else {
                    (pkgs, prev.1)
                }
            },
        }
    }
}

/// The specifier a root importer entry records for `name` is the one the root entry
/// of package-lock.json gives it: from its dependencies, else its dev dependencies,
/// else its optional dependencies; a name in none of them gets "^" and the version.
pub open spec fn root_specifier_kept(root: NpmEntryModel, name: Seq<char>, r: (Seq<char>, Seq<char>)) -> bool {
    &&& root.dependencies.contains_key(name) ==> r.0 == root.dependencies[name]
    &&& !root.dependencies.contains_key(name) && root.dev_dependencies.contains_key(name) ==> r.0
        == root.dev_dependencies[name]
    &&& !root.dependencies.contains_key(name) && !root.dev_dependencies.contains_key(name)
        && root.optional_dependencies.contains_key(name) ==> r.0 == root.optional_dependencies[name]
    &&& !root.dependencies.contains_key(name) && !root.dev_dependencies.contains_key(name)
        && !root.optional_dependencies.contains_key(name) ==> r.0 == seq!['^'] + r.1
}

/// Every direct dependency the import records, in the root importer's dependencies or
/// dev dependencies, keeps the specifier that package-lock.json's root entry gives it
/// (so the imported lockfile validates against the package.json it came from), and
/// the version of a top-level entry (`node_modules/<name>`) of package-lock.json; a
/// dev dependency of the root entry is never recorded among the dependencies.
pub proof fn lemma_npm_import_keeps_specifiers(
    keys: Seq<Seq<char>>,
    entries: Map<Seq<char>, NpmEntryModel>,
    n: int,
)
    requires
        n <= keys.len(),
        forall|i: int| 0 <= i < keys.len() ==> entries.contains_key(#[trigger] keys[i]),
    ensures
        forall|k: Seq<char>| #[trigger] npm_import(keys, entries, n).1.dependencies.contains_key(k)
            ==> entries.contains_key(Seq::empty()) && root_specifier_kept(
            entries[Seq::empty()],
            k,
            npm_import(keys, entries, n).1.dependencies[k],
        ),
        forall|k: Seq<char>| #[trigger] npm_import(keys, entries, n).1.dev_dependencies.contains_key(k)
            ==> entries.contains_key(Seq::empty()) && root_specifier_kept(
            entries[Seq::empty()],
            k,
            npm_import(keys, entries, n).1.dev_dependencies[k],
        ),
        forall|k: Seq<char>| #[trigger] npm_import(keys, entries, n).1.dependencies.contains_key(k)
            ==> !entries[Seq::empty()].dev_dependencies.contains_key(k),
        forall|k: Seq<char>| #[trigger] npm_import(keys, entries, n).1.dependencies.contains_key(k)
            ==> exists|p: Seq<char>|
            #![trigger entries[p]]
            entries.contains_key(p) && count_from(p, nm_marker(), 0) == 1 && entries[p].version
                == Some(npm_import(keys, entries, n).1.dependencies[k].1),
        forall|k: Seq<char>| #[trigger] npm_import(keys, entries, n).1.dev_dependencies.contains_key(k)
            ==> exists|p: Seq<char>|
            #![trigger entries[p]]
            entries.contains_key(p) && count_from(p, nm_marker(), 0) == 1 && entries[p].version
                == Some(npm_import(keys, entries, n).1.dev_dependencies[k].1),
    decreases n,
{
    if n > 0 {
        lemma_npm_import_keeps_specifiers(keys, entries, n - 1);
        let prev = npm_import(keys, entries, n - 1).1;
        let cur = npm_import(keys, entries, n).1;
        let path = keys[n - 1];
        let e = entries[path];
        match npm_included(path, e) {
            None => {
                assert(cur == prev);
            },
            Some(id) => {
                if count_from(path, nm_marker(), 0) == 1 && entries.contains_key(Seq::empty()) {
                    let root = entries[Seq::empty()];
                    let r = (npm_specifier(root, id.0, id.1), id.1);
                    assert(root_specifier_kept(root, id.0, r));
                    assert forall|k: Seq<char>| #[trigger] cur.dependencies.contains_key(k) implies entries.contains_key(
                        Seq::empty(),
                    ) && root_specifier_kept(root, k, cur.dependencies[k]) by {
                        if !(k == id.0 && !(e.dev == Some(true) || root.dev_dependencies.contains_key(id.0))) {
                            assert(prev.dependencies.contains_key(k));
                        }
                    }
                    assert(entries.contains_key(path));
                    assert forall|k: Seq<char>| #[trigger] cur.dependencies.contains_key(k) implies exists|p: Seq<char>|
                        #![trigger entries[p]]
                        entries.contains_key(p) && count_from(p, nm_marker(), 0) == 1 && entries[p].version
                            == Some(cur.dependencies[k].1) by {
                        if k == id.0 && !(e.dev == Some(true) || root.dev_dependencies.contains_key(id.0)) {
                            assert(entries[path].version == Some(cur.dependencies[k].1));
                        } else {
                            assert(prev.dependencies.contains_key(k));
                        }
                    }
                    assert forall|k: Seq<char>| #[trigger] cur.dev_dependencies.contains_key(k) implies exists|p: Seq<char>|
                        #![trigger entries[p]]
                        entries.contains_key(p) && count_from(p, nm_marker(), 0) == 1 && entries[p].version
                            == Some(cur.dev_dependencies[k].1) by {
                        if k == id.0 && (e.dev == Some(true) || root.dev_dependencies.contains_key(id.0)) {
                            assert(entries[path].version == Some(cur.dev_dependencies[k].1));
                        } else {
                            assert(prev.dev_dependencies.contains_key(k));
                        }
                    }
                    assert forall|k: Seq<char>| #[trigger] cur.dev_dependencies.contains_key(k) implies entries.contains_key(
                        Seq::empty(),
                    ) && root_specifier_kept(root, k, cur.dev_dependencies[k]) by {
                        if !(k == id.0 && (e.dev == Some(true) || root.dev_dependencies.contains_key(id.0))) {
                            assert(prev.dev_dependencies.contains_key(k));
                        }
                    }
                } else {
                    assert(cur == prev);
                }
            },
        }
    }
}

/// Every package the import records stands for an entry of package-lock.json that is
/// not the root and not a link: its key is "/<name>@<version>" with that entry's
/// version, and it keeps the entry's integrity, tarball URL and dependencies of each
/// kind.
pub proof fn lemma_npm_import_packages(
    keys: Seq<Seq<char>>,
    entries: Map<Seq<char>, NpmEntryModel>,
    n: int,
)
    requires
        n <= keys.len(),
        forall|i: int| 0 <= i < keys.len() ==> entries.contains_key(#[trigger] keys[i]),
    ensures
        forall|k: Seq<char>| #[trigger] npm_import(keys, entries, n).0.contains_key(k) ==> exists|p: Seq<char>,
            name: Seq<char>|
            #![trigger entries[p], lock_key((name, entries[p].version->0))]
            {
                let e = entries[p];
                let lp = npm_import(keys, entries, n).0[k];
                &&& entries.contains_key(p)
                &&& p.len() > 0
                &&& e.link != Some(true)
                &&& e.version is Some
                &&& k == lock_key((name, e.version->0))
                &&& lp.resolution.integrity == e.integrity
                &&& lp.resolution.tarball == e.resolved
                &&& lp.dependencies == e.dependencies
                &&& lp.peer_dependencies == e.peer_dependencies
                &&& lp.optional_dependencies == e.optional_dependencies
            },
    decreases n,
{
    if n > 0 {
        lemma_npm_import_packages(keys, entries, n - 1);
        let prev = npm_import(keys, entries, n - 1).0;
        let cur = npm_import(keys, entries, n).0;
        let path = keys[n - 1];
        let e = entries[path];
        match npm_included(path, e) {
            None => {
                assert(cur == prev);
            },
            Some(id) => {
                assert(cur == prev.insert(lock_key(id), npm_lock_package(e)));
                assert forall|k: Seq<char>| #[trigger] cur.contains_key(k) implies exists|p: Seq<char>,
                    name: Seq<char>|
                    #![trigger entries[p], lock_key((name, entries[p].version->0))]
                    {
                        let e2 = entries[p];
                        let lp = cur[k];
                        &&& entries.contains_key(p)
                        &&& p.len() > 0
                        &&& e2.link != Some(true)
                        &&& e2.version is Some
                        &&& k == lock_key((name, e2.version->0))
                        &&& lp.resolution.integrity == e2.integrity
                        &&& lp.resolution.tarball == e2.resolved
                        &&& lp.dependencies == e2.dependencies
                        &&& lp.peer_dependencies == e2.peer_dependencies
                        &&& lp.optional_dependencies == e2.optional_dependencies
                    } by {
                    if k == lock_key(id) {
                        assert(entries.contains_key(path));
                        assert(lock_key((id.0, entries[path].version->0)) == k);
                    } else {
                        assert(prev.contains_key(k));
                    }
                }
            },
        }
    }
}

/// The lockfile an npm lockfile of version 2 or 3 is imported as.
pub fn lockfile_from_npm(npm: &NpmLockfile) -> (r: Result<Lockfile, AlchemyError>)
    ensures
        npm.lockfile_version < 2 <==> r is Err,
        r matches Err(e) ==> e is Other && spec_error_message(e)
            == "Only package-lock.json v2/v3 is supported (lockfileVersion >= 2)"@,
        r matches Ok(l) ==> {
            let (pkgs, importer) = npm_import(
                ordered_keys(npm.packages@),
                npm.packages@,
                ordered_keys(npm.packages@).len() as int,
            );
            &&& l@.lockfile_version == "1.0"@
            &&& l@.packages == pkgs
            &&& l@.importers == Map::<Seq<char>, crate::lockfile::ImporterModel>::empty().insert(
                seq!['.'],
                importer,
            )
        },
{
    if npm.lockfile_version < 2 {
        return Err(
            AlchemyError::Other(
                to_owned("Only package-lock.json v2/v3 is supported (lockfileVersion >= 2)"),
            ),
        );
    }
    let mut lockfile = Lockfile::new();
    let mut importer = LockfileImporter {
        dependencies: StrMap::new(),
        dev_dependencies: StrMap::new(),
    };
    // The root entry has key "" and contains the project's direct deps
    let empty = String::new();
    let root_entry = npm.packages.get(empty.as_str());
    let ghost keys = ordered_keys(npm.packages@);
    let ghost entries = npm.packages@;
    let n = npm.packages.len();
    let mut i: usize = 0;
    while i < n
        invariant
            i <= n == keys.len(),
            keys == ordered_keys(npm.packages@),
            entries == npm.packages@,
            npm.packages.key_seq() == keys,
            root_entry matches Some(r) ==> entries.contains_key(Seq::empty()) && entries[Seq::empty()] == r@,
            root_entry is None ==> !entries.contains_key(Seq::empty()),
            lockfile@.lockfile_version == "1.0"@,
            lockfile@.importers == Map::<Seq<char>, crate::lockfile::ImporterModel>::empty(),
            (lockfile@.packages, importer@) == npm_import(keys, entries, i as int),
        decreases n - i,
    {
        let (nm_path, entry) = npm.packages.get_index(i);
        assert(keys[i as int] == nm_path@);
        assert(entries[nm_path@] == entry@);
        let included = if chars_of(nm_path.as_str()).len() == 0 {
            None
        } else if entry.link == Some(true) {
            None
        } else {
            match &entry.version {
                None => None,
                Some(v) => match extract_package_name(nm_path.as_str()) {
                    None => None,
                    Some(name) => Some((name, v.view_clone())),
                },
            }
        };
        assert(match included {
            Some((n, v)) => npm_included(nm_path@, entry@) == Some((n@, v@)),
            None => npm_included(nm_path@, entry@) is None,
        });
        if let Some((name, version)) = included {
            let id = PackageId { name: name.view_clone(), version: version.view_clone() };
            let key = package_key(&id);
            let lock_pkg = LockfilePackage {
                resolution: LockfileResolution {
                    integrity: clone_opt(&entry.integrity),
                    tarball: clone_opt(&entry.resolved),
                    git: None,
                    directory: None,
                },
                dependencies: entry.dependencies.view_clone(),
                peer_dependencies: entry.peer_dependencies.view_clone(),
                optional_dependencies: entry.optional_dependencies.view_clone(),
            };
            lockfile.packages.insert(key, lock_pkg);
            // Check if this is a direct dependency (top-level node_modules/*)
            if is_direct_dep(nm_path.as_str()) {
                if let Some(root) = root_entry {
                    // Determine the specifier from the root entry
                    let specifier = match root.dependencies.get(name.as_str()) {
                        Some(s) => s.view_clone(),
                        None => match root.dev_dependencies.get(name.as_str()) {
                            Some(s) => s.view_clone(),
                            None => match root.optional_dependencies.get(name.as_str()) {
                                Some(s) => s.view_clone(),
                                None => {
                                    let s = concat("^", version.as_str());
                                    proof {
                                        reveal_strlit("^");
                                        assert(s@ =~= seq!['^'] + version@);
                                    }
                                    s
                                },
                            },
                        },
                    };
                    let dep_ref = LockfileDependencyRef { specifier, version: version.view_clone() };
                    if entry.dev == Some(true) || root.dev_dependencies.contains_key(name.as_str()) {
                        importer.dev_dependencies.insert(name, dep_ref);
                    } else {
                        importer.dependencies.insert(name, dep_ref);
                    }
                }
            }
        }
        i = i + 1;
    }
    let dot = to_owned(".");
    proof {
        reveal_strlit(".");
        assert(dot@ =~= seq!['.']);
    }
    lockfile.importers.insert(dot, importer);
    Ok(lockfile)
}

} // verus!
