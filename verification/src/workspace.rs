//! Workspaces: a root package and member packages that are linked to each other.
use vstd::prelude::*;

use crate::manifest::Manifest;
use crate::strmap::{StrMap, ViewClone};
use crate::text::{concat, has_prefix, starts_with, str_eq, to_owned};

verus! {

/// A discovered workspace configuration.
pub struct Workspace {
    /// Root directory of the workspace
    pub root_dir: String,
    /// Root package.json manifest
    pub root_manifest: Manifest,
    /// Discovered workspace member packages
    pub members: Vec<WorkspaceMember>,
}

/// A single workspace member package.
pub struct WorkspaceMember {
    /// Relative path from workspace root (e.g., "packages/ui")
    pub relative_path: String,
    /// Absolute path to the member directory
    pub dir: String,
    /// Parsed package.json
    pub manifest: Manifest,
}

/// Names of the members that have both a name and a version, mapped to the version;
/// a later member wins over an earlier one of the same name.
pub open spec fn spec_member_versions(ms: Seq<WorkspaceMember>) -> Map<Seq<char>, Seq<char>>
    decreases ms.len(),
{
    if ms.len() == 0 {
        Map::empty()
    } else {
        let prev = spec_member_versions(ms.drop_last());
        let m = ms.last();
        match (m.manifest.name, m.manifest.version) {
            (Some(n), Some(v)) => prev.insert(n@, v@),
            _ => prev,
        }
    }
}

/// The range a `workspace:` specifier stands for, given the member's version.
pub open spec fn spec_resolve_workspace_specifier(spec: Seq<char>, member_version: Seq<char>) -> Seq<
    char,
> {
    if spec == "*"@ {
        "*"@
    } else if spec == "^"@ {
        "^"@ + member_version
    } else if spec == "~"@ {
        "~"@ + member_version
    } else {
        spec
    }
}

/// `deps` without the `workspace:` entries that name a workspace member.
pub open spec fn spec_external_deps(
    deps: Map<Seq<char>, Seq<char>>,
    member_versions: Map<Seq<char>, Seq<char>>,
) -> Map<Seq<char>, Seq<char>> {
    Map::new(
        |k: Seq<char>|
            deps.contains_key(k) && !(has_prefix(deps[k], "workspace:"@)
                && member_versions.contains_key(k)),
        |k: Seq<char>| deps[k],
    )
}

/// All dependencies of a manifest (dev ones included).
pub open spec fn spec_all_deps(m: Manifest) -> Map<Seq<char>, Seq<char>> {
    m.dependencies@.union_prefer_right(m.optional_dependencies@).union_prefer_right(
        m.dev_dependencies@,
    )
}

/// The importers of the first `n` members, after the root importer ".".
pub open spec fn spec_member_importers(
    ms: Seq<WorkspaceMember>,
    mv: Map<Seq<char>, Seq<char>>,
    root: Map<Seq<char>, Map<Seq<char>, Seq<char>>>,
) -> Map<Seq<char>, Map<Seq<char>, Seq<char>>>
    decreases ms.len(),
{
    if ms.len() == 0 {
        root
    } else {
        spec_member_importers(ms.drop_last(), mv, root).insert(
            ms.last().relative_path@,
            spec_external_deps(spec_all_deps(ms.last().manifest), mv),
        )
    }
}

/// The importers a workspace resolves: the root ".", with its external dependencies,
/// and each member under its relative path with its own external dependencies (for
/// members with distinct relative paths other than ".").
pub proof fn lemma_workspace_importers(
    ms: Seq<WorkspaceMember>,
    mv: Map<Seq<char>, Seq<char>>,
    root_deps: Map<Seq<char>, Seq<char>>,
)
    requires
        forall|i: int, j: int|
            0 <= i < j < ms.len() ==> #[trigger] ms[i].relative_path@ != #[trigger] ms[j].relative_path@,
        forall|i: int| 0 <= i < ms.len() ==> (#[trigger] ms[i]).relative_path@ != "."@,
    ensures
        ({
            let r = spec_member_importers(ms, mv, Map::empty().insert("."@, root_deps));
            &&& forall|k: Seq<char>| #[trigger]
                r.contains_key(k) <==> (k == "."@ || exists|i: int|
                    0 <= i < ms.len() && ms[i].relative_path@ == k)
            &&& r["."@] == root_deps
            &&& forall|i: int|
                0 <= i < ms.len() ==> r[(#[trigger] ms[i]).relative_path@] == spec_external_deps(
                    spec_all_deps(ms[i].manifest),
                    mv,
                )
        }),
    decreases ms.len(),
{
    let root = Map::empty().insert("."@, root_deps);
    if ms.len() > 0 {
        let prev_ms = ms.drop_last();
        lemma_workspace_importers(prev_ms, mv, root_deps);
        let prev = spec_member_importers(prev_ms, mv, root);
        let r = spec_member_importers(ms, mv, root);
        let last = ms.last();
        assert(last == ms[ms.len() - 1]);
        assert forall|k: Seq<char>| #[trigger]
            r.contains_key(k) <==> (k == "."@ || exists|i: int|
                0 <= i < ms.len() && ms[i].relative_path@ == k) by {
            if prev.contains_key(k) && k != "."@ {
                let i = choose|i: int| 0 <= i < prev_ms.len() && prev_ms[i].relative_path@ == k;
                assert(ms[i] == prev_ms[i]);
            }
            if exists|i: int| 0 <= i < ms.len() && ms[i].relative_path@ == k {
                let i = choose|i: int| 0 <= i < ms.len() && ms[i].relative_path@ == k;
                if i < ms.len() - 1 {
                    assert(prev_ms[i] == ms[i]);
                }
            }
        }
        assert forall|i: int|
            0 <= i < ms.len() implies r[(#[trigger] ms[i]).relative_path@] == spec_external_deps(
                spec_all_deps(ms[i].manifest),
                mv,
            ) by {
            if i < ms.len() - 1 {
                assert(prev_ms[i] == ms[i]);
                assert(ms[i].relative_path@ != ms[ms.len() - 1].relative_path@);
            }
        }
        assert(ms[ms.len() - 1].relative_path@ != "."@);
    }
}

/// The member's package name is `name`.
pub open spec fn member_named(m: WorkspaceMember, name: Seq<char>) -> bool {
    m.manifest.name matches Some(n) && n@ == name
}

/// `key` is among the first `k` names of `ws`.
spec fn listed(ws: Seq<String>, k: int, key: Seq<char>) -> bool {
    exists|q: int| 0 <= q < k && #[trigger] ws[q]@ == key
}

proof fn lemma_listed_step(ws: Seq<String>, k: int)
    requires
        0 <= k < ws.len(),
    ensures
        forall|key: Seq<char>|
            #[trigger] listed(ws, k + 1, key) <==> (listed(ws, k, key) || ws[k]@ == key),
{
    assert forall|key: Seq<char>|
        #[trigger] listed(ws, k + 1, key) <==> (listed(ws, k, key) || ws[k]@ == key) by {
        if listed(ws, k + 1, key) {
            let q = choose|q: int| 0 <= q < k + 1 && #[trigger] ws[q]@ == key;
            if q < k {
                assert(listed(ws, k, key));
            }
        }
        if ws[k]@ == key {
            assert(listed(ws, k + 1, key));
        }
        if listed(ws, k, key) {
            let q = choose|q: int| 0 <= q < k && #[trigger] ws[q]@ == key;
            assert(0 <= q < k + 1 && ws[q]@ == key);
        }
    }
}

proof fn lemma_listed_push(ws: Seq<String>, s: String)
    ensures
        forall|key: Seq<char>|
            listed(ws, ws.len() as int, key) ==> #[trigger] listed(
                ws.push(s),
                (ws.len() + 1) as int,
                key,
            ),
        listed(ws.push(s), (ws.len() + 1) as int, s@),
{
    let w = ws.push(s);
    assert(w[ws.len() as int] == s);
    assert forall|key: Seq<char>|
        listed(ws, ws.len() as int, key) implies #[trigger] listed(w, (ws.len() + 1) as int, key) by {
        let q = choose|q: int| 0 <= q < ws.len() && #[trigger] ws[q]@ == key;
        assert(w[q] == ws[q]);
    }
}

/// Replace workspace: deps with the actual version from the workspace member.
/// Deps that reference workspace members are removed (they'll be symlinked, not resolved).
fn resolve_workspace_deps(deps: &mut StrMap<String>, member_versions: &StrMap<String>)
    ensures
        final(deps)@ == spec_external_deps(old(deps)@, member_versions@),
{
    // The workspace: entries, collected before any is removed
    let mut ws_deps: Vec<String> = Vec::new();
    let n = deps.len();
    let mut i: usize = 0;
    while i < n
        invariant
            i <= n == deps.entry_seq().len(),
            forall|j: int|
                0 <= j < ws_deps@.len() ==> deps@.contains_key(#[trigger] ws_deps@[j]@)
                    && has_prefix(deps@[ws_deps@[j]@], "workspace:"@),
            forall|j: int|
                0 <= j < i ==> has_prefix(#[trigger] deps.entry_seq()[j].1@, "workspace:"@)
                    ==> listed(ws_deps@, ws_deps@.len() as int, deps.entry_seq()[j].0@),
        decreases n - i,
    {
        let (name, spec) = deps.get_index(i);
        if starts_with(spec.as_str(), "workspace:") {
            let ghost before = ws_deps@;
            let copy = name.view_clone();
            ws_deps.push(copy);
            proof {
                lemma_listed_push(before, copy);
            }
        }
        i = i + 1;
    }
    let ghost start = deps@;
    let mut k: usize = 0;
    while k < ws_deps.len()
        invariant
            k <= ws_deps@.len(),
            start == old(deps)@,
            forall|j: int|
                0 <= j < ws_deps@.len() ==> start.contains_key(#[trigger] ws_deps@[j]@)
                    && has_prefix(start[ws_deps@[j]@], "workspace:"@),
            forall|key: Seq<char>|
                start.contains_key(key) && has_prefix(start[key], "workspace:"@) ==> listed(
                    ws_deps@,
                    ws_deps@.len() as int,
                    key,
                ),
            deps@ == Map::new(
                |key: Seq<char>|
                    start.contains_key(key) && !(member_versions@.contains_key(key) && listed(
                        ws_deps@,
                        k as int,
                        key,
                    )),
                |key: Seq<char>| start[key],
            ),
        decreases ws_deps@.len() - k,
    {
        let name = &ws_deps[k];
        if member_versions.contains_key(name.as_str()) {
            // This is a workspace member reference — remove from external deps
            // (it will be symlinked directly)
            deps.remove(name.as_str());
        }
        proof {
            lemma_listed_step(ws_deps@, k as int);
        }
        k = k + 1;
        assert(deps@ =~= Map::new(
            |key: Seq<char>|
                start.contains_key(key) && !(member_versions@.contains_key(key) && listed(
                    ws_deps@,
                    k as int,
                    key,
                )),
            |key: Seq<char>| start[key],
        ));
    }
    assert(deps@ =~= spec_external_deps(start, member_versions@)) by {
        assert forall|key: Seq<char>| #[trigger] start.contains_key(key) implies
            ((member_versions@.contains_key(key) && listed(ws_deps@, k as int, key))
            <==> (has_prefix(start[key], "workspace:"@) && member_versions@.contains_key(key))) by {
            if listed(ws_deps@, k as int, key) {
                let q = choose|q: int| 0 <= q < k && #[trigger] ws_deps@[q]@ == key;
                assert(has_prefix(start[ws_deps@[q]@], "workspace:"@));
            }
        }
    }
}

impl Workspace {
    /// Get a map of workspace member package names to their versions.
    pub fn member_versions(&self) -> (map: StrMap<String>)
        ensures
            map@ == spec_member_versions(self.members@),
    {
        let mut map = StrMap::new();
        let mut i: usize = 0;
        while i < self.members.len()
            invariant
                i <= self.members@.len(),
                map@ == spec_member_versions(self.members@.take(i as int)),
            decreases self.members@.len() - i,
        {
            let member = &self.members[i];
            assert(self.members@.take(i + 1).drop_last() =~= self.members@.take(i as int));
            if let (Some(name), Some(version)) = (&member.manifest.name, &member.manifest.version) {
                map.insert(name.view_clone(), version.view_clone());
            }
            i = i + 1;
        }
        assert(self.members@.take(i as int) =~= self.members@);
        map
    }

    /// Resolve a workspace: specifier to an actual version range.
    /// - "workspace:*" → "*" (any version, linked locally)
    /// - "workspace:^" → "^{actual_version}"
    /// - "workspace:~" → "~{actual_version}"
    /// - "workspace:^1.0.0" → "^1.0.0"
    pub fn resolve_workspace_specifier(spec: &str, member_version: &str) -> (r: String)
        ensures
            r@ == spec_resolve_workspace_specifier(spec@, member_version@),
    {
        if str_eq(spec, "*") {
            to_owned("*")
        } else if str_eq(spec, "^") {
            concat("^", member_version)
        } else if str_eq(spec, "~") {
            concat("~", member_version)
        } else {
            to_owned(spec)
        }
    }

    /// Collect all external dependencies across all members, resolving workspace: protocol.
    /// Returns (importer_key → deps) map for multi-root resolution.
    pub fn collect_all_dependencies(&self) -> (importers: StrMap<StrMap<String>>)
        ensures
            importers@ == spec_member_importers(
                self.members@,
                spec_member_versions(self.members@),
                Map::empty().insert(
                    "."@,
                    spec_external_deps(
                        spec_all_deps(self.root_manifest),
                        spec_member_versions(self.members@),
                    ),
                ),
            ),
    {
        let member_versions = self.member_versions();
        let mut importers: StrMap<StrMap<String>> = StrMap::new();
        let ghost mv = member_versions@;

        // Root project deps
        let mut root_deps = self.root_manifest.all_dependencies();
        resolve_workspace_deps(&mut root_deps, &member_versions);
        importers.insert(to_owned("."), root_deps);
        let ghost root = importers@;

        // Each member's deps
        let mut i: usize = 0;
        while i < self.members.len()
            invariant
                i <= self.members@.len(),
                mv == member_versions@,
                importers@ == spec_member_importers(self.members@.take(i as int), mv, root),
            decreases self.members@.len() - i,
        {
            let member = &self.members[i];
            let mut deps = member.manifest.all_dependencies();
            resolve_workspace_deps(&mut deps, &member_versions);
            importers.insert(member.relative_path.view_clone(), deps);
            assert(self.members@.take(i + 1).drop_last() =~= self.members@.take(i as int));
            i = i + 1;
        }
        assert(self.members@.take(i as int) =~= self.members@);
        importers
    }

    /// Find a workspace member by package name.
    pub fn find_member(&self, name: &str) -> (r: Option<&WorkspaceMember>)
        ensures
            r matches Some(m) ==> exists|i: int|
                0 <= i < self.members@.len() && self.members@[i] == *m && member_named(*m, name@)
                    && forall|j: int| 0 <= j < i ==> !member_named(#[trigger] self.members@[j], name@),
            r is None ==> forall|i: int|
                0 <= i < self.members@.len() ==> !member_named(#[trigger] self.members@[i], name@),
    {
        let mut i: usize = 0;
        while i < self.members.len()
            invariant
                i <= self.members@.len(),
                forall|j: int| 0 <= j < i ==> !member_named(#[trigger] self.members@[j], name@),
            decreases self.members@.len() - i,
        {
            let m = &self.members[i];
            if let Some(n) = &m.manifest.name {
                if str_eq(n.as_str(), name) {
                    return Some(m);
                }
            }
            i = i + 1;
        }
        None
    }
}

} // verus!
