//! Identifiers and resolved metadata of packages.
use vstd::prelude::*;

use crate::manifest::{clone_opt, clone_strings, BinField, BinModel};
use crate::strmap::{StrMap, ViewClone};
use crate::text::{concat, push_str, replace_char, replace_char_exec, str_eq, to_owned};

verus! {

/// Unique identifier for a resolved package
#[derive(Debug, Clone, Hash, Eq, PartialEq, Ord, PartialOrd)]
pub struct PackageId {
    pub name: String,
    pub version: String,
}

impl View for PackageId {
    type V = (Seq<char>, Seq<char>);

    open spec fn view(&self) -> (Seq<char>, Seq<char>) {
        (self.name@, self.version@)
    }
}

impl ViewClone for PackageId {
    fn view_clone(&self) -> (r: PackageId) {
        PackageId { name: self.name.view_clone(), version: self.version.view_clone() }
    }
}

/// The `.pnpm` directory name of a package: scoped names use `+` in place of `/`.
pub open spec fn spec_pnpm_dir_name(id: (Seq<char>, Seq<char>)) -> Seq<char> {
    replace_char(id.0, '/', '+') + "@"@ + id.1
}

/// "name@version"
pub open spec fn spec_display(id: (Seq<char>, Seq<char>)) -> Seq<char> {
    id.0 + "@"@ + id.1
}

impl PackageId {
    pub fn new(name: &str, version: &str) -> (id: PackageId)
        ensures
            id@ == (name@, version@),
    {
        PackageId { name: to_owned(name), version: to_owned(version) }
    }

    /// Format as "name@version" used in .pnpm directory layout.
    /// Scoped packages use `+` instead of `/` to keep a flat directory name.
    pub fn pnpm_dir_name(&self) -> (r: String)
        ensures
            r@ == spec_pnpm_dir_name(self@),
    {
        let mut safe_name = replace_char_exec(self.name.as_str(), '/', '+');
        push_str(&mut safe_name, "@");
        push_str(&mut safe_name, self.version.as_str());
        safe_name
    }

    /// "name@version", the form in which a package is shown.
    pub fn to_string(&self) -> (r: String)
        ensures
            r@ == spec_display(self@),
    {
        let mut s = concat(self.name.as_str(), "@");
        push_str(&mut s, self.version.as_str());
        s
    }

    /// Same name and version.
    pub fn same_as(&self, other: &PackageId) -> (b: bool)
        ensures
            b == (self@ == other@),
    {
        str_eq(self.name.as_str(), other.name.as_str()) && str_eq(
            self.version.as_str(),
            other.version.as_str(),
        )
    }
}

#[derive(Debug, Clone, Copy, PartialEq, Eq, Structural)]
pub enum DepKind {
    Normal,
    Dev,
    Peer,
    Optional,
}

/// A dependency entry from package.json
pub struct Dependency {
    pub name: String,
    pub version_req: String,
    pub kind: DepKind,
}

/// Metadata about a peer dependency (from peerDependenciesMeta field)
#[derive(Debug, Clone, Copy)]
pub struct PeerDepMeta {
    pub optional: bool,
}

impl View for PeerDepMeta {
    type V = bool;

    open spec fn view(&self) -> bool {
        self.optional
    }
}

impl ViewClone for PeerDepMeta {
    fn view_clone(&self) -> (r: PeerDepMeta) {
        PeerDepMeta { optional: self.optional }
    }
}

/// Source of a resolved package
pub enum PackageSource {
    Registry { tarball_url: String, integrity: Option<String> },
    Git { url: String, commitish: Option<String> },
    Path { path: String },
    Url { url: String },
}

/// Resolved package with all metadata needed for installation
pub struct ResolvedPackage {
    pub id: PackageId,
    pub tarball_url: String,
    pub integrity: Option<String>,
    /// For `file:` dependencies, the absolute path to the local package directory.
    /// When set, the linker copies/hardlinks from this path instead of the content store.
    pub source_path: Option<String>,
    pub dependencies: StrMap<String>,
    pub peer_dependencies: StrMap<String>,
    pub optional_dependencies: StrMap<String>,
    pub bin: Option<BinField>,
    pub os: Option<Vec<String>>,
    pub cpu: Option<Vec<String>>,
    pub engines: Option<StrMap<String>>,
}

pub open spec fn opt_seq(o: Option<String>) -> Option<Seq<char>> {
    match o {
        Some(s) => Some(s@),
        None => None,
    }
}

pub open spec fn opt_list(o: Option<Vec<String>>) -> Option<Seq<Seq<char>>> {
    match o {
        Some(v) => Some(v@.map_values(|s: String| s@)),
        None => None,
    }
}

pub open spec fn opt_map(o: Option<StrMap<String>>) -> Option<Map<Seq<char>, Seq<char>>> {
    match o {
        Some(m) => Some(m@),
        None => None,
    }
}

pub open spec fn opt_bin(o: Option<BinField>) -> Option<BinModel> {
    match o {
        Some(b) => Some(b@),
        None => None,
    }
}

/// The value of a [`ResolvedPackage`].
pub struct ResolvedModel {
    pub id: (Seq<char>, Seq<char>),
    pub tarball_url: Seq<char>,
    pub integrity: Option<Seq<char>>,
    pub source_path: Option<Seq<char>>,
    pub dependencies: Map<Seq<char>, Seq<char>>,
    pub peer_dependencies: Map<Seq<char>, Seq<char>>,
    pub optional_dependencies: Map<Seq<char>, Seq<char>>,
    pub bin: Option<BinModel>,
    pub os: Option<Seq<Seq<char>>>,
    pub cpu: Option<Seq<Seq<char>>>,
    pub engines: Option<Map<Seq<char>, Seq<char>>>,
}

impl View for ResolvedPackage {
    type V = ResolvedModel;

    open spec fn view(&self) -> ResolvedModel {
        ResolvedModel {
            id: self.id@,
            tarball_url: self.tarball_url@,
            integrity: opt_seq(self.integrity),
            source_path: opt_seq(self.source_path),
            dependencies: self.dependencies@,
            peer_dependencies: self.peer_dependencies@,
            optional_dependencies: self.optional_dependencies@,
            bin: opt_bin(self.bin),
            os: opt_list(self.os),
            cpu: opt_list(self.cpu),
            engines: opt_map(self.engines),
        }
    }
}

pub fn clone_opt_strings(o: &Option<Vec<String>>) -> (r: Option<Vec<String>>)
    ensures
        opt_list(r) == opt_list(*o),
{
    match o {
        Some(v) => {
            let c = clone_strings(v);
            assert(c@.map_values(|s: String| s@) =~= v@.map_values(|s: String| s@));
            Some(c)
        },
        None => None,
    }
}

impl ViewClone for ResolvedPackage {
    fn view_clone(&self) -> (r: ResolvedPackage) {
        let integrity = clone_opt(&self.integrity);
        let source_path = clone_opt(&self.source_path);
        let bin = clone_opt(&self.bin);
        let engines = clone_opt(&self.engines);
        let r = ResolvedPackage {
            id: self.id.view_clone(),
            tarball_url: self.tarball_url.view_clone(),
            integrity,
            source_path,
            dependencies: self.dependencies.view_clone(),
            peer_dependencies: self.peer_dependencies.view_clone(),
            optional_dependencies: self.optional_dependencies.view_clone(),
            bin,
            os: clone_opt_strings(&self.os),
            cpu: clone_opt_strings(&self.cpu),
            engines,
        };
        assert(opt_seq(r.integrity) == opt_seq(self.integrity));
        assert(opt_seq(r.source_path) == opt_seq(self.source_path));
        assert(opt_bin(r.bin) == opt_bin(self.bin));
        assert(opt_map(r.engines) == opt_map(self.engines));
        r
    }
}

} // verus!
