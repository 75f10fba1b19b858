//! The pnpm-style `node_modules` layout, as a list of file-system operations.
//!
//! ```text
//! node_modules/
//! ├── .pnpm/
//! │   └── pkg@version/
//! │       └── node_modules/
//! │           ├── pkg/           ← hardlinked from store
//! │           └── dep → ../../dep@ver/node_modules/dep
//! └── direct-dep → .pnpm/direct-dep@ver/node_modules/direct-dep
//! ```
use vstd::prelude::*;

use crate::dependency::{spec_display, spec_pnpm_dir_name, PackageId, ResolvedModel};
use crate::manifest::{BinField, BinModel};
use crate::packages::{first_named, lemma_first_named, PackageTable};
use crate::paths::{path_join, spec_join};
use crate::resolver::{ResolutionResult, WorkspaceResolutionResult};
use crate::strmap::{ordered_keys, StrMap, ViewClone};
use crate::text::{
    char_vec, chars_of, concat, has_prefix, push_str, rfind, rfind_exec, slice_vec,
    string_of_range, to_owned, trim_end_char, trim_end_char_len,
};
use crate::workspace::Workspace;

verus! {

/// One file-system operation of the layout.
pub enum LinkOp {
    /// Remove the directory tree, if it exists.
    RemoveDirAll(String),
    /// Create the directory and its parents.
    CreateDirAll(String),
    /// Hard-link (or copy) the tree `src` into `dst`; when `src` does not exist,
    /// fail with the text `missing`.
    LinkTree { src: String, dst: String, missing: String },
    /// Create a symlink at `link` to `target`; with `only_if_absent`, leave an
    /// existing `link` as it is.
    Symlink { target: String, link: String, only_if_absent: bool },
    /// Add execute permission where there is read permission.
    MakeExecutable(String),
}

/// The value of a [`LinkOp`].
pub enum LinkOpModel {
    RemoveDirAll(Seq<char>),
    CreateDirAll(Seq<char>),
    LinkTree(Seq<char>, Seq<char>, Seq<char>),
    Symlink(Seq<char>, Seq<char>, bool),
    MakeExecutable(Seq<char>),
}

impl View for LinkOp {
    type V = LinkOpModel;

    open spec fn view(&self) -> LinkOpModel {
        match self {
            LinkOp::RemoveDirAll(p) => LinkOpModel::RemoveDirAll(p@),
            LinkOp::CreateDirAll(p) => LinkOpModel::CreateDirAll(p@),
            LinkOp::LinkTree { src, dst, missing } => LinkOpModel::LinkTree(src@, dst@, missing@),
            LinkOp::Symlink { target, link, only_if_absent } => LinkOpModel::Symlink(
                target@,
                link@,
                *only_if_absent,
            ),
            LinkOp::MakeExecutable(p) => LinkOpModel::MakeExecutable(p@),
        }
    }
}

pub open spec fn op_views(ops: Seq<LinkOp>) -> Seq<LinkOpModel> {
    ops.map_values(|o: LinkOp| o@)
}

// ---------------------------------------------------------------------------
// Paths
// ---------------------------------------------------------------------------

/// The relative path from `base` to `path` (`pathdiff::diff_paths`), if there is one.
pub uninterp spec fn path_diff(path: Seq<char>, base: Seq<char>) -> Option<Seq<char>>;

/// `pathdiff::diff_paths`: the path that leads from `base` to `path`, or `None`; a
/// function of the two paths alone.
#[verifier::external_body]
fn diff_paths(path: &str, base: &str) -> (r: Option<String>)
    ensures
        match r {
            Some(p) => path_diff(path@, base@) == Some(p@),
            None => path_diff(path@, base@) is None,
        },
{
    pathdiff::diff_paths(path, base).map(|p| p.to_string_lossy().into_owned())
}

/// The directory that holds a path: the text before its last '/' (trailing ones
/// ignored); "/" for a child of the root, "" for a bare name; none for the root or
/// the empty path.
pub open spec fn spec_parent(p: Seq<char>) -> Option<Seq<char>> {
    let q = trim_end_char(p, '/');
    if q.len() == 0 {
        None
    } else {
        match rfind(q, seq!['/']) {
            None => Some(Seq::empty()),
            Some(i) => if trim_end_char(q.take(i), '/').len() == 0 {
                Some(seq!['/'])
            } else {
                Some(trim_end_char(q.take(i), '/'))
            },
        }
    }
}

pub fn parent_dir(p: &str) -> (r: Option<String>)
    ensures
        match r {
            Some(s) => spec_parent(p@) == Some(s@),
            None => spec_parent(p@) is None,
        },
{
    let v = chars_of(p);
    let n = trim_end_char_len(&v, '/');
    let q = slice_vec(&v, 0, n);
    if q.len() == 0 {
        return None;
    }
    let slash = char_vec('/');
    match rfind_exec(&q, &slash) {
        None => Some(String::new()),
        Some(i) => {
            proof {
                crate::specifier::lemma_rfind_bounds(q@, slash@);
            }
            let head = slice_vec(&q, 0, i);
            let m = trim_end_char_len(&head, '/');
            if m == 0 {
                let s = to_owned("/");
                proof {
                    reveal_strlit("/");
                    assert(s@ =~= seq!['/']);
                }
                Some(s)
            } else {
                Some(string_of_range(&head, 0, m))
            }
        },
    }
}

/// The target of a symlink at `link` to `target`, relative to the link's directory
/// where such a path exists, else `target` itself.
pub open spec fn spec_relative_target(target: Seq<char>, link: Seq<char>) -> Seq<char> {
    match spec_parent(link) {
        Some(dir) => match path_diff(target, dir) {
            Some(r) => r,
            None => target,
        },
        None => target,
    }
}

/// Compute a relative symlink target: the relative path from the link's parent directory to `target`.
pub fn relative_target(target: &str, link: &str) -> (r: String)
    ensures
        r@ == spec_relative_target(target@, link@),
{
    match parent_dir(link) {
        Some(dir) => match diff_paths(target, dir.as_str()) {
            Some(r) => r,
            None => to_owned(target),
        },
        None => to_owned(target),
    }
}

/// `<store>/packages/<name>/<version>`
pub open spec fn spec_store_package_dir(store: Seq<char>, name: Seq<char>, version: Seq<char>) -> Seq<
    char,
> {
    spec_join(spec_join(spec_join(store, "packages"@), name), version)
}

pub fn store_package_dir(store_dir: &str, name: &str, version: &str) -> (r: String)
    ensures
        r@ == spec_store_package_dir(store_dir@, name@, version@),
{
    let p = path_join(store_dir, "packages");
    let p = path_join(p.as_str(), name);
    path_join(p.as_str(), version)
}

/// `<pnpm>/<name@version>/node_modules`, the directory of a package's own links.
pub open spec fn spec_pkg_modules(pnpm: Seq<char>, id: (Seq<char>, Seq<char>)) -> Seq<char> {
    spec_join(spec_join(pnpm, spec_pnpm_dir_name(id)), "node_modules"@)
}

/// `<pnpm>/<name@version>/node_modules/<name>`, where a package's files are.
pub open spec fn spec_pkg_dir(pnpm: Seq<char>, id: (Seq<char>, Seq<char>)) -> Seq<char> {
    spec_join(spec_pkg_modules(pnpm, id), id.0)
}

fn pkg_modules(pnpm: &str, id: &PackageId) -> (r: String)
    ensures
        r@ == spec_pkg_modules(pnpm@, id@),
{
    let d = id.pnpm_dir_name();
    let p = path_join(pnpm, d.as_str());
    path_join(p.as_str(), "node_modules")
}

fn pkg_dir(pnpm: &str, id: &PackageId) -> (r: String)
    ensures
        r@ == spec_pkg_dir(pnpm@, id@),
{
    let m = pkg_modules(pnpm, id);
    path_join(m.as_str(), id.name.as_str())
}

/// Where the layout puts the files of a package:
/// `<project>/node_modules/.pnpm/<name@version>/node_modules/<name>`.
pub fn installed_package_dir(project_dir: &str, id: &PackageId) -> (r: String)
    ensures
        r@ == spec_pkg_dir(spec_join(spec_join(project_dir@, "node_modules"@), ".pnpm"@), id@),
{
    let nm = path_join(project_dir, "node_modules");
    let pnpm = path_join(nm.as_str(), ".pnpm");
    pkg_dir(pnpm.as_str(), id)
}

// ---------------------------------------------------------------------------
// The steps of the layout
// ---------------------------------------------------------------------------

/// Step 1: link each package's files into `.pnpm`, from its source directory (local,
/// git and tarball dependencies) or from the store.
pub open spec fn tree_op(pnpm: Seq<char>, store: Seq<char>, p: ResolvedModel) -> LinkOpModel {
    match p.source_path {
        Some(sp) => LinkOpModel::LinkTree(
            sp,
            spec_pkg_dir(pnpm, p.id),
            "Source path for "@ + spec_display(p.id) + " not found at "@ + sp,
        ),
        None => LinkOpModel::LinkTree(
            spec_store_package_dir(store, p.id.0, p.id.1),
            spec_pkg_dir(pnpm, p.id),
            "Package "@ + spec_display(p.id) + " not found in store at "@
                + spec_store_package_dir(store, p.id.0, p.id.1),
        ),
    }
}

pub open spec fn tree_ops(pnpm: Seq<char>, store: Seq<char>, items: Seq<ResolvedModel>) -> Seq<
    LinkOpModel,
> {
    items.map_values(|p: ResolvedModel| tree_op(pnpm, store, p))
}

/// The symlink from a package's `node_modules` to a dependency (when a package of
/// that name was resolved).
pub open spec fn dep_link_ops(
    pnpm: Seq<char>,
    items: Seq<ResolvedModel>,
    p: ResolvedModel,
    names: Seq<Seq<char>>,
) -> Seq<LinkOpModel>
    decreases names.len(),
{
    if names.len() == 0 {
        Seq::empty()
    } else {
        let prev = dep_link_ops(pnpm, items, p, names.drop_last());
        let dn = names.last();
        match first_named(items, dn) {
            None => prev,
            Some(k) => {
                let link = spec_join(spec_pkg_modules(pnpm, p.id), dn);
                let target = spec_join(spec_pkg_modules(pnpm, items[k].id), dn);
                prev.push(LinkOpModel::Symlink(spec_relative_target(target, link), link, true))
            },
        }
    }
}

/// Step 2: the dependency symlinks of the first `n` packages.
pub open spec fn deps_ops(pnpm: Seq<char>, items: Seq<ResolvedModel>, n: int) -> Seq<LinkOpModel>
    decreases n,
{
    if n <= 0 {
        Seq::empty()
    } else {
        let p = items[n - 1];
        deps_ops(pnpm, items, n - 1) + dep_link_ops(
            pnpm,
            items,
            p,
            ordered_keys(p.dependencies),
        )
    }
}

/// The symlink of a direct dependency in `node_modules` (its scope directory first).
pub open spec fn direct_link_ops(nm: Seq<char>, pnpm: Seq<char>, id: (Seq<char>, Seq<char>)) -> Seq<
    LinkOpModel,
> {
    let link = spec_join(nm, id.0);
    let target = spec_pkg_dir(pnpm, id);
    let sym = LinkOpModel::Symlink(spec_relative_target(target, link), link, false);
    if id.0.len() > 0 && id.0[0] == '@' && spec_parent(link) is Some {
        seq![LinkOpModel::CreateDirAll(spec_parent(link)->0), sym]
    } else {
        seq![sym]
    }
}

/// Step 3: the symlinks of the direct dependencies.
pub open spec fn direct_ops(nm: Seq<char>, pnpm: Seq<char>, ids: Seq<(Seq<char>, Seq<char>)>) -> Seq<
    LinkOpModel,
>
    decreases ids.len(),
{
    if ids.len() == 0 {
        Seq::empty()
    } else {
        direct_ops(nm, pnpm, ids.drop_last()) + direct_link_ops(nm, pnpm, ids.last())
    }
}

/// The command name of a package's single binary: its name without scope.
pub open spec fn bin_name_of(name: Seq<char>) -> Seq<char> {
    match rfind(name, seq!['/']) {
        Some(i) => name.skip(i + 1),
        None => name,
    }
}

/// A package's binaries: (command, path in the package).
pub open spec fn bin_entries(p: ResolvedModel) -> Seq<(Seq<char>, Seq<char>)> {
    match p.bin {
        Some(BinModel::Path(path)) => seq![(bin_name_of(p.id.0), path)],
        Some(BinModel::Mapping(m)) => ordered_keys(m).map_values(|k: Seq<char>| (k, m[k])),
        None => Seq::empty(),
    }
}

/// The symlink in `.bin` of each binary, and the permission to run it.
pub open spec fn bin_link_ops(
    bin_dir: Seq<char>,
    pnpm: Seq<char>,
    id: (Seq<char>, Seq<char>),
    entries: Seq<(Seq<char>, Seq<char>)>,
) -> Seq<LinkOpModel>
    decreases entries.len(),
{
    if entries.len() == 0 {
        Seq::empty()
    } else {
        let (bn, bp) = entries.last();
        let target = spec_join(spec_pkg_dir(pnpm, id), bp);
        let link = spec_join(bin_dir, bn);
        bin_link_ops(bin_dir, pnpm, id, entries.drop_last()) + seq![
            LinkOpModel::Symlink(spec_relative_target(target, link), link, false),
            LinkOpModel::MakeExecutable(target),
        ]
    }
}

/// Some of the first `n` packages have a `bin` field.
pub open spec fn any_bins(items: Seq<ResolvedModel>, n: int) -> bool {
    exists|i: int| 0 <= i < n && (#[trigger] items[i]).bin is Some
}

/// Step 4: the binaries of the first `n` packages; `.bin` is created before the first.
pub open spec fn bin_ops(bin_dir: Seq<char>, pnpm: Seq<char>, items: Seq<ResolvedModel>, n: int) -> Seq<
    LinkOpModel,
>
    decreases n,
{
    if n <= 0 {
        Seq::empty()
    } else {
        let p = items[n - 1];
        let prev = bin_ops(bin_dir, pnpm, items, n - 1);
        if p.bin is None {
            prev
        } else {
            let made = if any_bins(items, n - 1) {
                Seq::empty()
            } else {
                seq![LinkOpModel::CreateDirAll(bin_dir)]
            };
            prev + made + bin_link_ops(bin_dir, pnpm, p.id, bin_entries(p))
        }
    }
}

fn push_op(ops: &mut Vec<LinkOp>, op: LinkOp)
    ensures
        op_views(final(ops)@) == op_views(old(ops)@).push(op@),
{
    ops.push(op);
    assert(op_views(ops@) =~= op_views(old(ops)@).push(op@));
}

fn push_tree_ops(ops: &mut Vec<LinkOp>, pnpm: &str, store: &str, packages: &PackageTable)
    ensures
        op_views(final(ops)@) == op_views(old(ops)@) + tree_ops(pnpm@, store@, packages.items()),
{
    let n = packages.len();
    let mut i: usize = 0;
    while i < n
        invariant
            i <= n == packages.items().len(),
            op_views(ops@) == op_views(old(ops)@) + tree_ops(
                pnpm@,
                store@,
                packages.items().take(i as int),
            ),
        decreases n - i,
    {
        let pkg = packages.get_index(i);
        let dst = pkg_dir(pnpm, &pkg.id);
        let shown = pkg.id.to_string();
        let op = match &pkg.source_path {
            Some(sp) => {
                let mut missing = concat("Source path for ", shown.as_str());
                push_str(&mut missing, " not found at ");
                push_str(&mut missing, sp.as_str());
                LinkOp::LinkTree { src: sp.view_clone(), dst, missing }
            },
            None => {
                let src = store_package_dir(store, pkg.id.name.as_str(), pkg.id.version.as_str());
                let mut missing = concat("Package ", shown.as_str());
                push_str(&mut missing, " not found in store at ");
                push_str(&mut missing, src.as_str());
                LinkOp::LinkTree { src, dst, missing }
            },
        };
        assert(op@ == tree_op(pnpm@, store@, pkg@));
        push_op(ops, op);
        assert(packages.items().take(i + 1) =~= packages.items().take(i as int).push(pkg@));
        assert(tree_ops(pnpm@, store@, packages.items().take(i + 1)) =~= tree_ops(
            pnpm@,
            store@,
            packages.items().take(i as int),
        ).push(tree_op(pnpm@, store@, pkg@)));
        i = i + 1;
    }
    assert(packages.items().take(i as int) =~= packages.items());
}

fn push_dep_link_ops(
    ops: &mut Vec<LinkOp>,
    pnpm: &str,
    packages: &PackageTable,
    id: &PackageId,
    deps: &StrMap<String>,
    Ghost(p): Ghost<ResolvedModel>,
)
    requires
        p.id == id@,
        p.dependencies == deps@,
    ensures
        op_views(final(ops)@) == op_views(old(ops)@) + dep_link_ops(
            pnpm@,
            packages.items(),
            p,
            ordered_keys(deps@),
        ),
{
    let n = deps.len();
    let nm = pkg_modules(pnpm, id);
    let mut j: usize = 0;
    while j < n
        invariant
            j <= n == ordered_keys(deps@).len(),
            deps.key_seq() == ordered_keys(deps@),
            p.id == id@,
            nm@ == spec_pkg_modules(pnpm@, id@),
            op_views(ops@) == op_views(old(ops)@) + dep_link_ops(
                pnpm@,
                packages.items(),
                p,
                ordered_keys(deps@).take(j as int),
            ),
        decreases n - j,
    {
        let (dep_name, _) = deps.get_index(j);
        let ghost names = ordered_keys(deps@).take(j + 1);
        assert(names.drop_last() =~= ordered_keys(deps@).take(j as int));
        assert(names.last() == dep_name@);
        match packages.find_by_name(dep_name.as_str()) {
            Some(dep_id) => {
                proof {
                    let i = choose|i: int|
                        0 <= i < packages.items().len() && packages.items()[i].id == dep_id@
                            && dep_id@.0 == dep_name@ && forall|j: int|
                            0 <= j < i ==> (#[trigger] packages.items()[j]).id.0 != dep_name@;
                    lemma_first_named(packages.items(), dep_name@, i);
                }
                let link = path_join(nm.as_str(), dep_name.as_str());
                let dm = pkg_modules(pnpm, dep_id);
                let target = path_join(dm.as_str(), dep_name.as_str());
                let rel = relative_target(target.as_str(), link.as_str());
                push_op(ops, LinkOp::Symlink { target: rel, link, only_if_absent: true });
            },
            None => {
                assert(first_named(packages.items(), dep_name@) is None);
            },
        }
        j = j + 1;
    }
    assert(ordered_keys(deps@).take(j as int) =~= ordered_keys(deps@));
}

fn push_deps_ops(ops: &mut Vec<LinkOp>, pnpm: &str, packages: &PackageTable)
    ensures
        op_views(final(ops)@) == op_views(old(ops)@) + deps_ops(
            pnpm@,
            packages.items(),
            packages.items().len() as int,
        ),
{
    let n = packages.len();
    let mut i: usize = 0;
    while i < n
        invariant
            i <= n == packages.items().len(),
            op_views(ops@) == op_views(old(ops)@) + deps_ops(pnpm@, packages.items(), i as int),
        decreases n - i,
    {
        let pkg = packages.get_index(i);
        push_dep_link_ops(ops, pnpm, packages, &pkg.id, &pkg.dependencies, Ghost(pkg@));
        assert(op_views(ops@) =~= op_views(old(ops)@) + deps_ops(pnpm@, packages.items(), i + 1));
        i = i + 1;
    }
}

fn push_direct_link(ops: &mut Vec<LinkOp>, nm: &str, pnpm: &str, id: &PackageId)
    ensures
        op_views(final(ops)@) == op_views(old(ops)@) + direct_link_ops(nm@, pnpm@, id@),
{
    let link = path_join(nm, id.name.as_str());
    let target = pkg_dir(pnpm, id);
    let name = chars_of(id.name.as_str());
    // Handle scoped packages — create @scope/ directory
    if name.len() > 0 && name[0] == '@' {
        if let Some(scope_dir) = parent_dir(link.as_str()) {
            push_op(ops, LinkOp::CreateDirAll(scope_dir));
        }
    }
    let rel = relative_target(target.as_str(), link.as_str());
    push_op(ops, LinkOp::Symlink { target: rel, link, only_if_absent: false });
    assert(op_views(ops@) =~= op_views(old(ops)@) + direct_link_ops(nm@, pnpm@, id@));
}

fn push_direct_ops(ops: &mut Vec<LinkOp>, nm: &str, pnpm: &str, direct: &Vec<PackageId>)
    ensures
        op_views(final(ops)@) == op_views(old(ops)@) + direct_ops(
            nm@,
            pnpm@,
            direct@.map_values(|p: PackageId| p@),
        ),
{
    let mut i: usize = 0;
    while i < direct.len()
        invariant
            i <= direct@.len(),
            op_views(ops@) == op_views(old(ops)@) + direct_ops(
                nm@,
                pnpm@,
                direct@.map_values(|p: PackageId| p@).take(i as int),
            ),
        decreases direct@.len() - i,
    {
        let ghost ids = direct@.map_values(|p: PackageId| p@).take(i + 1);
        assert(ids.drop_last() =~= direct@.map_values(|p: PackageId| p@).take(i as int));
        assert(ids.last() == direct@[i as int]@);
        push_direct_link(ops, nm, pnpm, &direct[i]);
        assert(op_views(ops@) =~= op_views(old(ops)@) + direct_ops(nm@, pnpm@, ids));
        i = i + 1;
    }
    assert(direct@.map_values(|p: PackageId| p@).take(i as int) =~= direct@.map_values(
        |p: PackageId| p@,
    ));
}

/// The command name of a package's single binary: its name without scope.
fn bin_name(name: &str) -> (r: String)
    ensures
        r@ == bin_name_of(name@),
{
    let v = chars_of(name);
    let slash = char_vec('/');
    let _n = v.len();
    match rfind_exec(&v, &slash) {
        Some(i) => {
            proof {
                crate::specifier::lemma_rfind_bounds(v@, slash@);
                assert(crate::text::occurs_at(v@, slash@, i as int));
            }
            let r = string_of_range(&v, i + 1, v.len());
            assert(r@ =~= name@.skip(i + 1));
            r
        },
        None => to_owned(name),
    }
}

fn push_bin_link(
    ops: &mut Vec<LinkOp>,
    bin_dir: &str,
    pnpm: &str,
    id: &PackageId,
    bin_name: &str,
    bin_path: &str,
)
    ensures
        op_views(final(ops)@) == op_views(old(ops)@) + seq![
            LinkOpModel::Symlink(
                spec_relative_target(spec_join(spec_pkg_dir(pnpm@, id@), bin_path@), spec_join(bin_dir@, bin_name@)),
                spec_join(bin_dir@, bin_name@),
                false,
            ),
            LinkOpModel::MakeExecutable(spec_join(spec_pkg_dir(pnpm@, id@), bin_path@)),
        ],
{
    let d = pkg_dir(pnpm, id);
    let target = path_join(d.as_str(), bin_path);
    let link = path_join(bin_dir, bin_name);
    let rel = relative_target(target.as_str(), link.as_str());
    push_op(ops, LinkOp::Symlink { target: rel, link, only_if_absent: false });
    push_op(ops, LinkOp::MakeExecutable(target));
    assert(op_views(ops@) =~= op_views(old(ops)@) + seq![
        LinkOpModel::Symlink(
            spec_relative_target(spec_join(spec_pkg_dir(pnpm@, id@), bin_path@), spec_join(bin_dir@, bin_name@)),
            spec_join(bin_dir@, bin_name@),
            false,
        ),
        LinkOpModel::MakeExecutable(spec_join(spec_pkg_dir(pnpm@, id@), bin_path@)),
    ]);
}

fn push_bin_entries(ops: &mut Vec<LinkOp>, bin_dir: &str, pnpm: &str, id: &PackageId, bin: &BinField, Ghost(p): Ghost<ResolvedModel>)
    requires
        p.id == id@,
        p.bin == Some(bin@),
    ensures
        op_views(final(ops)@) == op_views(old(ops)@) + bin_link_ops(bin_dir@, pnpm@, id@, bin_entries(p)),
{
    match bin {
        BinField::Path(path) => {
            // Single binary — name is the package name without scope
            let name = bin_name(id.name.as_str());
            push_bin_link(ops, bin_dir, pnpm, id, name.as_str(), path.as_str());
            proof {
                let e = bin_entries(p);
                assert(e =~= seq![(name@, path@)]);
                assert(e.drop_last() =~= Seq::<(Seq<char>, Seq<char>)>::empty());
                assert(e.last() == (name@, path@));
                assert(bin_link_ops(bin_dir@, pnpm@, id@, e.drop_last()) =~= Seq::<LinkOpModel>::empty());
                assert(op_views(ops@) =~= op_views(old(ops)@) + bin_link_ops(bin_dir@, pnpm@, id@, e));
            }
        },
        BinField::Mapping(map) => {
            let n = map.len();
            let ghost keys = ordered_keys(map@);
            let ghost all = keys.map_values(|k: Seq<char>| (k, map@[k]));
            assert(bin_entries(p) == all);
            let mut j: usize = 0;
            while j < n
                invariant
                    j <= n == keys.len(),
                    map.key_seq() == keys,
                    keys == ordered_keys(map@),
                    all == keys.map_values(|k: Seq<char>| (k, map@[k])),
                    op_views(ops@) == op_views(old(ops)@) + bin_link_ops(bin_dir@, pnpm@, id@, all.take(j as int)),
                decreases n - j,
            {
                let (k, v) = map.get_index(j);
                push_bin_link(ops, bin_dir, pnpm, id, k.as_str(), v.as_str());
                proof {
                    let e = all.take(j + 1);
                    assert(e.drop_last() =~= all.take(j as int));
                    assert(e.last() == (k@, v@));
                    assert(op_views(ops@) =~= op_views(old(ops)@) + bin_link_ops(bin_dir@, pnpm@, id@, e));
                }
                j = j + 1;
            }
            assert(all.take(j as int) =~= all);
        },
    }
}

fn push_bin_ops(ops: &mut Vec<LinkOp>, bin_dir: &str, pnpm: &str, packages: &PackageTable)
    ensures
        op_views(final(ops)@) == op_views(old(ops)@) + bin_ops(
            bin_dir@,
            pnpm@,
            packages.items(),
            packages.items().len() as int,
        ),
{
    let n = packages.len();
    let mut has_bins = false;
    let mut i: usize = 0;
    while i < n
        invariant
            i <= n == packages.items().len(),
            has_bins == any_bins(packages.items(), i as int),
            op_views(ops@) == op_views(old(ops)@) + bin_ops(bin_dir@, pnpm@, packages.items(), i as int),
        decreases n - i,
    {
        let pkg = packages.get_index(i);
        let ghost before = op_views(ops@);
        match &pkg.bin {
            None => {
                proof {
                    assert(any_bins(packages.items(), i + 1) == any_bins(packages.items(), i as int)) by {
                        if any_bins(packages.items(), i + 1) {
                            let k = choose|k: int| 0 <= k < i + 1 && (#[trigger] packages.items()[k]).bin is Some;
                            assert(k < i);
                        }
                    }
                }
            },
            Some(bin) => {
                if !has_bins {
                    push_op(ops, LinkOp::CreateDirAll(to_owned(bin_dir)));
                    has_bins = true;
                }
                push_bin_entries(ops, bin_dir, pnpm, &pkg.id, bin, Ghost(pkg@));
                proof {
                    assert(packages.items()[i as int].bin is Some);
                    assert(any_bins(packages.items(), i + 1));
                }
            },
        }
        assert(op_views(ops@) =~= op_views(old(ops)@) + bin_ops(bin_dir@, pnpm@, packages.items(), i + 1));
        i = i + 1;
    }
}

/// The layout of a project: node_modules is emptied; each package's files are linked
/// into `.pnpm`; each package gets links to its dependencies; the direct
/// dependencies are linked at the top; the binaries are linked into `.bin`.
pub open spec fn spec_link_plan(
    project: Seq<char>,
    store: Seq<char>,
    items: Seq<ResolvedModel>,
    direct: Seq<(Seq<char>, Seq<char>)>,
) -> Seq<LinkOpModel> {
    let nm = spec_join(project, "node_modules"@);
    let pnpm = spec_join(nm, ".pnpm"@);
    seq![LinkOpModel::RemoveDirAll(nm), LinkOpModel::CreateDirAll(pnpm)] + tree_ops(pnpm, store, items)
        + deps_ops(pnpm, items, items.len() as int) + direct_ops(nm, pnpm, direct) + bin_ops(
        spec_join(nm, ".bin"@),
        pnpm,
        items,
        items.len() as int,
    )
}

/// In the plan of `link_packages`, each resolved package (in order, after removing
/// `node_modules` and creating `.pnpm`) has its files linked into its `.pnpm`
/// directory: from its own source directory when it has one (a local, git or tarball
/// dependency), and otherwise from `<store>/packages/<name>/<version>`.
pub proof fn lemma_link_plan_sources(
    project: Seq<char>,
    store: Seq<char>,
    items: Seq<ResolvedModel>,
    direct: Seq<(Seq<char>, Seq<char>)>,
    i: int,
)
    requires
        0 <= i < items.len(),
    ensures
        ({
            let pnpm = spec_join(spec_join(project, "node_modules"@), ".pnpm"@);
            let plan = spec_link_plan(project, store, items, direct);
            &&& plan[i + 2] matches LinkOpModel::LinkTree(src, dst, _)
            &&& dst == spec_join(spec_join(spec_join(pnpm, spec_pnpm_dir_name(items[i].id)), "node_modules"@), items[i].id.0)
            &&& items[i].source_path matches Some(sp) ==> src == sp
            &&& items[i].source_path is None ==> src == spec_join(
                spec_join(spec_join(store, "packages"@), items[i].id.0),
                items[i].id.1,
            )
        }),
{
    let nm = spec_join(project, "node_modules"@);
    let pnpm = spec_join(nm, ".pnpm"@);
    let head = seq![LinkOpModel::RemoveDirAll(nm), LinkOpModel::CreateDirAll(pnpm)];
    let trees = tree_ops(pnpm, store, items);
    let plan = spec_link_plan(project, store, items, direct);
    let rest = deps_ops(pnpm, items, items.len() as int) + direct_ops(nm, pnpm, direct) + bin_ops(
        spec_join(nm, ".bin"@),
        pnpm,
        items,
        items.len() as int,
    );
    assert(plan =~= head + trees + rest);
    assert((head + trees + rest)[i + 2] == (head + trees)[i + 2]);
    assert((head + trees)[i + 2] == trees[i]);
}

/// Create pnpm-style node_modules layout (see the module's documentation), as the
/// operations that make it.
pub fn link_packages(project_dir: &str, resolution: &ResolutionResult, store_dir: &str) -> (ops: Vec<
    LinkOp,
>)
    ensures
        op_views(ops@) == spec_link_plan(
            project_dir@,
            store_dir@,
            resolution.packages.items(),
            resolution.direct_deps@.map_values(|p: PackageId| p@),
        ),
{
    let node_modules = path_join(project_dir, "node_modules");
    let pnpm_dir = path_join(node_modules.as_str(), ".pnpm");
    let mut ops: Vec<LinkOp> = Vec::new();
    push_op(&mut ops, LinkOp::RemoveDirAll(node_modules.view_clone()));
    push_op(&mut ops, LinkOp::CreateDirAll(pnpm_dir.view_clone()));
    push_tree_ops(&mut ops, pnpm_dir.as_str(), store_dir, &resolution.packages);
    push_deps_ops(&mut ops, pnpm_dir.as_str(), &resolution.packages);
    push_direct_ops(&mut ops, node_modules.as_str(), pnpm_dir.as_str(), &resolution.direct_deps);
    let bin_dir = path_join(node_modules.as_str(), ".bin");
    push_bin_ops(&mut ops, bin_dir.as_str(), pnpm_dir.as_str(), &resolution.packages);
    proof {
        let nm = spec_join(project_dir@, "node_modules"@);
        assert(op_views(ops@) =~= spec_link_plan(
            project_dir@,
            store_dir@,
            resolution.packages.items(),
            resolution.direct_deps@.map_values(|p: PackageId| p@),
        ));
    }
    ops
}

// ---------------------------------------------------------------------------
// Workspaces
// ---------------------------------------------------------------------------

/// Step 1 of a workspace: every package comes from the store.
pub open spec fn ws_tree_op(pnpm: Seq<char>, store: Seq<char>, p: ResolvedModel) -> LinkOpModel {
    LinkOpModel::LinkTree(
        spec_store_package_dir(store, p.id.0, p.id.1),
        spec_pkg_dir(pnpm, p.id),
        "Package "@ + spec_display(p.id) + " not found in store at "@ + spec_store_package_dir(
            store,
            p.id.0,
            p.id.1,
        ),
    )
}

pub open spec fn ws_tree_ops(pnpm: Seq<char>, store: Seq<char>, items: Seq<ResolvedModel>) -> Seq<
    LinkOpModel,
> {
    items.map_values(|p: ResolvedModel| ws_tree_op(pnpm, store, p))
}

/// The direct dependencies of an importer, if it has an entry.
pub open spec fn importer_ids(
    importers: Map<Seq<char>, Seq<PackageId>>,
    key: Seq<char>,
) -> Seq<(Seq<char>, Seq<char>)> {
    if importers.contains_key(key) {
        importers[key].map_values(|p: PackageId| p@)
    } else {
        Seq::empty()
    }
}

/// The first member whose package is named `name`.
pub open spec fn first_member(ms: Seq<crate::workspace::WorkspaceMember>, name: Seq<char>) -> Option<int> {
    if exists|i: int| 0 <= i < ms.len() && crate::workspace::member_named(ms[i], name) {
        Some(
            choose|i: int|
                0 <= i < ms.len() && crate::workspace::member_named(ms[i], name) && forall|j: int|
                    0 <= j < i ==> !crate::workspace::member_named(#[trigger] ms[j], name),
        )
    } else {
        None
    }
}

/// The symlinks from a member's node_modules to the members it depends on through
/// `workspace:` specifiers (in key order).
pub open spec fn ws_member_links(
    ms: Seq<crate::workspace::WorkspaceMember>,
    nm: Seq<char>,
    names: Seq<Seq<char>>,
    deps: Map<Seq<char>, Seq<char>>,
) -> Seq<LinkOpModel>
    decreases names.len(),
{
    if names.len() == 0 {
        Seq::empty()
    } else {
        let prev = ws_member_links(ms, nm, names.drop_last(), deps);
        let dn = names.last();
        if has_prefix(deps[dn], "workspace:"@) {
            match first_member(ms, dn) {
                None => prev,
                Some(k) => {
                    let link = spec_join(nm, dn);
                    let sym = LinkOpModel::Symlink(
                        spec_relative_target(ms[k].dir@, link),
                        link,
                        false,
                    );
                    if dn.len() > 0 && dn[0] == '@' && spec_parent(link) is Some {
                        prev + seq![LinkOpModel::CreateDirAll(spec_parent(link)->0), sym]
                    } else {
                        prev.push(sym)
                    }
                },
            }
        } else {
            prev
        }
    }
}

/// Step 4 for one member: a fresh node_modules, the links to its external direct
/// dependencies in `.pnpm`, and the links to the members it depends on.
pub open spec fn member_ops(
    ms: Seq<crate::workspace::WorkspaceMember>,
    pnpm: Seq<char>,
    importers: Map<Seq<char>, Seq<PackageId>>,
    m: crate::workspace::WorkspaceMember,
) -> Seq<LinkOpModel> {
    let nm = spec_join(m.dir@, "node_modules"@);
    let deps = crate::workspace::spec_all_deps(m.manifest);
    seq![LinkOpModel::RemoveDirAll(nm), LinkOpModel::CreateDirAll(nm)] + direct_ops(
        nm,
        pnpm,
        importer_ids(importers, m.relative_path@),
    ) + ws_member_links(ms, nm, ordered_keys(deps), deps)
}

pub open spec fn members_ops(
    ms: Seq<crate::workspace::WorkspaceMember>,
    pnpm: Seq<char>,
    importers: Map<Seq<char>, Seq<PackageId>>,
    n: int,
) -> Seq<LinkOpModel>
    decreases n,
{
    if n <= 0 {
        Seq::empty()
    } else {
        members_ops(ms, pnpm, importers, n - 1) + member_ops(ms, pnpm, importers, ms[n - 1])
    }
}

/// The layout of a workspace: a shared `.pnpm` at the root, the root importer's
/// direct dependencies at the root, per-member node_modules, and the binaries.
pub open spec fn spec_workspace_plan(
    root: Seq<char>,
    store: Seq<char>,
    items: Seq<ResolvedModel>,
    importers: Map<Seq<char>, Seq<PackageId>>,
    ms: Seq<crate::workspace::WorkspaceMember>,
) -> Seq<LinkOpModel> {
    let nm = spec_join(root, "node_modules"@);
    let pnpm = spec_join(nm, ".pnpm"@);
    seq![LinkOpModel::RemoveDirAll(nm), LinkOpModel::CreateDirAll(pnpm)] + ws_tree_ops(
        pnpm,
        store,
        items,
    ) + deps_ops(pnpm, items, items.len() as int) + direct_ops(
        nm,
        pnpm,
        importer_ids(importers, seq!['.']),
    ) + members_ops(ms, pnpm, importers, ms.len() as int) + bin_ops(
        spec_join(nm, ".bin"@),
        pnpm,
        items,
        items.len() as int,
    )
}

/// In the plan of `link_workspace_packages`, each resolved package (in order, after
/// removing the root `node_modules` and creating `.pnpm`) has its files linked into
/// its `.pnpm` directory from `<store>/packages/<name>/<version>`.
pub proof fn lemma_workspace_plan_sources(
    root: Seq<char>,
    store: Seq<char>,
    items: Seq<ResolvedModel>,
    importers: Map<Seq<char>, Seq<PackageId>>,
    ms: Seq<crate::workspace::WorkspaceMember>,
    i: int,
)
    requires
        0 <= i < items.len(),
    ensures
        ({
            let pnpm = spec_join(spec_join(root, "node_modules"@), ".pnpm"@);
            let plan = spec_workspace_plan(root, store, items, importers, ms);
            &&& plan[i + 2] matches LinkOpModel::LinkTree(src, dst, _)
            &&& dst == spec_join(spec_join(spec_join(pnpm, spec_pnpm_dir_name(items[i].id)), "node_modules"@), items[i].id.0)
            &&& src == spec_join(spec_join(spec_join(store, "packages"@), items[i].id.0), items[i].id.1)
        }),
{
    let nm = spec_join(root, "node_modules"@);
    let pnpm = spec_join(nm, ".pnpm"@);
    let head = seq![LinkOpModel::RemoveDirAll(nm), LinkOpModel::CreateDirAll(pnpm)];
    let trees = ws_tree_ops(pnpm, store, items);
    let plan = spec_workspace_plan(root, store, items, importers, ms);
    let rest = deps_ops(pnpm, items, items.len() as int) + direct_ops(
        nm,
        pnpm,
        importer_ids(importers, seq!['.']),
    ) + members_ops(ms, pnpm, importers, ms.len() as int) + bin_ops(
        spec_join(nm, ".bin"@),
        pnpm,
        items,
        items.len() as int,
    );
    assert(plan =~= head + trees + rest);
    assert((head + trees + rest)[i + 2] == (head + trees)[i + 2]);
    assert((head + trees)[i + 2] == trees[i]);
}

fn push_ws_tree_ops(ops: &mut Vec<LinkOp>, pnpm: &str, store: &str, packages: &PackageTable)
    ensures
        op_views(final(ops)@) == op_views(old(ops)@) + ws_tree_ops(pnpm@, store@, packages.items()),
{
    let n = packages.len();
    let mut i: usize = 0;
    while i < n
        invariant
            i <= n == packages.items().len(),
            op_views(ops@) == op_views(old(ops)@) + ws_tree_ops(
                pnpm@,
                store@,
                packages.items().take(i as int),
            ),
        decreases n - i,
    {
        let pkg = packages.get_index(i);
        let dst = pkg_dir(pnpm, &pkg.id);
        let shown = pkg.id.to_string();
        let src = store_package_dir(store, pkg.id.name.as_str(), pkg.id.version.as_str());
        let mut missing = concat("Package ", shown.as_str());
        push_str(&mut missing, " not found in store at ");
        push_str(&mut missing, src.as_str());
        push_op(ops, LinkOp::LinkTree { src, dst, missing });
        assert(packages.items().take(i + 1) =~= packages.items().take(i as int).push(pkg@));
        assert(ws_tree_ops(pnpm@, store@, packages.items().take(i + 1)) =~= ws_tree_ops(
            pnpm@,
            store@,
            packages.items().take(i as int),
        ).push(ws_tree_op(pnpm@, store@, pkg@)));
        i = i + 1;
    }
    assert(packages.items().take(i as int) =~= packages.items());
}

fn push_importer(
    ops: &mut Vec<LinkOp>,
    nm: &str,
    pnpm: &str,
    importers: &StrMap<Vec<PackageId>>,
    key: &str,
)
    ensures
        op_views(final(ops)@) == op_views(old(ops)@) + direct_ops(
            nm@,
            pnpm@,
            importer_ids(importers@, key@),
        ),
{
    match importers.get(key) {
        Some(ids) => push_direct_ops(ops, nm, pnpm, ids),
        None => {
            assert(importer_ids(importers@, key@) =~= Seq::<(Seq<char>, Seq<char>)>::empty());
            assert(op_views(ops@) =~= op_views(old(ops)@) + direct_ops(
                nm@,
                pnpm@,
                importer_ids(importers@, key@),
            ));
        },
    }
}

proof fn lemma_first_member(ms: Seq<crate::workspace::WorkspaceMember>, name: Seq<char>, i: int)
    requires
        0 <= i < ms.len(),
        crate::workspace::member_named(ms[i], name),
        forall|j: int| 0 <= j < i ==> !crate::workspace::member_named(#[trigger] ms[j], name),
    ensures
        first_member(ms, name) == Some(i),
{
    let k = choose|k: int|
        0 <= k < ms.len() && crate::workspace::member_named(ms[k], name) && forall|j: int|
            0 <= j < k ==> !crate::workspace::member_named(#[trigger] ms[j], name);
    if k < i {
        assert(!crate::workspace::member_named(ms[k], name));
    } else if i < k {
        assert(!crate::workspace::member_named(ms[i], name));
    }
}

fn push_member_links(ops: &mut Vec<LinkOp>, workspace: &Workspace, nm: &str, deps: &StrMap<String>)
    ensures
        op_views(final(ops)@) == op_views(old(ops)@) + ws_member_links(
            workspace.members@,
            nm@,
            ordered_keys(deps@),
            deps@,
        ),
{
    let n = deps.len();
    let mut j: usize = 0;
    while j < n
        invariant
            j <= n == ordered_keys(deps@).len(),
            deps.key_seq() == ordered_keys(deps@),
            op_views(ops@) == op_views(old(ops)@) + ws_member_links(
                workspace.members@,
                nm@,
                ordered_keys(deps@).take(j as int),
                deps@,
            ),
        decreases n - j,
    {
        let (dep_name, dep_spec) = deps.get_index(j);
        let ghost names = ordered_keys(deps@).take(j + 1);
        assert(names.drop_last() =~= ordered_keys(deps@).take(j as int));
        assert(names.last() == dep_name@);
        if crate::text::starts_with(dep_spec.as_str(), "workspace:") {
            match workspace.find_member(dep_name.as_str()) {
                Some(dep_member) => {
                    proof {
                        let i = choose|i: int|
                            0 <= i < workspace.members@.len() && workspace.members@[i]
                                == *dep_member && crate::workspace::member_named(
                                *dep_member,
                                dep_name@,
                            ) && forall|j: int|
                                0 <= j < i ==> !crate::workspace::member_named(
                                    #[trigger] workspace.members@[j],
                                    dep_name@,
                                );
                        lemma_first_member(workspace.members@, dep_name@, i);
                    }
                    let link = path_join(nm, dep_name.as_str());
                    let dv = chars_of(dep_name.as_str());
                    let ghost before = op_views(ops@);
                    if dv.len() > 0 && dv[0] == '@' {
                        if let Some(scope_dir) = parent_dir(link.as_str()) {
                            push_op(ops, LinkOp::CreateDirAll(scope_dir));
                        }
                    }
                    let rel = relative_target(dep_member.dir.as_str(), link.as_str());
                    push_op(ops, LinkOp::Symlink { target: rel, link, only_if_absent: false });
                    assert(op_views(ops@) =~= op_views(old(ops)@) + ws_member_links(
                        workspace.members@,
                        nm@,
                        names,
                        deps@,
                    ));
                },
                None => {
                    assert(first_member(workspace.members@, dep_name@) is None);
                },
            }
        }
        j = j + 1;
    }
    assert(ordered_keys(deps@).take(j as int) =~= ordered_keys(deps@));
}

fn push_member_ops(
    ops: &mut Vec<LinkOp>,
    workspace: &Workspace,
    pnpm: &str,
    importers: &StrMap<Vec<PackageId>>,
    member: &crate::workspace::WorkspaceMember,
)
    ensures
        op_views(final(ops)@) == op_views(old(ops)@) + member_ops(
            workspace.members@,
            pnpm@,
            importers@,
            *member,
        ),
{
    let member_nm = path_join(member.dir.as_str(), "node_modules");
    push_op(ops, LinkOp::RemoveDirAll(member_nm.view_clone()));
    push_op(ops, LinkOp::CreateDirAll(member_nm.view_clone()));
    push_importer(ops, member_nm.as_str(), pnpm, importers, member.relative_path.as_str());
    let all_deps = member.manifest.all_dependencies();
    push_member_links(ops, workspace, member_nm.as_str(), &all_deps);
    assert(op_views(ops@) =~= op_views(old(ops)@) + member_ops(
        workspace.members@,
        pnpm@,
        importers@,
        *member,
    ));
}

/// Link packages for a workspace: shared .pnpm at workspace root,
/// per-member node_modules with root symlinks, workspace packages symlinked directly.
pub fn link_workspace_packages(
    workspace: &Workspace,
    resolution: &WorkspaceResolutionResult,
    store_dir: &str,
) -> (ops: Vec<LinkOp>)
    ensures
        op_views(ops@) == spec_workspace_plan(
            workspace.root_dir@,
            store_dir@,
            resolution.packages.items(),
            resolution.importers@,
            workspace.members@,
        ),
{
    let root_node_modules = path_join(workspace.root_dir.as_str(), "node_modules");
    let pnpm_dir = path_join(root_node_modules.as_str(), ".pnpm");
    let mut ops: Vec<LinkOp> = Vec::new();
    push_op(&mut ops, LinkOp::RemoveDirAll(root_node_modules.view_clone()));
    push_op(&mut ops, LinkOp::CreateDirAll(pnpm_dir.view_clone()));
    push_ws_tree_ops(&mut ops, pnpm_dir.as_str(), store_dir, &resolution.packages);
    push_deps_ops(&mut ops, pnpm_dir.as_str(), &resolution.packages);
    let dot = to_owned(".");
    proof {
        reveal_strlit(".");
        assert(dot@ =~= seq!['.']);
    }
    push_importer(
        &mut ops,
        root_node_modules.as_str(),
        pnpm_dir.as_str(),
        &resolution.importers,
        dot.as_str(),
    );
    let ghost after_root = op_views(ops@);
    let mut i: usize = 0;
    while i < workspace.members.len()
        invariant
            i <= workspace.members@.len(),
            pnpm_dir@ == spec_join(spec_join(workspace.root_dir@, "node_modules"@), ".pnpm"@),
            op_views(ops@) == after_root + members_ops(
                workspace.members@,
                pnpm_dir@,
                resolution.importers@,
                i as int,
            ),
        decreases workspace.members@.len() - i,
    {
        let member = &workspace.members[i];
        let ghost before = op_views(ops@);
        push_member_ops(&mut ops, workspace, pnpm_dir.as_str(), &resolution.importers, member);
        proof {
            assert(workspace.members@[i as int] == *member);
            assert(op_views(ops@) =~= after_root + members_ops(
                workspace.members@,
                pnpm_dir@,
                resolution.importers@,
                i + 1,
            ));
        }
        i = i + 1;
    }
    let bin_dir = path_join(root_node_modules.as_str(), ".bin");
    push_bin_ops(&mut ops, bin_dir.as_str(), pnpm_dir.as_str(), &resolution.packages);
    assert(op_views(ops@) =~= spec_workspace_plan(
        workspace.root_dir@,
        store_dir@,
        resolution.packages.items(),
        resolution.importers@,
        workspace.members@,
    ));
    ops
}


// ---------------------------------------------------------------------------
// No phantom dependencies
// ---------------------------------------------------------------------------

/// Where a symlink of the layout may be: in the root `node_modules`, for a direct
/// dependency; in the `node_modules` of a resolved package, for a dependency that the
/// package declares; or in `node_modules/.bin`, for a command.
pub open spec fn allowed_link(
    nm: Seq<char>,
    pnpm: Seq<char>,
    items: Seq<ResolvedModel>,
    direct: Seq<(Seq<char>, Seq<char>)>,
    link: Seq<char>,
) -> bool {
    ||| exists|k: int| 0 <= k < direct.len() && link == spec_join(nm, #[trigger] direct[k].0)
    ||| exists|j: int, dn: Seq<char>|
        0 <= j < items.len() && #[trigger] items[j].dependencies.contains_key(dn) && link
            == spec_join(spec_pkg_modules(pnpm, items[j].id), dn)
    ||| exists|cmd: Seq<char>| link == #[trigger] spec_join(spec_join(nm, ".bin"@), cmd)
}

proof fn lemma_dep_link_ops_links(
    pnpm: Seq<char>,
    items: Seq<ResolvedModel>,
    p: ResolvedModel,
    names: Seq<Seq<char>>,
)
    ensures
        forall|i: int|
            0 <= i < dep_link_ops(pnpm, items, p, names).len() ==> (#[trigger] dep_link_ops(
                pnpm,
                items,
                p,
                names,
            )[i] matches LinkOpModel::Symlink(_t, l, _o) && exists|m: int|
                0 <= m < names.len() && l == spec_join(spec_pkg_modules(pnpm, p.id), names[m])),
    decreases names.len(),
{
    if names.len() > 0 {
        let prev = dep_link_ops(pnpm, items, p, names.drop_last());
        lemma_dep_link_ops_links(pnpm, items, p, names.drop_last());
        let ops = dep_link_ops(pnpm, items, p, names);
        assert forall|i: int| 0 <= i < ops.len() implies (#[trigger] ops[i] matches LinkOpModel::Symlink(
            _t,
            l,
            _o,
        ) && exists|m: int|
            0 <= m < names.len() && l == spec_join(spec_pkg_modules(pnpm, p.id), names[m])) by {
            if i < prev.len() {
                assert(ops[i] == prev[i]);
                let l = prev[i]->Symlink_1;
                let m = choose|m: int|
                    0 <= m < names.drop_last().len() && l == spec_join(
                        spec_pkg_modules(pnpm, p.id),
                        names.drop_last()[m],
                    );
                assert(names[m] == names.drop_last()[m]);
            } else {
                assert(ops[i]->Symlink_1 == spec_join(
                    spec_pkg_modules(pnpm, p.id),
                    names[names.len() - 1],
                ));
            }
        }
    }
}

proof fn lemma_deps_ops_links(pnpm: Seq<char>, items: Seq<ResolvedModel>, n: int)
    requires
        0 <= n <= items.len(),
        forall|j: int| 0 <= j < items.len() ==> (#[trigger] items[j]).dependencies.dom().finite(),
    ensures
        forall|i: int|
            0 <= i < deps_ops(pnpm, items, n).len() ==> (#[trigger] deps_ops(pnpm, items, n)[i] matches LinkOpModel::Symlink(
                _t,
                l,
                _o,
            ) && exists|j: int, dn: Seq<char>|
                0 <= j < n && items[j].dependencies.contains_key(dn) && l == spec_join(
                    spec_pkg_modules(pnpm, items[j].id),
                    dn,
                )),
    decreases n,
{
    if n > 0 {
        lemma_deps_ops_links(pnpm, items, n - 1);
        let p = items[n - 1];
        let names = ordered_keys(p.dependencies);
        lemma_dep_link_ops_links(pnpm, items, p, names);
        crate::strmap::lemma_ordered_keys(p.dependencies);
        let prev = deps_ops(pnpm, items, n - 1);
        let more = dep_link_ops(pnpm, items, p, names);
        let ops = deps_ops(pnpm, items, n);
        assert(ops == prev + more);
        assert forall|i: int| 0 <= i < ops.len() implies (#[trigger] ops[i] matches LinkOpModel::Symlink(
            _t,
            l,
            _o,
        ) && exists|j: int, dn: Seq<char>|
            0 <= j < n && items[j].dependencies.contains_key(dn) && l == spec_join(
                spec_pkg_modules(pnpm, items[j].id),
                dn,
            )) by {
            if i < prev.len() {
                assert(ops[i] == prev[i]);
            } else {
                assert(ops[i] == more[i - prev.len()]);
                let l = more[i - prev.len()]->Symlink_1;
                let m = choose|m: int|
                    0 <= m < names.len() && l == spec_join(spec_pkg_modules(pnpm, p.id), names[m]);
                assert(names.contains(names[m]));
                assert(items[n - 1].dependencies.contains_key(names[m]));
            }
        }
    }
}

proof fn lemma_direct_ops_links(nm: Seq<char>, pnpm: Seq<char>, ids: Seq<(Seq<char>, Seq<char>)>)
    ensures
        forall|i: int|
            0 <= i < direct_ops(nm, pnpm, ids).len() ==> (#[trigger] direct_ops(nm, pnpm, ids)[i] matches LinkOpModel::Symlink(
                _t,
                l,
                _o,
            ) ==> exists|k: int| 0 <= k < ids.len() && l == spec_join(nm, ids[k].0)),
    decreases ids.len(),
{
    if ids.len() > 0 {
        lemma_direct_ops_links(nm, pnpm, ids.drop_last());
        let prev = direct_ops(nm, pnpm, ids.drop_last());
        let more = direct_link_ops(nm, pnpm, ids.last());
        let ops = direct_ops(nm, pnpm, ids);
        assert(ops == prev + more);
        assert forall|i: int| 0 <= i < ops.len() implies (#[trigger] ops[i] matches LinkOpModel::Symlink(
            _t,
            l,
            _o,
        ) ==> exists|k: int| 0 <= k < ids.len() && l == spec_join(nm, ids[k].0)) by {
            if i < prev.len() {
                assert(ops[i] == prev[i]);
                if let LinkOpModel::Symlink(_t, l, _o) = prev[i] {
                    let k = choose|k: int|
                        0 <= k < ids.drop_last().len() && l == spec_join(nm, ids.drop_last()[k].0);
                    assert(ids[k] == ids.drop_last()[k]);
                }
            } else {
                assert(ops[i] == more[i - prev.len()]);
                if let LinkOpModel::Symlink(_t, l, _o) = more[i - prev.len()] {
                    assert(l == spec_join(nm, ids[ids.len() - 1].0));
                }
            }
        }
    }
}

proof fn lemma_bin_link_ops_links(
    bin_dir: Seq<char>,
    pnpm: Seq<char>,
    id: (Seq<char>, Seq<char>),
    entries: Seq<(Seq<char>, Seq<char>)>,
)
    ensures
        forall|i: int|
            0 <= i < bin_link_ops(bin_dir, pnpm, id, entries).len() ==> (#[trigger] bin_link_ops(
                bin_dir,
                pnpm,
                id,
                entries,
            )[i] matches LinkOpModel::Symlink(_t, l, _o) ==> exists|cmd: Seq<char>|
                l == spec_join(bin_dir, cmd)),
    decreases entries.len(),
{
    if entries.len() > 0 {
        lemma_bin_link_ops_links(bin_dir, pnpm, id, entries.drop_last());
        let prev = bin_link_ops(bin_dir, pnpm, id, entries.drop_last());
        let (bn, bp) = entries.last();
        let target = spec_join(spec_pkg_dir(pnpm, id), bp);
        let link = spec_join(bin_dir, bn);
        let more = seq![
            LinkOpModel::Symlink(spec_relative_target(target, link), link, false),
            LinkOpModel::MakeExecutable(target),
        ];
        let ops = bin_link_ops(bin_dir, pnpm, id, entries);
        assert(ops == prev + more);
        assert forall|i: int| 0 <= i < ops.len() implies (#[trigger] ops[i] matches LinkOpModel::Symlink(
            _t,
            l,
            _o,
        ) ==> exists|cmd: Seq<char>| l == spec_join(bin_dir, cmd)) by {
            if i < prev.len() {
                assert(ops[i] == prev[i]);
            } else {
                assert(ops[i] == more[i - prev.len()]);
            }
        }
    }
}

proof fn lemma_bin_ops_links(bin_dir: Seq<char>, pnpm: Seq<char>, items: Seq<ResolvedModel>, n: int)
    requires
        0 <= n <= items.len(),
    ensures
        forall|i: int|
            0 <= i < bin_ops(bin_dir, pnpm, items, n).len() ==> (#[trigger] bin_ops(
                bin_dir,
                pnpm,
                items,
                n,
            )[i] matches LinkOpModel::Symlink(_t, l, _o) ==> exists|cmd: Seq<char>|
                l == spec_join(bin_dir, cmd)),
    decreases n,
{
    if n > 0 {
        lemma_bin_ops_links(bin_dir, pnpm, items, n - 1);
        let p = items[n - 1];
        if p.bin is Some {
            let prev = bin_ops(bin_dir, pnpm, items, n - 1);
            let made = if any_bins(items, n - 1) {
                Seq::empty()
            } else {
                seq![LinkOpModel::CreateDirAll(bin_dir)]
            };
            let more = bin_link_ops(bin_dir, pnpm, p.id, bin_entries(p));
            lemma_bin_link_ops_links(bin_dir, pnpm, p.id, bin_entries(p));
            let ops = bin_ops(bin_dir, pnpm, items, n);
            assert(ops == prev + made + more);
            assert forall|i: int| 0 <= i < ops.len() implies (#[trigger] ops[i] matches LinkOpModel::Symlink(
                _t,
                l,
                _o,
            ) ==> exists|cmd: Seq<char>| l == spec_join(bin_dir, cmd)) by {
                if i < prev.len() {
                    assert(ops[i] == prev[i]);
                } else if i < prev.len() + made.len() {
                    assert(ops[i] == made[i - prev.len()]);
                } else {
                    assert(ops[i] == more[i - prev.len() - made.len()]);
                }
            }
        }
    }
}

/// No phantom dependencies: every symlink that `link_packages` makes is a direct
/// dependency in the root `node_modules`, a dependency that a resolved package
/// declares in that package's own `node_modules`, or a command in
/// `node_modules/.bin`. The root `node_modules` thus holds links to the direct
/// dependencies only.
pub proof fn lemma_no_phantom_dependencies(
    project: Seq<char>,
    store: Seq<char>,
    items: Seq<ResolvedModel>,
    direct: Seq<(Seq<char>, Seq<char>)>,
)
    requires
        forall|j: int| 0 <= j < items.len() ==> (#[trigger] items[j]).dependencies.dom().finite(),
    ensures
        forall|i: int|
            0 <= i < spec_link_plan(project, store, items, direct).len() ==> (#[trigger] spec_link_plan(
                project,
                store,
                items,
                direct,
            )[i] matches LinkOpModel::Symlink(_t, l, _o) ==> allowed_link(
                spec_join(project, "node_modules"@),
                spec_join(spec_join(project, "node_modules"@), ".pnpm"@),
                items,
                direct,
                l,
            )),
{
    let nm = spec_join(project, "node_modules"@);
    let pnpm = spec_join(nm, ".pnpm"@);
    let bin_dir = spec_join(nm, ".bin"@);
    let head = seq![LinkOpModel::RemoveDirAll(nm), LinkOpModel::CreateDirAll(pnpm)];
    let trees = tree_ops(pnpm, store, items);
    let deps = deps_ops(pnpm, items, items.len() as int);
    let directs = direct_ops(nm, pnpm, direct);
    let bins = bin_ops(bin_dir, pnpm, items, items.len() as int);
    let plan = spec_link_plan(project, store, items, direct);
    assert(plan == head + trees + deps + directs + bins);
    lemma_deps_ops_links(pnpm, items, items.len() as int);
    lemma_direct_ops_links(nm, pnpm, direct);
    lemma_bin_ops_links(bin_dir, pnpm, items, items.len() as int);
    assert forall|i: int| 0 <= i < plan.len() implies (#[trigger] plan[i] matches LinkOpModel::Symlink(
        _t,
        l,
        _o,
    ) ==> allowed_link(nm, pnpm, items, direct, l)) by {
        let a = head.len();
        let b = a + trees.len();
        let c = b + deps.len();
        let d = c + directs.len();
        if i < a {
            assert(plan[i] == head[i]);
        } else if i < b {
            assert(plan[i] == trees[i - a]);
        } else if i < c {
            assert(plan[i] == deps[i - b]);
            let l = deps[i - b]->Symlink_1;
            let (j, dn) = choose|j: int, dn: Seq<char>|
                0 <= j < items.len() && items[j].dependencies.contains_key(dn) && l == spec_join(
                    spec_pkg_modules(pnpm, items[j].id),
                    dn,
                );
            assert(items[j].dependencies.contains_key(dn));
        } else if i < d {
            assert(plan[i] == directs[i - c]);
            if let LinkOpModel::Symlink(_t, l, _o) = directs[i - c] {
                let k = choose|k: int| 0 <= k < direct.len() && l == spec_join(nm, direct[k].0);
                assert(l == spec_join(nm, direct[k].0));
            }
        } else {
            assert(plan[i] == bins[i - d]);
            if let LinkOpModel::Symlink(_t, l, _o) = bins[i - d] {
                let cmd = choose|cmd: Seq<char>| l == spec_join(bin_dir, cmd);
                assert(l == spec_join(spec_join(nm, ".bin"@), cmd));
            }
        }
    }
}


/// A link that a member's `node_modules` may hold: one of the member's resolved
/// external dependencies, or a package it declares (a `workspace:` sibling).
pub open spec fn member_may_link(
    importers: Map<Seq<char>, Seq<PackageId>>,
    m: crate::workspace::WorkspaceMember,
    dn: Seq<char>,
) -> bool {
    ||| exists|k: int|
        0 <= k < importer_ids(importers, m.relative_path@).len() && #[trigger] importer_ids(
            importers,
            m.relative_path@,
        )[k].0 == dn
    ||| crate::workspace::spec_all_deps(m.manifest).contains_key(dn)
}

/// Where a symlink of a workspace layout may be: where [`allowed_link`] allows it for
/// the root importer, or in a member's `node_modules` for what that member may link.
pub open spec fn allowed_ws_link(
    nm: Seq<char>,
    pnpm: Seq<char>,
    items: Seq<ResolvedModel>,
    importers: Map<Seq<char>, Seq<PackageId>>,
    ms: Seq<crate::workspace::WorkspaceMember>,
    link: Seq<char>,
) -> bool {
    ||| allowed_link(nm, pnpm, items, importer_ids(importers, seq!['.']), link)
    ||| exists|m: int, dn: Seq<char>|
        0 <= m < ms.len() && #[trigger] member_may_link(importers, ms[m], dn) && link == spec_join(
            spec_join(ms[m].dir@, "node_modules"@),
            dn,
        )
}

proof fn lemma_ws_member_links_links(
    ms: Seq<crate::workspace::WorkspaceMember>,
    nm: Seq<char>,
    names: Seq<Seq<char>>,
    deps: Map<Seq<char>, Seq<char>>,
)
    ensures
        forall|i: int|
            0 <= i < ws_member_links(ms, nm, names, deps).len() ==> (#[trigger] ws_member_links(
                ms,
                nm,
                names,
                deps,
            )[i] matches LinkOpModel::Symlink(_t, l, _o) ==> exists|j: int|
                0 <= j < names.len() && l == spec_join(nm, names[j])),
    decreases names.len(),
{
    if names.len() > 0 {
        let short = names.drop_last();
        lemma_ws_member_links_links(ms, nm, short, deps);
        let prev = ws_member_links(ms, nm, short, deps);
        let ops = ws_member_links(ms, nm, names, deps);
        let dn = names.last();
        let link = spec_join(nm, dn);
        let last = names.len() - 1;
        assert(names[last] == dn);
        let more: Seq<LinkOpModel> = if has_prefix(deps[dn], "workspace:"@) && first_member(
            ms,
            dn,
        ) is Some {
            let k = first_member(ms, dn)->0;
            let sym = LinkOpModel::Symlink(spec_relative_target(ms[k].dir@, link), link, false);
            if dn.len() > 0 && dn[0] == '@' && spec_parent(link) is Some {
                seq![LinkOpModel::CreateDirAll(spec_parent(link)->0), sym]
            } else {
                seq![sym]
            }
        } else {
            Seq::empty()
        };
        assert(ops =~= prev + more);
        assert forall|i: int| 0 <= i < ops.len() implies (#[trigger] ops[i] matches LinkOpModel::Symlink(
            _t,
            l,
            _o,
        ) ==> exists|j: int| 0 <= j < names.len() && l == spec_join(nm, names[j])) by {
            if i < prev.len() {
                assert(ops[i] == prev[i]);
                if let LinkOpModel::Symlink(_t, l, _o) = prev[i] {
                    let j = choose|j: int| 0 <= j < short.len() && l == spec_join(nm, short[j]);
                    assert(names[j] == short[j]);
                }
            } else {
                assert(ops[i] == more[i - prev.len()]);
                if let LinkOpModel::Symlink(_t, l, _o) = more[i - prev.len()] {
                    assert(l == link);
                    assert(l == spec_join(nm, names[last]));
                }
            }
        }
    }
}

proof fn lemma_members_ops_links(
    ms: Seq<crate::workspace::WorkspaceMember>,
    pnpm: Seq<char>,
    importers: Map<Seq<char>, Seq<PackageId>>,
    n: int,
)
    requires
        0 <= n <= ms.len(),
        forall|m: int|
            0 <= m < ms.len() ==> crate::workspace::spec_all_deps(
                (#[trigger] ms[m]).manifest,
            ).dom().finite(),
    ensures
        forall|i: int|
            0 <= i < members_ops(ms, pnpm, importers, n).len() ==> (#[trigger] members_ops(
                ms,
                pnpm,
                importers,
                n,
            )[i] matches LinkOpModel::Symlink(_t, l, _o) ==> exists|m: int, dn: Seq<char>|
                0 <= m < n && member_may_link(importers, ms[m], dn) && l == spec_join(
                    spec_join(ms[m].dir@, "node_modules"@),
                    dn,
                )),
    decreases n,
{
    if n > 0 {
        lemma_members_ops_links(ms, pnpm, importers, n - 1);
        let mem = ms[n - 1];
        let nm = spec_join(mem.dir@, "node_modules"@);
        let deps = crate::workspace::spec_all_deps(mem.manifest);
        let ids = importer_ids(importers, mem.relative_path@);
        let head = seq![LinkOpModel::RemoveDirAll(nm), LinkOpModel::CreateDirAll(nm)];
        let directs = direct_ops(nm, pnpm, ids);
        let names = ordered_keys(deps);
        let links = ws_member_links(ms, nm, names, deps);
        lemma_direct_ops_links(nm, pnpm, ids);
        lemma_ws_member_links_links(ms, nm, names, deps);
        crate::strmap::lemma_ordered_keys(deps);
        let prev = members_ops(ms, pnpm, importers, n - 1);
        let one = member_ops(ms, pnpm, importers, mem);
        assert(one == head + directs + links);
        let ops = members_ops(ms, pnpm, importers, n);
        assert(ops == prev + one);
        assert forall|i: int| 0 <= i < ops.len() implies (#[trigger] ops[i] matches LinkOpModel::Symlink(
            _t,
            l,
            _o,
        ) ==> exists|m: int, dn: Seq<char>|
            0 <= m < n && member_may_link(importers, ms[m], dn) && l == spec_join(
                spec_join(ms[m].dir@, "node_modules"@),
                dn,
            )) by {
            if i < prev.len() {
                assert(ops[i] == prev[i]);
            } else {
                let o = i - prev.len();
                assert(ops[i] == one[o]);
                if o < head.len() {
                    assert(one[o] == head[o]);
                } else if o < head.len() + directs.len() {
                    assert(one[o] == directs[o - head.len()]);
                    if let LinkOpModel::Symlink(_t, l, _o) = directs[o - head.len()] {
                        let k = choose|k: int| 0 <= k < ids.len() && l == spec_join(nm, ids[k].0);
                        assert(member_may_link(importers, mem, ids[k].0));
                    }
                } else {
                    assert(one[o] == links[o - head.len() - directs.len()]);
                    if let LinkOpModel::Symlink(_t, l, _o) = links[o - head.len() - directs.len()] {
                        let j = choose|j: int| 0 <= j < names.len() && l == spec_join(nm, names[j]);
                        assert(names.contains(names[j]));
                        assert(member_may_link(importers, mem, names[j]));
                    }
                }
            }
        }
    }
}

/// No phantom dependencies in a workspace: every symlink that
/// `link_workspace_packages` makes is a direct dependency of the root importer in the
/// root `node_modules`, a dependency that a resolved package declares in that
/// package's own `node_modules`, a command in `node_modules/.bin`, or, in a member's
/// `node_modules`, one of the member's resolved dependencies or a package it declares.
pub proof fn lemma_no_phantom_dependencies_in_workspace(
    root: Seq<char>,
    store: Seq<char>,
    items: Seq<ResolvedModel>,
    importers: Map<Seq<char>, Seq<PackageId>>,
    ms: Seq<crate::workspace::WorkspaceMember>,
)
    requires
        forall|j: int| 0 <= j < items.len() ==> (#[trigger] items[j]).dependencies.dom().finite(),
        forall|m: int|
            0 <= m < ms.len() ==> crate::workspace::spec_all_deps(
                (#[trigger] ms[m]).manifest,
            ).dom().finite(),
    ensures
        forall|i: int|
            0 <= i < spec_workspace_plan(root, store, items, importers, ms).len() ==> (
            #[trigger] spec_workspace_plan(root, store, items, importers, ms)[i] matches LinkOpModel::Symlink(
                _t,
                l,
                _o,
            ) ==> allowed_ws_link(
                spec_join(root, "node_modules"@),
                spec_join(spec_join(root, "node_modules"@), ".pnpm"@),
                items,
                importers,
                ms,
                l,
            )),
{
    let nm = spec_join(root, "node_modules"@);
    let pnpm = spec_join(nm, ".pnpm"@);
    let bin_dir = spec_join(nm, ".bin"@);
    let direct = importer_ids(importers, seq!['.']);
    let head = seq![LinkOpModel::RemoveDirAll(nm), LinkOpModel::CreateDirAll(pnpm)];
    let trees = ws_tree_ops(pnpm, store, items);
    let deps = deps_ops(pnpm, items, items.len() as int);
    let directs = direct_ops(nm, pnpm, direct);
    let members = members_ops(ms, pnpm, importers, ms.len() as int);
    let bins = bin_ops(bin_dir, pnpm, items, items.len() as int);
    let plan = spec_workspace_plan(root, store, items, importers, ms);
    assert(plan == head + trees + deps + directs + members + bins);
    lemma_deps_ops_links(pnpm, items, items.len() as int);
    lemma_direct_ops_links(nm, pnpm, direct);
    lemma_members_ops_links(ms, pnpm, importers, ms.len() as int);
    lemma_bin_ops_links(bin_dir, pnpm, items, items.len() as int);
    assert forall|i: int| 0 <= i < plan.len() implies (#[trigger] plan[i] matches LinkOpModel::Symlink(
        _t,
        l,
        _o,
    ) ==> allowed_ws_link(nm, pnpm, items, importers, ms, l)) by {
        let a = head.len();
        let b = a + trees.len();
        let c = b + deps.len();
        let d = c + directs.len();
        let e = d + members.len();
        if i < a {
            assert(plan[i] == head[i]);
        } else if i < b {
            assert(plan[i] == trees[i - a]);
        } else if i < c {
            assert(plan[i] == deps[i - b]);
            let l = deps[i - b]->Symlink_1;
            let (j, dn) = choose|j: int, dn: Seq<char>|
                0 <= j < items.len() && items[j].dependencies.contains_key(dn) && l == spec_join(
                    spec_pkg_modules(pnpm, items[j].id),
                    dn,
                );
            assert(items[j].dependencies.contains_key(dn));
            assert(allowed_link(nm, pnpm, items, direct, l));
        } else if i < d {
            assert(plan[i] == directs[i - c]);
            if let LinkOpModel::Symlink(_t, l, _o) = directs[i - c] {
                let k = choose|k: int| 0 <= k < direct.len() && l == spec_join(nm, direct[k].0);
                assert(l == spec_join(nm, direct[k].0));
                assert(allowed_link(nm, pnpm, items, direct, l));
            }
        } else if i < e {
            assert(plan[i] == members[i - d]);
            if let LinkOpModel::Symlink(_t, l, _o) = members[i - d] {
                let (m, dn) = choose|m: int, dn: Seq<char>|
                    0 <= m < ms.len() && member_may_link(importers, ms[m], dn) && l == spec_join(
                        spec_join(ms[m].dir@, "node_modules"@),
                        dn,
                    );
                assert(member_may_link(importers, ms[m], dn));
            }
        } else {
            assert(plan[i] == bins[i - e]);
            if let LinkOpModel::Symlink(_t, l, _o) = bins[i - e] {
                let cmd = choose|cmd: Seq<char>| l == spec_join(bin_dir, cmd);
                assert(l == spec_join(spec_join(nm, ".bin"@), cmd));
                assert(allowed_link(nm, pnpm, items, direct, l));
            }
        }
    }
}

} // verus!
