//! The npm registry: metadata documents, request URLs and headers, and the decisions
//! taken on responses.
use vstd::prelude::*;

use crate::dependency::{spec_display, PackageId, PeerDepMeta, ResolvedPackage};
use crate::error::AlchemyError;
use crate::integrity::{compute_integrity, spec_integrity_sha512, spec_verify_integrity, verify_integrity};
use crate::manifest::{clone_opt, BinField, Manifest};
use crate::paths::{path_join, spec_join};
use crate::resolver::VersionInfo;
use crate::strmap::{ordered_keys, StrMap, ViewClone};
use crate::text::{
    char_vec, chars_of, concat, find, find_exec, has_prefix, push_str, replace_char,
    replace_char_exec, starts_with, string_of_range, to_owned,
    trim_end_char, trim_end_char_len,
};

verus! {

/// Abbreviated registry metadata (npm install-v1 format)
pub struct PackageMetadata {
    pub name: String,
    pub versions: StrMap<VersionMetadata>,
    pub dist_tags: StrMap<String>,
}

pub struct VersionMetadata {
    pub version: String,
    pub dependencies: StrMap<String>,
    pub dev_dependencies: StrMap<String>,
    pub peer_dependencies: StrMap<String>,
    pub optional_dependencies: StrMap<String>,
    pub peer_dependencies_meta: StrMap<PeerDepMetaRaw>,
    pub dist: DistInfo,
    pub bin: Option<BinField>,
    pub os: Option<Vec<String>>,
    pub cpu: Option<Vec<String>>,
    pub engines: Option<StrMap<String>>,
}

pub struct PeerDepMetaRaw {
    pub optional: bool,
}

pub struct DistInfo {
    pub tarball: String,
    pub integrity: Option<String>,
    pub shasum: Option<String>,
}

impl View for PeerDepMetaRaw {
    type V = bool;

    open spec fn view(&self) -> bool {
        self.optional
    }
}

impl View for VersionMetadata {
    type V = Seq<char>;

    /// A version's metadata is known by its version text.
    open spec fn view(&self) -> Seq<char> {
        self.version@
    }
}

// ---------------------------------------------------------------------------
// Versions for the resolver
// ---------------------------------------------------------------------------

fn peer_meta_of(m: &StrMap<PeerDepMetaRaw>) -> (r: StrMap<PeerDepMeta>)
    ensures
        r@ == m@,
{
    let n = m.len();
    let mut r: StrMap<PeerDepMeta> = StrMap::new();
    let mut i: usize = 0;
    while i < n
        invariant
            i <= n == m.key_seq().len(),
            forall|j: int|
                0 <= j < i ==> r@.contains_key(#[trigger] m.key_seq()[j]) && r@[m.key_seq()[j]]
                    == m@[m.key_seq()[j]],
            forall|k: Seq<char>| #[trigger]
                r@.contains_key(k) ==> m@.contains_key(k) && r@[k] == m@[k],
            forall|j: int|
                0 <= j < m.key_seq().len() ==> #[trigger] m@.contains_key(m.key_seq()[j]),
        decreases n - i,
    {
        let (k, v) = m.get_index(i);
        r.insert(k.view_clone(), PeerDepMeta { optional: v.optional });
        i = i + 1;
    }
    proof {
        assert forall|k: Seq<char>| #[trigger] m@.contains_key(k) implies r@.contains_key(k) by {
            let j = choose|j: int| 0 <= j < m.entry_seq().len() && m.entry_seq()[j].0@ == k;
            assert(m.key_seq()[j] == k);
        }
        assert(r@ =~= m@);
    }
    r
}

/// The versions of a package, in version-text order, as the resolver takes them.
pub fn versions_from_metadata(metadata: &PackageMetadata) -> (r: Vec<VersionInfo>)
    ensures
        r@.len() == ordered_keys(metadata.versions@).len(),
        forall|i: int|
            0 <= i < r@.len() ==> {
                let key = #[trigger] ordered_keys(metadata.versions@)[i];
                let meta = metadata.versions.entry_seq()[i].1;
                &&& r@[i].version@ == key
                &&& metadata.versions@.contains_key(key)
                &&& r@[i].dependencies@ == meta.dependencies@
                &&& r@[i].peer_dependencies@ == meta.peer_dependencies@
                &&& r@[i].optional_dependencies@ == meta.optional_dependencies@
                &&& r@[i].peer_dependencies_meta@ == meta.peer_dependencies_meta@
                &&& r@[i].tarball_url@ == meta.dist.tarball@
                &&& crate::dependency::opt_seq(r@[i].integrity) == crate::dependency::opt_seq(
                    meta.dist.integrity,
                )
                &&& crate::dependency::opt_bin(r@[i].bin) == crate::dependency::opt_bin(meta.bin)
                &&& crate::dependency::opt_list(r@[i].os) == crate::dependency::opt_list(meta.os)
                &&& crate::dependency::opt_list(r@[i].cpu) == crate::dependency::opt_list(meta.cpu)
                &&& crate::dependency::opt_map(r@[i].engines) == crate::dependency::opt_map(
                    meta.engines,
                )
            },
{
    let n = metadata.versions.len();
    let mut r: Vec<VersionInfo> = Vec::new();
    let mut i: usize = 0;
    while i < n
        invariant
            i <= n == metadata.versions.key_seq().len(),
            metadata.versions.key_seq() == ordered_keys(metadata.versions@),
            r@.len() == i,
            forall|j: int|
                0 <= j < i ==> {
                    let key = #[trigger] ordered_keys(metadata.versions@)[j];
                    let meta = metadata.versions.entry_seq()[j].1;
                    &&& r@[j].version@ == key
                    &&& metadata.versions@.contains_key(key)
                    &&& r@[j].dependencies@ == meta.dependencies@
                    &&& r@[j].peer_dependencies@ == meta.peer_dependencies@
                    &&& r@[j].optional_dependencies@ == meta.optional_dependencies@
                    &&& r@[j].peer_dependencies_meta@ == meta.peer_dependencies_meta@
                    &&& r@[j].tarball_url@ == meta.dist.tarball@
                    &&& crate::dependency::opt_seq(r@[j].integrity) == crate::dependency::opt_seq(
                        meta.dist.integrity,
                    )
                    &&& crate::dependency::opt_bin(r@[j].bin) == crate::dependency::opt_bin(meta.bin)
                    &&& crate::dependency::opt_list(r@[j].os) == crate::dependency::opt_list(meta.os)
                    &&& crate::dependency::opt_list(r@[j].cpu) == crate::dependency::opt_list(meta.cpu)
                    &&& crate::dependency::opt_map(r@[j].engines) == crate::dependency::opt_map(
                        meta.engines,
                    )
                },
        decreases n - i,
    {
        let (version, meta) = metadata.versions.get_index(i);
        let bin = clone_opt(&meta.bin);
        let engines = clone_opt(&meta.engines);
        assert(crate::dependency::opt_bin(bin) == crate::dependency::opt_bin(meta.bin));
        assert(crate::dependency::opt_map(engines) == crate::dependency::opt_map(meta.engines));
        r.push(
            VersionInfo {
                version: version.view_clone(),
                dependencies: meta.dependencies.view_clone(),
                peer_dependencies: meta.peer_dependencies.view_clone(),
                optional_dependencies: meta.optional_dependencies.view_clone(),
                peer_dependencies_meta: peer_meta_of(&meta.peer_dependencies_meta),
                tarball_url: meta.dist.tarball.view_clone(),
                integrity: clone_opt(&meta.dist.integrity),
                bin,
                os: crate::dependency::clone_opt_strings(&meta.os),
                cpu: crate::dependency::clone_opt_strings(&meta.cpu),
                engines,
            },
        );
        i = i + 1;
    }
    r
}

// ---------------------------------------------------------------------------
// Requests
// ---------------------------------------------------------------------------

/// A scoped name's first '/' written as "%2f"; other names unchanged.
pub open spec fn spec_encode_name(name: Seq<char>) -> Seq<char> {
    if name.len() > 0 && name[0] == '@' {
        match find(name, seq!['/']) {
            Some(i) => name.take(i) + "%2f"@ + name.skip(i + 1),
            None => name,
        }
    } else {
        name
    }
}

/// The URL of a package's metadata in a registry.
pub open spec fn spec_metadata_url(registry: Seq<char>, name: Seq<char>) -> Seq<char> {
    trim_end_char(registry, '/') + "/"@ + spec_encode_name(name)
}

/// Encode scoped package names: @scope/name → @scope%2fname
pub fn encode_name(name: &str) -> (r: String)
    ensures
        r@ == spec_encode_name(name@),
{
    let v = chars_of(name);
    if v.len() > 0 && v[0] == '@' {
        let slash = char_vec('/');
        match find_exec(&v, &slash) {
            Some(i) => {
                proof {
                    crate::text::lemma_find_from_props(v@, slash@, 0);
                }
                let mut r = string_of_range(&v, 0, i);
                push_str(&mut r, "%2f");
                let rest = string_of_range(&v, i + 1, v.len());
                push_str(&mut r, rest.as_str());
                assert(r@ =~= spec_encode_name(name@));
                r
            },
            None => to_owned(name),
        }
    } else {
        to_owned(name)
    }
}

/// The URL of a package's metadata in a registry.
pub fn metadata_url(registry: &str, name: &str) -> (r: String)
    ensures
        r@ == spec_metadata_url(registry@, name@),
{
    let rv = chars_of(registry);
    let n = trim_end_char_len(&rv, '/');
    let mut url = string_of_range(&rv, 0, n);
    push_str(&mut url, "/");
    let encoded = encode_name(name);
    push_str(&mut url, encoded.as_str());
    url
}

/// The value of the `Authorization` header for a token: a "Basic " token as it is,
/// any other as a bearer token.
pub open spec fn spec_auth_header(token: Seq<char>) -> Seq<char> {
    if has_prefix(token, "Basic "@) {
        token
    } else {
        "Bearer "@ + token
    }
}

pub fn auth_header(token: &str) -> (r: String)
    ensures
        r@ == spec_auth_header(token@),
{
    if starts_with(token, "Basic ") {
        to_owned(token)
    } else {
        concat("Bearer ", token)
    }
}

/// The first registry (in key order) whose URL the tarball URL starts with.
pub open spec fn first_registry_prefix(
    keys: Seq<Seq<char>>,
    url: Seq<char>,
    i: int,
) -> Option<int>
    decreases keys.len() - i,
{
    if i < 0 || i >= keys.len() {
        None
    } else if has_prefix(url, keys[i]) {
        Some(i)
    } else {
        first_registry_prefix(keys, url, i + 1)
    }
}

/// The `Authorization` header for downloading a tarball: that of the token of the
/// first registry whose URL prefixes the tarball's.
pub fn tarball_auth(auth_tokens: &StrMap<String>, tarball_url: &str) -> (r: Option<String>)
    ensures
        match first_registry_prefix(ordered_keys(auth_tokens@), tarball_url@, 0) {
            Some(i) => r matches Some(h) && h@ == spec_auth_header(
                auth_tokens@[ordered_keys(auth_tokens@)[i]],
            ),
            None => r is None,
        },
{
    let n = auth_tokens.len();
    let mut i: usize = 0;
    while i < n
        invariant
            i <= n == ordered_keys(auth_tokens@).len(),
            auth_tokens.key_seq() == ordered_keys(auth_tokens@),
            first_registry_prefix(ordered_keys(auth_tokens@), tarball_url@, 0)
                == first_registry_prefix(ordered_keys(auth_tokens@), tarball_url@, i as int),
        decreases n - i,
    {
        let (registry_url, token) = auth_tokens.get_index(i);
        if starts_with(tarball_url, registry_url.as_str()) {
            return Some(auth_header(token.as_str()));
        }
        i = i + 1;
    }
    None
}

// ---------------------------------------------------------------------------
// Responses
// ---------------------------------------------------------------------------

/// Attempts made for a request before giving up.
pub const MAX_RETRIES: u32 = 3;

/// What to do after a response (or a failure to get one) for a metadata request.
pub enum MetadataStep {
    /// Wait and send the request again.
    Retry,
    /// Read the metadata from the response body.
    Parse,
    /// Give up with this error.
    Fail(AlchemyError),
}

/// The outcome of one attempt to get a response.
pub enum Response {
    /// The request could not be sent or answered; the error's text.
    SendError(String),
    /// An HTTP status: its code and its text (as in "503 Service Unavailable").
    Status(u16, String),
}

/// The kind of decision taken after an attempt.
pub enum StepKind {
    Retry,
    Parse,
    NotFound,
    Network,
}

/// The decision taken after attempt `attempt` (from 0) of a metadata request.
pub open spec fn spec_metadata_step(attempt: u32, resp: Response) -> StepKind {
    match resp {
        Response::SendError(_) => if attempt + 1 < MAX_RETRIES {
            StepKind::Retry
        } else {
            StepKind::Network
        },
        Response::Status(code, _) => if code == 404 {
            StepKind::NotFound
        } else if 500 <= code < 600 && attempt + 1 < MAX_RETRIES {
            StepKind::Retry
        } else if !(200 <= code < 300) {
            StepKind::Network
        } else {
            StepKind::Parse
        },
    }
}

/// The text of the error a failed metadata request gives.
pub open spec fn metadata_error_text(name: Seq<char>, resp: Response) -> Seq<char> {
    match resp {
        Response::SendError(e) => name + ": "@ + e@,
        Response::Status(code, text) => if code == 404 {
            name
        } else {
            name + ": HTTP "@ + text@
        },
    }
}

/// Decide what follows attempt `attempt` (from 0) of fetching the metadata of `name`:
/// a 404 means the package does not exist; a server error or a failure to send is
/// tried again while attempts remain; another failure status gives up.
pub fn metadata_step(name: &str, attempt: u32, resp: &Response) -> (r: MetadataStep)
    requires
        attempt < MAX_RETRIES,
    ensures
        match r {
            MetadataStep::Retry => spec_metadata_step(attempt, *resp) is Retry,
            MetadataStep::Parse => spec_metadata_step(attempt, *resp) is Parse,
            MetadataStep::Fail(e) => {
                ||| spec_metadata_step(attempt, *resp) is NotFound && (e matches AlchemyError::PackageNotFound(t) && t@ == name@)
                ||| spec_metadata_step(attempt, *resp) is Network && (e matches AlchemyError::Network(t) && t@ == metadata_error_text(name@, *resp))
            },
        },
{
    match resp {
        Response::SendError(e) => {
            if attempt + 1 < MAX_RETRIES {
                MetadataStep::Retry
            } else {
                let mut t = concat(name, ": ");
                push_str(&mut t, e.as_str());
                MetadataStep::Fail(AlchemyError::Network(t))
            }
        },
        Response::Status(code, text) => {
            if *code == 404 {
                MetadataStep::Fail(AlchemyError::PackageNotFound(to_owned(name)))
            } else if 500 <= *code && *code < 600 && attempt + 1 < MAX_RETRIES {
                MetadataStep::Retry
            } else if !(200 <= *code && *code < 300) {
                let mut t = concat(name, ": HTTP ");
                push_str(&mut t, text.as_str());
                MetadataStep::Fail(AlchemyError::Network(t))
            } else {
                MetadataStep::Parse
            }
        },
    }
}

/// What to do after a response (or a failure to get one) for a tarball download.
pub enum DownloadStep {
    /// Wait and send the request again.
    Retry,
    /// Read the tarball from the response body.
    Read,
    /// Give up with this message.
    Fail(String),
}

/// Decide what follows attempt `attempt` (from 0) of downloading the tarball of `id`:
/// a server error or a failure to send is tried again while attempts remain; another
/// failure status gives up, and so does a failure to send on the last attempt.
pub fn download_step(id: &PackageId, attempt: u32, resp: &Response) -> (r: DownloadStep)
    requires
        attempt < MAX_RETRIES,
    ensures
        match *resp {
            Response::SendError(e) => if attempt + 1 < MAX_RETRIES {
                r is Retry
            } else {
                r matches DownloadStep::Fail(t) && t@ == e@
            },
            Response::Status(code, text) => if 500 <= code < 600 && attempt + 1 < MAX_RETRIES {
                r is Retry
            } else if !(200 <= code < 300) {
                r matches DownloadStep::Fail(t) && t@ == "download "@ + spec_display(id@) + ": HTTP "@
                    + text@
            } else {
                r is Read
            },
        },
{
    match resp {
        Response::SendError(e) => {
            if attempt + 1 < MAX_RETRIES {
                DownloadStep::Retry
            } else {
                DownloadStep::Fail(e.view_clone())
            }
        },
        Response::Status(code, text) => {
            if 500 <= *code && *code < 600 && attempt + 1 < MAX_RETRIES {
                DownloadStep::Retry
            } else if !(200 <= *code && *code < 300) {
                let shown = id.to_string();
                let mut t = concat("download ", shown.as_str());
                push_str(&mut t, ": HTTP ");
                push_str(&mut t, text.as_str());
                DownloadStep::Fail(t)
            } else {
                DownloadStep::Read
            }
        },
    }
}

/// Check downloaded bytes against the expected integrity: a mismatch is an
/// `IntegrityError` naming the package ("name@version"), the expected integrity and
/// the sha512 integrity of the bytes.
pub fn check_download(id: &PackageId, bytes: &[u8], expected: Option<&str>) -> (r: Result<(), AlchemyError>)
    ensures
        match expected {
            None => r is Ok,
            Some(x) => (r is Ok <==> spec_verify_integrity(bytes@, x@)) && (r matches Err(e) ==> (
            e matches AlchemyError::IntegrityError(p, want, got) && p@ == spec_display(id@) && want@
                == x@ && got@ == spec_integrity_sha512(bytes@))),
        },
{
    match expected {
        None => Ok(()),
        Some(x) => {
            if verify_integrity(bytes, x) {
                Ok(())
            } else {
                let actual = compute_integrity(bytes);
                Err(AlchemyError::IntegrityError(id.to_string(), to_owned(x), actual))
            }
        },
    }
}

// ---------------------------------------------------------------------------
// Git and tarball dependencies
// ---------------------------------------------------------------------------

/// The version of a git dependency: its package.json version, else the first eight
/// characters of the commit.
pub open spec fn spec_git_version(manifest_version: Option<Seq<char>>, sha: Seq<char>) -> Seq<char> {
    match manifest_version {
        Some(v) => v,
        None => if sha.len() < 8 {
            sha
        } else {
            sha.take(8)
        },
    }
}

pub fn git_version(manifest_version: Option<&str>, sha: &str) -> (r: String)
    ensures
        r@ == spec_git_version(
            match manifest_version {
                Some(v) => Some(v@),
                None => None,
            },
            sha@,
        ),
{
    match manifest_version {
        Some(v) => to_owned(v),
        None => {
            let s = chars_of(sha);
            let n = if s.len() < 8 {
                s.len()
            } else {
                8
            };
            let r = string_of_range(&s, 0, n);
            assert(r@ =~= spec_git_version(None, sha@));
            r
        },
    }
}

/// The resolved package of a git or tarball dependency, read from its package.json.
pub fn package_from_manifest(
    name: &str,
    version: &str,
    manifest: Manifest,
    source_path: String,
    tarball_url: String,
) -> (r: ResolvedPackage)
    ensures
        r@.id == (name@, version@),
        r@.source_path == Some(source_path@),
        r@.tarball_url == tarball_url@,
        r@.integrity is None,
        r@.dependencies == manifest.dependencies@,
        r@.peer_dependencies == manifest.peer_dependencies@,
        r@.optional_dependencies == manifest.optional_dependencies@,
        r@.os is None && r@.cpu is None && r@.engines is None,
        r@.bin == crate::dependency::opt_bin(manifest.bin),
{
    ResolvedPackage {
        id: PackageId::new(name, version),
        tarball_url,
        integrity: None,
        source_path: Some(source_path),
        dependencies: manifest.dependencies,
        peer_dependencies: manifest.peer_dependencies,
        optional_dependencies: manifest.optional_dependencies,
        bin: manifest.bin,
        os: None,
        cpu: None,
        engines: None,
    }
}

// ---------------------------------------------------------------------------
// The metadata cache
// ---------------------------------------------------------------------------

/// Disk-based metadata cache for npm registry responses.
/// Stores JSON in `~/.alchemy-store/metadata-cache/`.
pub struct MetadataCache {
    cache_dir: String,
    ttl: std::time::Duration,
}

/// The cache file of a package: scoped names use '+' for '/'.
pub open spec fn spec_cache_path(cache_dir: Seq<char>, name: Seq<char>) -> Seq<char> {
    spec_join(cache_dir, replace_char(name, '/', '+') + ".json"@)
}

impl MetadataCache {
    pub fn new(store_dir: &str, ttl: std::time::Duration) -> (c: MetadataCache)
        ensures
            c.dir() == spec_join(store_dir@, "metadata-cache"@),
            c.ttl() == ttl,
    {
        MetadataCache { cache_dir: path_join(store_dir, "metadata-cache"), ttl }
    }

    /// The cache directory.
    pub closed spec fn dir(&self) -> Seq<char> {
        self.cache_dir@
    }

    pub closed spec fn ttl(&self) -> std::time::Duration {
        self.ttl
    }

    pub fn cache_dir(&self) -> (r: &str)
        ensures
            r@ == self.dir(),
    {
        self.cache_dir.as_str()
    }

    pub fn ttl_value(&self) -> (r: std::time::Duration)
        ensures
            r == self.ttl(),
    {
        self.ttl
    }

    /// Compute cache file path, encoding scoped names.
    pub fn cache_path(&self, package_name: &str) -> (r: String)
        ensures
            r@ == spec_cache_path(self.dir(), package_name@),
    {
        // @scope/name → @scope+name.json
        let mut encoded = replace_char_exec(package_name, '/', '+');
        push_str(&mut encoded, ".json");
        path_join(self.cache_dir.as_str(), encoded.as_str())
    }
}

} // verus!
