//! Parsing of the dependency specifiers written in package.json.
use vstd::prelude::*;

use crate::text::{
    char_vec, chars_of, contains, find, find_exec, has_prefix, has_prefix_exec, has_suffix,
    has_suffix_exec, is_ws, lemma_find_from_props, occurs_at, push_str, rfind, rfind_exec,
    rfind_upto, seq_eq, skip_ws_back, skip_ws_from, slice_vec, string_of, string_of_range, to_owned,
    trim, trim_start, trim_vec,
};

verus! {

/// Parsed dependency specifier from package.json
#[derive(Debug)]
pub enum DependencySpecifier {
    /// A semver range or tag from registry (e.g., "^1.2.3", "latest", "*")
    Registry(String),
    /// A git repository (e.g., "github:user/repo#tag", "git+https://...")
    Git(GitSpec),
    /// A tarball URL (e.g., "https://example.com/pkg.tgz")
    Url(String),
    /// A local file path (e.g., "file:../local-pkg")
    Path(String),
    /// An aliased package (e.g., "npm:other-pkg@^1.0")
    Alias { package: String, spec: Box<DependencySpecifier> },
    /// A workspace reference (e.g., "workspace:*", "workspace:^")
    Workspace(String),
}

/// Git dependency specification
#[derive(Debug, Clone)]
pub struct GitSpec {
    pub url: String,
    pub commitish: Option<String>,
}

/// The mathematical value of a [`DependencySpecifier`].
pub enum SpecifierModel {
    Registry(Seq<char>),
    Git(Seq<char>, Option<Seq<char>>),
    Url(Seq<char>),
    Path(Seq<char>),
    Alias(Seq<char>, Box<SpecifierModel>),
    Workspace(Seq<char>),
}

pub open spec fn opt_view(o: Option<String>) -> Option<Seq<char>> {
    match o {
        Some(s) => Some(s@),
        None => None,
    }
}

impl View for GitSpec {
    type V = (Seq<char>, Option<Seq<char>>);

    open spec fn view(&self) -> (Seq<char>, Option<Seq<char>>) {
        (self.url@, opt_view(self.commitish))
    }
}

pub open spec fn specifier_model(d: DependencySpecifier) -> SpecifierModel
    decreases d,
{
    match d {
        DependencySpecifier::Registry(s) => SpecifierModel::Registry(s@),
        DependencySpecifier::Git(g) => SpecifierModel::Git(g.url@, opt_view(g.commitish)),
        DependencySpecifier::Url(s) => SpecifierModel::Url(s@),
        DependencySpecifier::Path(s) => SpecifierModel::Path(s@),
        DependencySpecifier::Alias { package, spec } => SpecifierModel::Alias(
            package@,
            Box::new(specifier_model(*spec)),
        ),
        DependencySpecifier::Workspace(s) => SpecifierModel::Workspace(s@),
    }
}

impl View for DependencySpecifier {
    type V = SpecifierModel;

    open spec fn view(&self) -> SpecifierModel {
        specifier_model(*self)
    }
}

// ---------------------------------------------------------------------------
// Specification of `parse`
// ---------------------------------------------------------------------------

/// Number of occurrences of `c` in `s`.
pub open spec fn count_char(s: Seq<char>, c: char) -> nat
    decreases s.len(),
{
    if s.len() == 0 {
        0
    } else {
        count_char(s.drop_last(), c) + if s.last() == c {
            1nat
        } else {
            0nat
        }
    }
}

/// A character that starts a semver range rather than a repository path.
pub open spec fn is_range_start(c: char) -> bool {
    c == '^' || c == '~' || c == '>' || c == '<' || c == '=' || ('0' <= c && c <= '9') || c == '*'
}

/// "user/repo": exactly one `/`, no `://`, not scoped and not starting like a range.
pub open spec fn spec_looks_like_github_shorthand(s: Seq<char>) -> bool {
    let first = if s.len() > 0 {
        s[0]
    } else {
        ' '
    };
    !(s.len() > 0 && s[0] == '@') && !contains(s, "://"@) && count_char(s, '/') == 1
        && !is_range_start(first)
}

/// "url#commitish" split at the last `#`.
pub open spec fn spec_split_commitish(s: Seq<char>) -> (Seq<char>, Option<Seq<char>>) {
    match rfind(s, seq!['#']) {
        Some(pos) => (s.take(pos), Some(s.skip(pos + 1))),
        None => (s, None),
    }
}

/// "pkg@version" split at the `@` that ends the (possibly scoped) package name.
pub open spec fn spec_split_alias(s: Seq<char>) -> Option<(Seq<char>, Seq<char>)> {
    if s.len() > 0 && s[0] == '@' {
        let rest = s.skip(1);
        match find(rest, seq!['/']) {
            Some(slash) => {
                let after = rest.skip(slash + 1);
                match find(after, seq!['@']) {
                    Some(at) => {
                        let name_end = 1 + slash + 1 + at;
                        Some((s.take(name_end), s.skip(name_end + 1)))
                    },
                    None => None,
                }
            },
            None => None,
        }
    } else {
        match find(s, seq!['@']) {
            Some(pos) => Some((s.take(pos), s.skip(pos + 1))),
            None => None,
        }
    }
}

pub open spec fn host_of(prefix: Seq<char>) -> Seq<char> {
    if prefix == "github"@ {
        "github.com"@
    } else if prefix == "gitlab"@ {
        "gitlab.com"@
    } else {
        "bitbucket.org"@
    }
}

/// The specifier that `parse` builds for the already-trimmed text `s`.
pub open spec fn spec_parse_trimmed(s: Seq<char>) -> SpecifierModel
    decreases s.len(),
{
    if has_prefix(s, "workspace:"@) {
        SpecifierModel::Workspace(s.skip("workspace:"@.len() as int))
    } else if has_prefix(s, "npm:"@) {
        let rest = s.skip("npm:"@.len() as int);
        match spec_split_alias(rest) {
            Some((name, version)) => {
                proof {
                    lemma_split_alias_shorter(rest);
                    lemma_trim_shorter(version);
                }
                SpecifierModel::Alias(name, Box::new(spec_parse_trimmed(trim(version))))
            },
            None => SpecifierModel::Alias(rest, Box::new(SpecifierModel::Registry("*"@))),
        }
    } else if has_prefix(s, "file:"@) {
        SpecifierModel::Path(s.skip("file:"@.len() as int))
    } else if has_prefix(s, "./"@) || has_prefix(s, "../"@) || has_prefix(s, "/"@) {
        SpecifierModel::Path(s)
    } else if has_prefix(s, "git+"@) || has_prefix(s, "git://"@) {
        let url = if has_prefix(s, "git+"@) {
            s.skip("git+"@.len() as int)
        } else {
            s
        };
        let (u, c) = spec_split_commitish(url);
        SpecifierModel::Git(u, c)
    } else if has_prefix(s, "github:"@) || has_prefix(s, "gitlab:"@) || has_prefix(
        s,
        "bitbucket:"@,
    ) {
        let colon = find(s, seq![':']).unwrap();
        let (repo, c) = spec_split_commitish(s.skip(colon + 1));
        SpecifierModel::Git("https://"@ + host_of(s.take(colon)) + "/"@ + repo + ".git"@, c)
    } else if spec_looks_like_github_shorthand(s) {
        let (repo, c) = spec_split_commitish(s);
        SpecifierModel::Git("https://github.com/"@ + repo + ".git"@, c)
    } else if has_prefix(s, "https://"@) || has_prefix(s, "http://"@) {
        if has_suffix(s, ".tgz"@) || has_suffix(s, ".tar.gz"@) || contains(s, "/tarball/"@) {
            SpecifierModel::Url(s)
        } else if has_suffix(s, ".git"@) || contains(s, "github.com"@) || contains(
            s,
            "gitlab.com"@,
        ) {
            let (u, c) = spec_split_commitish(s);
            SpecifierModel::Git(u, c)
        } else {
            SpecifierModel::Url(s)
        }
    } else {
        SpecifierModel::Registry(s)
    }
}

/// What `parse` returns for the text `spec`: the text is trimmed first.
pub open spec fn spec_parse(spec: Seq<char>) -> SpecifierModel {
    spec_parse_trimmed(trim(spec))
}

// ---------------------------------------------------------------------------
// Lemmas
// ---------------------------------------------------------------------------

pub proof fn lemma_skip_ws_from_bounds(s: Seq<char>, i: int)
    requires
        0 <= i <= s.len(),
    ensures
        i <= skip_ws_from(s, i) <= s.len(),
    decreases s.len() - i,
{
    if 0 <= i < s.len() && is_ws(s[i]) {
        lemma_skip_ws_from_bounds(s, i + 1);
    }
}

pub proof fn lemma_skip_ws_back_bounds(s: Seq<char>, j: int)
    requires
        0 <= j <= s.len(),
    ensures
        0 <= skip_ws_back(s, j) <= j,
    decreases j,
{
    if 0 < j <= s.len() && is_ws(s[j - 1]) {
        lemma_skip_ws_back_bounds(s, j - 1);
    }
}

pub proof fn lemma_trim_shorter(s: Seq<char>)
    ensures
        trim(s).len() <= s.len(),
{
    lemma_skip_ws_from_bounds(s, 0);
    let t = trim_start(s);
    lemma_skip_ws_back_bounds(t, t.len() as int);
}

pub proof fn lemma_split_alias_shorter(s: Seq<char>)
    ensures
        spec_split_alias(s) matches Some((n, v)) ==> v.len() < s.len(),
{
    if s.len() > 0 && s[0] == '@' {
        let rest = s.skip(1);
        lemma_find_from_props(rest, seq!['/'], 0);
        if let Some(slash) = find(rest, seq!['/']) {
            let after = rest.skip(slash + 1);
            lemma_find_from_props(after, seq!['@'], 0);
        }
    } else {
        lemma_find_from_props(s, seq!['@'], 0);
    }
}

// ---------------------------------------------------------------------------
// Executable parsing
// ---------------------------------------------------------------------------

fn lit(s: &str) -> (v: Vec<char>)
    ensures
        v@ == s@,
{
    chars_of(s)
}

fn count_char_exec(v: &Vec<char>, c: char) -> (n: usize)
    ensures
        n == count_char(v@, c),
{
    let mut n: usize = 0;
    let mut i: usize = 0;
    while i < v.len()
        invariant
            i <= v.len(),
            n <= i,
            n == count_char(v@.take(i as int), c),
        decreases v.len() - i,
    {
        assert(v@.take(i + 1).drop_last() =~= v@.take(i as int));
        if v[i] == c {
            n = n + 1;
        }
        i = i + 1;
    }
    assert(v@.take(v.len() as int) =~= v@);
    n
}

/// Check if a spec looks like a GitHub shorthand (user/repo)
fn looks_like_github_shorthand(v: &Vec<char>) -> (r: bool)
    ensures
        r == spec_looks_like_github_shorthand(v@),
{
    // Must contain exactly one "/" and not start with "@"
    // Must not look like a semver range
    if v.len() > 0 && v[0] == '@' {
        return false;
    }
    if find_exec(v, &lit("://")).is_some() {
        return false;
    }
    if count_char_exec(v, '/') != 1 {
        return false;
    }
    // Should not start with special semver characters
    let first = if v.len() > 0 {
        v[0]
    } else {
        ' '
    };
    !(first == '^' || first == '~' || first == '>' || first == '<' || first == '=' || ('0'
        <= first && first <= '9') || first == '*')
}

/// Split "url#commitish" into (url, Some(commitish)) or (url, None)
fn split_commitish(v: &Vec<char>) -> (r: (Vec<char>, Option<String>))
    ensures
        r.0@ == spec_split_commitish(v@).0,
        opt_view(r.1) == spec_split_commitish(v@).1,
{
    match rfind_exec(v, &char_vec('#')) {
        Some(pos) => {
            proof {
                lemma_rfind_bounds(v@, seq!['#']);
                assert(occurs_at(v@, seq!['#'], pos as int));
                assert(seq!['#'].len() == 1);
                assert(pos < v.len());
            }
            (slice_vec(v, 0, pos), Some(string_of_range(v, pos + 1, v.len())))
        },
        None => (slice_vec(v, 0, v.len()), None),
    }
}

pub proof fn lemma_rfind_upto_bounds(s: Seq<char>, pat: Seq<char>, i: int)
    ensures
        rfind_upto(s, pat, i) matches Some(j) ==> j <= i && occurs_at(s, pat, j),
    decreases i + 1,
{
    if i >= 0 && !occurs_at(s, pat, i) {
        lemma_rfind_upto_bounds(s, pat, i - 1);
    }
}

pub proof fn lemma_rfind_bounds(s: Seq<char>, pat: Seq<char>)
    ensures
        rfind(s, pat) matches Some(j) ==> occurs_at(s, pat, j),
{
    lemma_rfind_upto_bounds(s, pat, s.len() - pat.len());
}

/// Split "pkg@version" for alias parsing, handling scoped packages
fn split_alias(v: &Vec<char>) -> (r: Option<(Vec<char>, Vec<char>)>)
    ensures
        r matches Some((n, ver)) ==> spec_split_alias(v@) == Some((n@, ver@)),
        r is None ==> spec_split_alias(v@) is None,
{
    if v.len() > 0 && v[0] == '@' {
        // Scoped: @scope/pkg@version
        let rest = slice_vec(v, 1, v.len());
        assert(rest@ =~= v@.skip(1));
        match find_exec(&rest, &char_vec('/')) {
            Some(slash) => {
                proof {
                    lemma_find_from_props(rest@, seq!['/'], 0);
                }
                let after = slice_vec(&rest, slash + 1, rest.len());
                assert(after@ =~= rest@.skip(slash + 1));
                match find_exec(&after, &char_vec('@')) {
                    Some(at) => {
                        proof {
                            lemma_find_from_props(after@, seq!['@'], 0);
                        }
                        let name_end = 1 + slash + 1 + at;  // account for '@' prefix
                        let n = slice_vec(v, 0, name_end);
                        let ver = slice_vec(v, name_end + 1, v.len());
                        assert(n@ =~= v@.take(name_end as int));
                        assert(ver@ =~= v@.skip(name_end + 1));
                        Some((n, ver))
                    },
                    None => None,
                }
            },
            None => None,
        }
    } else {
        // Unscoped: pkg@version
        match find_exec(v, &char_vec('@')) {
            Some(pos) => {
                proof {
                    lemma_find_from_props(v@, seq!['@'], 0);
                }
                let n = slice_vec(v, 0, pos);
                let ver = slice_vec(v, pos + 1, v.len());
                assert(n@ =~= v@.take(pos as int));
                assert(ver@ =~= v@.skip(pos + 1));
                Some((n, ver))
            },
            None => None,
        }
    }
}

fn vec_string(v: &Vec<char>) -> (s: String)
    ensures
        s@ == v@,
{
    string_of(v)
}

fn skip_string(v: &Vec<char>, n: usize) -> (s: String)
    requires
        n <= v.len(),
    ensures
        s@ == v@.skip(n as int),
{
    let s = string_of_range(v, n, v.len());
    assert(v@.subrange(n as int, v@.len() as int) =~= v@.skip(n as int));
    s
}

fn git_url(parts: &Vec<&str>, repo: &Vec<char>, tail: &str) -> (s: String)
    requires
        parts.len() == 3,
    ensures
        s@ == parts@[0]@ + parts@[1]@ + parts@[2]@ + repo@ + tail@,
{
    let mut s = to_owned(parts[0]);
    push_str(&mut s, parts[1]);
    push_str(&mut s, parts[2]);
    let r = string_of(repo);
    push_str(&mut s, r.as_str());
    push_str(&mut s, tail);
    s
}

fn parse_trimmed(s: &Vec<char>) -> (r: DependencySpecifier)
    ensures
        r@ == spec_parse_trimmed(s@),
    decreases s@.len(),
{
    // workspace: protocol
    let ws = lit("workspace:");
    if has_prefix_exec(s, &ws) {
        return DependencySpecifier::Workspace(skip_string(s, ws.len()));
    }
    // npm: alias prefix
    let npm = lit("npm:");
    if has_prefix_exec(s, &npm) {
        let rest = slice_vec(s, npm.len(), s.len());
        assert(rest@ =~= s@.skip(npm@.len() as int));
        // "npm:other-pkg@^1.0" → Alias { package: "other-pkg", spec: Registry("^1.0") }
        if let Some((name, version)) = split_alias(&rest) {
            proof {
                lemma_split_alias_shorter(rest@);
                lemma_trim_shorter(version@);
            }
            let tv = trim_vec(&version);
            let inner = parse_trimmed(&tv);
            return DependencySpecifier::Alias { package: vec_string(&name), spec: Box::new(inner) };
        }
        let inner = DependencySpecifier::Registry(to_owned("*"));
        assert(inner@ == SpecifierModel::Registry("*"@));
        return DependencySpecifier::Alias { package: vec_string(&rest), spec: Box::new(inner) };
    }
    // file: prefix or relative/absolute path
    let file = lit("file:");
    if has_prefix_exec(s, &file) {
        return DependencySpecifier::Path(skip_string(s, file.len()));
    }
    if has_prefix_exec(s, &lit("./")) || has_prefix_exec(s, &lit("../")) || has_prefix_exec(
        s,
        &lit("/"),
    ) {
        return DependencySpecifier::Path(vec_string(s));
    }
    // git+ prefix
    let git_plus = lit("git+");
    let starts_git_plus = has_prefix_exec(s, &git_plus);
    if starts_git_plus || has_prefix_exec(s, &lit("git://")) {
        let url = if starts_git_plus {
            let u = slice_vec(s, git_plus.len(), s.len());
            assert(u@ =~= s@.skip(git_plus@.len() as int));
            u
        } else {
            slice_vec(s, 0, s.len())
        };
        assert(s@.subrange(0, s@.len() as int) =~= s@);
        let (u, commitish) = split_commitish(&url);
        return DependencySpecifier::Git(GitSpec { url: vec_string(&u), commitish });
    }
    // GitHub/GitLab/Bitbucket shorthand
    if has_prefix_exec(s, &lit("github:")) || has_prefix_exec(s, &lit("gitlab:"))
        || has_prefix_exec(s, &lit("bitbucket:")) {
        match find_exec(s, &char_vec(':')) {
            Some(colon) => {
                proof {
                    lemma_find_from_props(s@, seq![':'], 0);
                }
                let host_prefix = slice_vec(s, 0, colon);
                let rest = slice_vec(s, colon + 1, s.len());
                assert(host_prefix@ =~= s@.take(colon as int));
                assert(rest@ =~= s@.skip(colon + 1));
                let (repo_path, commitish) = split_commitish(&rest);
                let host = if seq_eq(&host_prefix, &lit("github")) {
                    "github.com"
                } else if seq_eq(&host_prefix, &lit("gitlab")) {
                    "gitlab.com"
                } else {
                    "bitbucket.org"
                };
                let mut parts: Vec<&str> = Vec::new();
                parts.push("https://");
                parts.push(host);
                parts.push("/");
                return DependencySpecifier::Git(
                    GitSpec { url: git_url(&parts, &repo_path, ".git"), commitish },
                );
            },
            None => {
                // each of the three prefixes holds a ':'
                proof {
                    lemma_prefix_colon(s@);
                }
                return DependencySpecifier::Registry(vec_string(s));
            },
        }
    }
    // user/repo shorthand (GitHub)
    if looks_like_github_shorthand(s) {
        let (repo_path, commitish) = split_commitish(s);
        let mut parts: Vec<&str> = Vec::new();
        parts.push("https://");
        parts.push("github.com");
        parts.push("/");
        let url = git_url(&parts, &repo_path, ".git");
        proof {
            reveal_strlit("https://");
            reveal_strlit("github.com");
            reveal_strlit("/");
            reveal_strlit("https://github.com/");
            assert("https://"@ + "github.com"@ + "/"@ =~= "https://github.com/"@);
        }
        return DependencySpecifier::Git(GitSpec { url, commitish });
    }
    // Tarball URL
    if has_prefix_exec(s, &lit("https://")) || has_prefix_exec(s, &lit("http://")) {
        // Could be a tarball URL
        if has_suffix_exec(s, &lit(".tgz")) || has_suffix_exec(s, &lit(".tar.gz")) || find_exec(
            s,
            &lit("/tarball/"),
        ).is_some() {
            return DependencySpecifier::Url(vec_string(s));
        }
        // Could also be a git URL
        if has_suffix_exec(s, &lit(".git")) || find_exec(s, &lit("github.com")).is_some()
            || find_exec(s, &lit("gitlab.com")).is_some() {
            let (url, commitish) = split_commitish(s);
            return DependencySpecifier::Git(GitSpec { url: vec_string(&url), commitish });
        }
        // Default to URL (tarball)
        return DependencySpecifier::Url(vec_string(s));
    }
    // Everything else is a registry specifier (semver range, tag, etc.)
    DependencySpecifier::Registry(vec_string(s))
}

proof fn lemma_prefix_colon(s: Seq<char>)
    requires
        has_prefix(s, "github:"@) || has_prefix(s, "gitlab:"@) || has_prefix(s, "bitbucket:"@),
    ensures
        find(s, seq![':']) is Some,
{
    reveal_strlit("github:");
    reveal_strlit("gitlab:");
    reveal_strlit("bitbucket:");
    let i: int = if has_prefix(s, "github:"@) {
        6
    } else if has_prefix(s, "gitlab:"@) {
        6
    } else {
        9
    };
    assert(s.subrange(0, i + 1)[i] == ':');
    assert(occurs_at(s, seq![':'], i)) by {
        assert(s.subrange(i, i + 1) =~= seq![':']);
    }
    lemma_find_from_props(s, seq![':'], 0);
}

/// Parse a dependency specifier string into a structured type.
pub fn parse(spec: &str) -> (r: DependencySpecifier)
    ensures
        r@ == spec_parse(spec@),
{
    let v = chars_of(spec);
    let t = trim_vec(&v);
    parse_trimmed(&t)
}

/// The parts of "name:path" that parsing a hosted-git shorthand reads: the text is
/// already trimmed, its first ':' ends the host name, and the path has no commit-ish.
proof fn lemma_host_shorthand_parts(name: Seq<char>, path: Seq<char>)
    requires
        name.len() > 0,
        !is_ws(name[0]),
        forall|i: int| 0 <= i < name.len() ==> name[i] != ':',
        path.len() > 0,
        !is_ws(path.last()),
    ensures
        ({
            let s = name + seq![':'] + path;
            &&& trim(s) == s
            &&& find(s, seq![':']) == Some(name.len() as int)
            &&& s.skip(name.len() + 1int) == path
            &&& s.take(name.len() as int) == name
            &&& (forall|i: int| 0 <= i < path.len() ==> path[i] != '#') ==> spec_split_commitish(path)
                == (path, None::<Seq<char>>)
        }),
{
    let s = name + seq![':'] + path;
    let n = name.len() as int;
    assert(s[0] == name[0]);
    assert(skip_ws_from(s, 0) == 0);
    let t = trim_start(s);
    assert(t =~= s);
    assert(s[s.len() - 1] == path.last());
    assert(skip_ws_back(t, t.len() as int) == t.len());
    assert(trim(s) =~= s);
    assert(occurs_at(s, seq![':'], n)) by {
        assert(s.subrange(n, n + 1) =~= seq![':']);
    }
    lemma_find_from_props(s, seq![':'], 0);
    match find(s, seq![':']) {
        Some(j) => {
            if j < n {
                assert(s.subrange(j, j + 1)[0] == s[j]);
                assert(s[j] == name[j]);
            }
        },
        None => {},
    }
    assert(s.skip(n + 1) =~= path);
    assert(s.take(n) =~= name);
    lemma_rfind_bounds(path, seq!['#']);
    match rfind(path, seq!['#']) {
        Some(j) => {
            assert(path.subrange(j, j + 1)[0] == path[j]);
        },
        None => {},
    }
}

/// `rfind_upto` finds the occurrence at `j` when none follows it up to `i`.
proof fn lemma_rfind_upto_last(s: Seq<char>, pat: Seq<char>, j: int, i: int)
    requires
        0 <= j <= i,
        occurs_at(s, pat, j),
        forall|k: int| j < k <= i ==> !occurs_at(s, pat, k),
    ensures
        rfind_upto(s, pat, i) == Some(j),
    decreases i - j,
{
    if i > j {
        lemma_rfind_upto_last(s, pat, j, i - 1);
    }
}

/// "path#commitish" is split at its '#' when neither part has another.
proof fn lemma_split_commitish_at(path: Seq<char>, c: Seq<char>)
    requires
        forall|i: int| 0 <= i < path.len() ==> path[i] != '#',
        forall|i: int| 0 <= i < c.len() ==> c[i] != '#',
    ensures
        spec_split_commitish(path + seq!['#'] + c) == (path, Some(c)),
{
    let s = path + seq!['#'] + c;
    let n = path.len() as int;
    assert(occurs_at(s, seq!['#'], n)) by {
        assert(s.subrange(n, n + 1) =~= seq!['#']);
    }
    assert forall|k: int| n < k <= s.len() - 1 implies !occurs_at(s, seq!['#'], k) by {
        if occurs_at(s, seq!['#'], k) {
            assert(s.subrange(k, k + 1)[0] == s[k]);
            assert(s[k] == c[k - n - 1]);
        }
    }
    lemma_rfind_upto_last(s, seq!['#'], n, s.len() - 1);
    assert(s.take(n) =~= path);
    assert(s.skip(n + 1) =~= c);
}

/// Parsing "<name>:<path>" for one of the hosted-git names.
proof fn lemma_parse_host_prefix(name: Seq<char>, path: Seq<char>)
    requires
        name == "github"@ || name == "gitlab"@ || name == "bitbucket"@,
        path.len() > 0,
        !is_ws(path.last()),
    ensures
        spec_parse(name + seq![':'] + path) == SpecifierModel::Git(
            "https://"@ + host_of(name) + "/"@ + spec_split_commitish(path).0 + ".git"@,
            spec_split_commitish(path).1,
        ),
{
    reveal_strlit("github");
    reveal_strlit("gitlab");
    reveal_strlit("bitbucket");
    reveal_strlit("github:");
    reveal_strlit("gitlab:");
    reveal_strlit("bitbucket:");
    reveal_strlit("workspace:");
    reveal_strlit("npm:");
    reveal_strlit("file:");
    reveal_strlit("./");
    reveal_strlit("../");
    reveal_strlit("/");
    reveal_strlit("git+");
    reveal_strlit("git://");
    let s = name + seq![':'] + path;
    lemma_host_shorthand_parts(name, path);
    assert(s[0] == name[0]);
    assert(s[3] == name[3]);
    assert(!has_prefix(s, "workspace:"@)) by {
        if has_prefix(s, "workspace:"@) {
            assert(s.subrange(0, 10)[0] == s[0]);
        }
    }
    assert(!has_prefix(s, "npm:"@)) by {
        if has_prefix(s, "npm:"@) {
            assert(s.subrange(0, 4)[0] == s[0]);
        }
    }
    assert(!has_prefix(s, "file:"@)) by {
        if has_prefix(s, "file:"@) {
            assert(s.subrange(0, 5)[0] == s[0]);
        }
    }
    assert(!has_prefix(s, "./"@)) by {
        if has_prefix(s, "./"@) {
            assert(s.subrange(0, 2)[0] == s[0]);
        }
    }
    assert(!has_prefix(s, "../"@)) by {
        if has_prefix(s, "../"@) {
            assert(s.subrange(0, 3)[0] == s[0]);
        }
    }
    assert(!has_prefix(s, "/"@)) by {
        if has_prefix(s, "/"@) {
            assert(s.subrange(0, 1)[0] == s[0]);
        }
    }
    assert(!has_prefix(s, "git+"@)) by {
        if has_prefix(s, "git+"@) {
            assert(s.subrange(0, 4)[0] == s[0]);
            assert(s.subrange(0, 4)[3] == s[3]);
        }
    }
    assert(!has_prefix(s, "git://"@)) by {
        if has_prefix(s, "git://"@) {
            assert(s.subrange(0, 6)[0] == s[0]);
            assert(s.subrange(0, 6)[3] == s[3]);
        }
    }
    let p = name + seq![':'];
    assert(s.subrange(0, p.len() as int) =~= p);
    if name == "github"@ {
        assert(p =~= "github:"@);
    } else if name == "gitlab"@ {
        assert(p =~= "gitlab:"@);
    } else {
        assert(p =~= "bitbucket:"@);
    }
}

/// Parsing "github:", "gitlab:" or "bitbucket:" followed by a repository path (with
/// no '#' and no whitespace at its end) gives a git dependency on
/// `https://<host>/<path>.git`, where the host is github.com, gitlab.com or
/// bitbucket.org respectively, with no commit-ish.
pub proof fn lemma_parse_hosted_git(path: Seq<char>)
    requires
        path.len() > 0,
        !is_ws(path.last()),
        forall|i: int| 0 <= i < path.len() ==> path[i] != '#',
    ensures
        spec_parse("github:"@ + path) == SpecifierModel::Git(
            "https://github.com/"@ + path + ".git"@,
            None,
        ),
        spec_parse("gitlab:"@ + path) == SpecifierModel::Git(
            "https://gitlab.com/"@ + path + ".git"@,
            None,
        ),
        spec_parse("bitbucket:"@ + path) == SpecifierModel::Git(
            "https://bitbucket.org/"@ + path + ".git"@,
            None,
        ),
{
    reveal_strlit("github");
    reveal_strlit("gitlab");
    reveal_strlit("bitbucket");
    reveal_strlit("github:");
    reveal_strlit("gitlab:");
    reveal_strlit("bitbucket:");
    reveal_strlit("github.com");
    reveal_strlit("gitlab.com");
    reveal_strlit("bitbucket.org");
    reveal_strlit("https://github.com/");
    reveal_strlit("https://gitlab.com/");
    reveal_strlit("https://bitbucket.org/");
    reveal_strlit("https://");
    reveal_strlit("/");
    assert("gitlab"@ != "github"@) by {
        assert("gitlab"@[3] != "github"@[3]);
    }
    lemma_host_shorthand_parts("github"@, path);
    lemma_parse_host_prefix("github"@, path);
    lemma_parse_host_prefix("gitlab"@, path);
    lemma_parse_host_prefix("bitbucket"@, path);
    assert("github"@ + seq![':'] + path =~= "github:"@ + path);
    assert("gitlab"@ + seq![':'] + path =~= "gitlab:"@ + path);
    assert("bitbucket"@ + seq![':'] + path =~= "bitbucket:"@ + path);
    assert("https://"@ + "github.com"@ + "/"@ =~= "https://github.com/"@);
    assert("https://"@ + "gitlab.com"@ + "/"@ =~= "https://gitlab.com/"@);
    assert("https://"@ + "bitbucket.org"@ + "/"@ =~= "https://bitbucket.org/"@);
    assert("https://"@ + "github.com"@ + "/"@ + path + ".git"@ =~= "https://github.com/"@ + path + ".git"@);
    assert("https://"@ + "gitlab.com"@ + "/"@ + path + ".git"@ =~= "https://gitlab.com/"@ + path + ".git"@);
    assert("https://"@ + "bitbucket.org"@ + "/"@ + path + ".git"@ =~= "https://bitbucket.org/"@ + path + ".git"@);
}

/// With a commit-ish after '#' ("gitlab:user/repo#v1.2.0"), the same url is given and
/// the commit-ish is kept.
pub proof fn lemma_parse_hosted_git_commitish(path: Seq<char>, c: Seq<char>)
    requires
        c.len() > 0,
        !is_ws(c.last()),
        forall|i: int| 0 <= i < path.len() ==> path[i] != '#',
        forall|i: int| 0 <= i < c.len() ==> c[i] != '#',
    ensures
        spec_parse("github:"@ + path + "#"@ + c) == SpecifierModel::Git(
            "https://github.com/"@ + path + ".git"@,
            Some(c),
        ),
        spec_parse("gitlab:"@ + path + "#"@ + c) == SpecifierModel::Git(
            "https://gitlab.com/"@ + path + ".git"@,
            Some(c),
        ),
        spec_parse("bitbucket:"@ + path + "#"@ + c) == SpecifierModel::Git(
            "https://bitbucket.org/"@ + path + ".git"@,
            Some(c),
        ),
{
    reveal_strlit("github");
    reveal_strlit("gitlab");
    reveal_strlit("bitbucket");
    reveal_strlit("github:");
    reveal_strlit("gitlab:");
    reveal_strlit("bitbucket:");
    reveal_strlit("github.com");
    reveal_strlit("gitlab.com");
    reveal_strlit("bitbucket.org");
    reveal_strlit("https://github.com/");
    reveal_strlit("https://gitlab.com/");
    reveal_strlit("https://bitbucket.org/");
    reveal_strlit("https://");
    reveal_strlit("/");
    reveal_strlit("#");
    let r = path + seq!['#'] + c;
    assert(r.last() == c.last());
    lemma_split_commitish_at(path, c);
    assert("gitlab"@ != "github"@) by {
        assert("gitlab"@[3] != "github"@[3]);
    }
    lemma_parse_host_prefix("github"@, r);
    lemma_parse_host_prefix("gitlab"@, r);
    lemma_parse_host_prefix("bitbucket"@, r);
    assert("github"@ + seq![':'] + r =~= "github:"@ + path + "#"@ + c);
    assert("gitlab"@ + seq![':'] + r =~= "gitlab:"@ + path + "#"@ + c);
    assert("bitbucket"@ + seq![':'] + r =~= "bitbucket:"@ + path + "#"@ + c);
    assert("https://"@ + "github.com"@ + "/"@ + path + ".git"@ =~= "https://github.com/"@ + path + ".git"@);
    assert("https://"@ + "gitlab.com"@ + "/"@ + path + ".git"@ =~= "https://gitlab.com/"@ + path + ".git"@);
    assert("https://"@ + "bitbucket.org"@ + "/"@ + path + ".git"@ =~= "https://bitbucket.org/"@ + path + ".git"@);
}

/// A text that neither starts nor ends with whitespace is its own trim.
proof fn lemma_trim_identity(s: Seq<char>)
    requires
        s.len() > 0,
        !is_ws(s[0]),
        !is_ws(s.last()),
    ensures
        trim(s) == s,
{
    assert(skip_ws_from(s, 0) == 0);
    let t = trim_start(s);
    assert(t =~= s);
    assert(skip_ws_back(t, t.len() as int) == t.len());
    assert(trim(s) =~= s);
}

/// Parsing "file:" followed by a path gives that path; "workspace:" followed by a
/// range gives a workspace dependency on that range; "git+" followed by a url (with
/// no '#') gives a git dependency on that url with no commit-ish. (The text after the
/// prefix does not end with whitespace.)
pub proof fn lemma_parse_prefixed(rest: Seq<char>)
    requires
        rest.len() > 0 ==> !is_ws(rest.last()),
    ensures
        spec_parse("file:"@ + rest) == SpecifierModel::Path(rest),
        spec_parse("workspace:"@ + rest) == SpecifierModel::Workspace(rest),
        (forall|i: int| 0 <= i < rest.len() ==> rest[i] != '#') ==> spec_parse("git+"@ + rest)
            == SpecifierModel::Git(rest, None),
{
    reveal_strlit("file:");
    reveal_strlit("workspace:");
    reveal_strlit("git+");
    reveal_strlit("npm:");
    reveal_strlit("./");
    reveal_strlit("../");
    reveal_strlit("/");
    reveal_strlit("git://");
    let f = "file:"@ + rest;
    let w = "workspace:"@ + rest;
    let g = "git+"@ + rest;
    assert(f[0] == 'f' && w[0] == 'w' && g[0] == 'g');
    assert(f.last() == if rest.len() > 0 { rest.last() } else { ':' });
    assert(w.last() == if rest.len() > 0 { rest.last() } else { ':' });
    assert(g.last() == if rest.len() > 0 { rest.last() } else { '+' });
    lemma_trim_identity(f);
    lemma_trim_identity(w);
    lemma_trim_identity(g);
    assert(f.subrange(0, 5) =~= "file:"@);
    assert(w.subrange(0, 10) =~= "workspace:"@);
    assert(g.subrange(0, 4) =~= "git+"@);
    assert(f.skip(5) =~= rest);
    assert(w.skip(10) =~= rest);
    assert(g.skip(4) =~= rest);
    assert(!has_prefix(f, "workspace:"@)) by {
        if has_prefix(f, "workspace:"@) {
            assert(f.subrange(0, 10)[0] == f[0]);
        }
    }
    assert(!has_prefix(f, "npm:"@)) by {
        if has_prefix(f, "npm:"@) {
            assert(f.subrange(0, 4)[0] == f[0]);
        }
    }
    assert(!has_prefix(g, "workspace:"@)) by {
        if has_prefix(g, "workspace:"@) {
            assert(g.subrange(0, 10)[0] == g[0]);
        }
    }
    assert(!has_prefix(g, "npm:"@)) by {
        if has_prefix(g, "npm:"@) {
            assert(g.subrange(0, 4)[0] == g[0]);
        }
    }
    assert(!has_prefix(g, "file:"@)) by {
        if has_prefix(g, "file:"@) {
            assert(g.subrange(0, 5)[0] == g[0]);
        }
    }
    assert(!has_prefix(g, "./"@)) by {
        if has_prefix(g, "./"@) {
            assert(g.subrange(0, 2)[0] == g[0]);
        }
    }
    assert(!has_prefix(g, "../"@)) by {
        if has_prefix(g, "../"@) {
            assert(g.subrange(0, 3)[0] == g[0]);
        }
    }
    assert(!has_prefix(g, "/"@)) by {
        if has_prefix(g, "/"@) {
            assert(g.subrange(0, 1)[0] == g[0]);
        }
    }
    if forall|i: int| 0 <= i < rest.len() ==> rest[i] != '#' {
        lemma_rfind_bounds(rest, seq!['#']);
        match rfind(rest, seq!['#']) {
            Some(j) => {
                assert(rest.subrange(j, j + 1)[0] == rest[j]);
            },
            None => {},
        }
    }
}

} // verus!
