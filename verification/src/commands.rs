//! The decisions of the command-line commands: what to add, which scripts to run and
//! how, what to report.
use vstd::prelude::*;

use crate::dependency::spec_display;
use crate::resolver::PeerWarning;
use crate::strmap::{StrMap, ViewClone};
use crate::text::{
    char_vec, chars_of, concat, push_str, rfind, rfind_exec, str_eq, string_of_range, to_owned,
};

verus! {

// ---------------------------------------------------------------------------
// add
// ---------------------------------------------------------------------------

/// "pkg" or "pkg@version": the name, and the requested version ("latest" when none;
/// a leading '@' is a scope, not a version).
pub open spec fn spec_split_package_spec(package: Seq<char>) -> (Seq<char>, Seq<char>) {
    match rfind(package, seq!['@']) {
        Some(i) => if i == 0 {
            (package, "latest"@)
        } else {
            (package.take(i), package.skip(i + 1))
        },
        None => (package, "latest"@),
    }
}

/// Parse package spec: "pkg" or "pkg@version"
pub fn split_package_spec(package: &str) -> (r: (String, String))
    ensures
        (r.0@, r.1@) == spec_split_package_spec(package@),
{
    let v = chars_of(package);
    let at = char_vec('@');
    let _n = v.len();
    match rfind_exec(&v, &at) {
        Some(i) => {
            if i == 0 {
                // Scoped package without version: @scope/pkg
                (to_owned(package), to_owned("latest"))
            } else {
                proof {
                    crate::specifier::lemma_rfind_bounds(v@, at@);
                    assert(crate::text::occurs_at(v@, at@, i as int));
                }
                let name = string_of_range(&v, 0, i);
                let version = string_of_range(&v, i + 1, v.len());
                assert(name@ =~= package@.take(i as int));
                assert(version@ =~= package@.skip(i + 1));
                (name, version)
            }
        },
        None => (to_owned(package), to_owned("latest")),
    }
}

/// The range written into package.json for an added package: the requested version,
/// or "^" and the latest version when "latest" was requested.
pub open spec fn spec_version_spec(requested: Seq<char>, latest: Seq<char>) -> Seq<char> {
    if requested == "latest"@ {
        "^"@ + latest
    } else {
        requested
    }
}

/// Whether the requested version is the "latest" tag, to be looked up.
pub fn wants_latest(requested: &str) -> (b: bool)
    ensures
        b == (requested@ == "latest"@),
{
    str_eq(requested, "latest")
}

/// Resolve "latest" to actual version range
pub fn version_spec(requested: &str, latest: &str) -> (r: String)
    ensures
        r@ == spec_version_spec(requested@, latest@),
{
    if str_eq(requested, "latest") {
        concat("^", latest)
    } else {
        to_owned(requested)
    }
}

// ---------------------------------------------------------------------------
// run
// ---------------------------------------------------------------------------

/// The scripts `run` executes for `script`: "pre<script>" if present, the script, and
/// "post<script>" if present; `None` when the script is not defined.
pub open spec fn spec_script_plan(scripts: Map<Seq<char>, Seq<char>>, script: Seq<char>) -> Option<
    (Option<Seq<char>>, Seq<char>, Option<Seq<char>>),
> {
    if !scripts.contains_key(script) {
        None
    } else {
        let pre = "pre"@ + script;
        let post = "post"@ + script;
        Some(
            (
                if scripts.contains_key(pre) {
                    Some(scripts[pre])
                } else {
                    None
                },
                scripts[script],
                if scripts.contains_key(post) {
                    Some(scripts[post])
                } else {
                    None
                },
            ),
        )
    }
}

pub fn script_plan(scripts: &StrMap<String>, script: &str) -> (r: Option<
    (Option<String>, String, Option<String>),
>)
    ensures
        match r {
            Some((pre, main, post)) => spec_script_plan(scripts@, script@) == Some(
                (
                    match pre {
                        Some(p) => Some(p@),
                        None => None,
                    },
                    main@,
                    match post {
                        Some(p) => Some(p@),
                        None => None,
                    },
                ),
            ),
            None => spec_script_plan(scripts@, script@) is None,
        },
{
    let main = match scripts.get(script) {
        Some(s) => s.view_clone(),
        None => {
            return None;
        },
    };
    let pre_name = concat("pre", script);
    let post_name = concat("post", script);
    let pre = match scripts.get(pre_name.as_str()) {
        Some(s) => Some(s.view_clone()),
        None => None,
    };
    let post = match scripts.get(post_name.as_str()) {
        Some(s) => Some(s.view_clone()),
        None => None,
    };
    Some((pre, main, post))
}

/// Words joined by single spaces.
pub open spec fn joined(words: Seq<Seq<char>>) -> Seq<char>
    decreases words.len(),
{
    if words.len() == 0 {
        Seq::empty()
    } else if words.len() == 1 {
        words[0]
    } else {
        joined(words.drop_last()) + " "@ + words.last()
    }
}

/// The command line of a script with extra arguments appended.
pub open spec fn spec_full_command(script: Seq<char>, args: Seq<Seq<char>>) -> Seq<char> {
    if args.len() == 0 {
        script
    } else {
        script + " "@ + joined(args)
    }
}

/// Build the full command with args appended
pub fn full_command(script: &str, args: &[String]) -> (r: String)
    ensures
        r@ == spec_full_command(script@, crate::platform::views(args@)),
{
    let mut r = to_owned(script);
    let mut i: usize = 0;
    while i < args.len()
        invariant
            i <= args@.len(),
            r@ == spec_full_command(script@, crate::platform::views(args@).take(i as int)),
        decreases args@.len() - i,
    {
        push_str(&mut r, " ");
        push_str(&mut r, args[i].as_str());
        proof {
            let w = crate::platform::views(args@).take(i + 1);
            assert(w.drop_last() =~= crate::platform::views(args@).take(i as int));
            assert(w.last() == args@[i as int]@);
            if i == 0 {
                assert(joined(w) == args@[0]@);
            }
            assert(r@ =~= spec_full_command(script@, w));
        }
        i = i + 1;
    }
    assert(crate::platform::views(args@).take(i as int) =~= crate::platform::views(args@));
    r
}

/// `PATH` with a directory put first.
pub fn path_with_bin(bin_dir: &str, existing: &str) -> (r: String)
    ensures
        r@ == bin_dir@ + ":"@ + existing@,
{
    let mut r = concat(bin_dir, ":");
    push_str(&mut r, existing);
    r
}

// ---------------------------------------------------------------------------
// Lifecycle scripts
// ---------------------------------------------------------------------------

/// The lifecycle scripts a package defines, in the order they run: preinstall,
/// install, postinstall.
pub open spec fn spec_lifecycle(scripts: Map<Seq<char>, Seq<char>>) -> Seq<(Seq<char>, Seq<char>)> {
    let one = |n: Seq<char>|
        if scripts.contains_key(n) {
            seq![(n, scripts[n])]
        } else {
            Seq::empty()
        };
    one("preinstall"@) + one("install"@) + one("postinstall"@)
}

fn lifecycle_one(scripts: &StrMap<String>, name: &str, out: &mut Vec<(String, String)>)
    ensures
        final(out)@.map_values(|p: (String, String)| (p.0@, p.1@)) == old(out)@.map_values(
            |p: (String, String)| (p.0@, p.1@),
        ) + if scripts@.contains_key(name@) {
            seq![(name@, scripts@[name@])]
        } else {
            Seq::empty()
        },
{
    match scripts.get(name) {
        Some(s) => {
            out.push((to_owned(name), s.view_clone()));
        },
        None => {},
    }
    assert(out@.map_values(|p: (String, String)| (p.0@, p.1@)) =~= old(out)@.map_values(
        |p: (String, String)| (p.0@, p.1@),
    ) + if scripts@.contains_key(name@) {
        seq![(name@, scripts@[name@])]
    } else {
        Seq::empty()
    });
}

/// The lifecycle scripts to run for a package, by name and command.
pub fn lifecycle_scripts(scripts: &StrMap<String>) -> (r: Vec<(String, String)>)
    ensures
        r@.map_values(|p: (String, String)| (p.0@, p.1@)) == spec_lifecycle(scripts@),
{
    let mut r: Vec<(String, String)> = Vec::new();
    lifecycle_one(scripts, "preinstall", &mut r);
    lifecycle_one(scripts, "install", &mut r);
    lifecycle_one(scripts, "postinstall", &mut r);
    assert(r@.map_values(|p: (String, String)| (p.0@, p.1@)) =~= spec_lifecycle(scripts@));
    r
}

// ---------------------------------------------------------------------------
// Reports
// ---------------------------------------------------------------------------

/// The warning shown for an unmet peer dependency.
pub open spec fn spec_warning_text(
    package: (Seq<char>, Seq<char>),
    peer: Seq<char>,
    required: Seq<char>,
    found: Option<Seq<char>>,
) -> Seq<char> {
    match found {
        Some(f) => "WARN: "@ + spec_display(package) + " requires peer "@ + peer + " "@ + required
            + ", but "@ + f + " is installed"@,
        None => "WARN: "@ + spec_display(package) + " requires peer "@ + peer + " "@ + required
            + ", which is not installed"@,
    }
}

pub fn warning_text(w: &PeerWarning) -> (r: String)
    ensures
        r@ == spec_warning_text(
            w.package@,
            w.peer_name@,
            w.required@,
            match w.found {
                Some(f) => Some(f@),
                None => None,
            },
        ),
{
    let shown = w.package.to_string();
    let mut r = concat("WARN: ", shown.as_str());
    push_str(&mut r, " requires peer ");
    push_str(&mut r, w.peer_name.as_str());
    push_str(&mut r, " ");
    push_str(&mut r, w.required.as_str());
    match &w.found {
        Some(f) => {
            push_str(&mut r, ", but ");
            push_str(&mut r, f.as_str());
            push_str(&mut r, " is installed");
        },
        None => {
            push_str(&mut r, ", which is not installed");
        },
    }
    r
}

/// A dependency is reported by `outdated` when the wanted or the latest version is
/// not the current one.
pub fn is_outdated(current: &str, wanted: &str, latest: &str) -> (b: bool)
    ensures
        b == (wanted@ != current@ || latest@ != current@),
{
    !str_eq(wanted, current) || !str_eq(latest, current)
}

/// The width of a column: the longest entry (in characters), at least `min`.
pub fn column_width(entries: &Vec<String>, min: usize) -> (w: usize)
    ensures
        w >= min,
        forall|i: int| 0 <= i < entries@.len() ==> (#[trigger] entries@[i])@.len() <= w,
        w == min || exists|i: int| 0 <= i < entries@.len() && (#[trigger] entries@[i])@.len() == w,
{
    let mut w = min;
    let mut i: usize = 0;
    while i < entries.len()
        invariant
            i <= entries@.len(),
            w >= min,
            forall|j: int| 0 <= j < i ==> (#[trigger] entries@[j])@.len() <= w,
            w == min || exists|j: int| 0 <= j < i && (#[trigger] entries@[j])@.len() == w,
        decreases entries@.len() - i,
    {
        let n = entries[i].as_str().unicode_len();
        if n > w {
            w = n;
        }
        i = i + 1;
    }
    w
}

} // verus!
