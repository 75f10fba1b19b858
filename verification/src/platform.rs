//! Platform compatibility checking for npm packages.
//! Maps Rust's platform names to npm naming conventions.
use vstd::prelude::*;

use crate::text::{str_eq, to_owned};

verus! {

/// Platform information in npm's names
pub struct Platform {
    pub os: String,
    pub cpu: String,
}

/// npm's name for a Rust OS name.
pub open spec fn spec_map_os(rust_os: Seq<char>) -> Seq<char> {
    if rust_os == "macos"@ {
        "darwin"@
    } else if rust_os == "windows"@ {
        "win32"@
    } else if rust_os == "solaris"@ || rust_os == "illumos"@ {
        "sunos"@
    } else {
        // "linux", "freebsd", "openbsd", "android" and any other name map to themselves
        rust_os
    }
}

/// npm's name for a Rust CPU architecture name.
pub open spec fn spec_map_cpu(rust_arch: Seq<char>) -> Seq<char> {
    if rust_arch == "x86_64"@ {
        "x64"@
    } else if rust_arch == "x86"@ {
        "ia32"@
    } else if rust_arch == "aarch64"@ {
        "arm64"@
    } else if rust_arch == "powerpc64"@ {
        "ppc64"@
    } else if rust_arch == "mips64"@ {
        "mips64el"@
    } else {
        // "arm", "s390x", "mips" and any other name map to themselves
        rust_arch
    }
}

/// The constraint is a negation ("!win32").
pub open spec fn is_negation(c: Seq<char>) -> bool {
    c.len() > 0 && c[0] == '!'
}

/// Whether `value` meets a list of os/cpu constraints:
/// - an empty list always matches;
/// - a negated entry ("!win32") equal to the value after its "!" rejects the value;
/// - if there are plain entries, the value must equal one of them.
pub open spec fn spec_matches_constraint(value: Seq<char>, cs: Seq<Seq<char>>) -> bool {
    cs.len() == 0 || ((forall|i: int|
        0 <= i < cs.len() && is_negation(#[trigger] cs[i]) ==> cs[i].skip(1) != value) && ((
    forall|i: int| 0 <= i < cs.len() ==> is_negation(#[trigger] cs[i])) || exists|i: int|
        0 <= i < cs.len() && !is_negation(#[trigger] cs[i]) && cs[i] == value))
}

pub open spec fn views(v: Seq<String>) -> Seq<Seq<char>> {
    v.map_values(|s: String| s@)
}

/// Map Rust OS name to npm OS name
pub fn map_os(rust_os: &str) -> (r: String)
    ensures
        r@ == spec_map_os(rust_os@),
{
    if str_eq(rust_os, "macos") {
        to_owned("darwin")
    } else if str_eq(rust_os, "windows") {
        to_owned("win32")
    } else if str_eq(rust_os, "solaris") || str_eq(rust_os, "illumos") {
        to_owned("sunos")
    } else {
        to_owned(rust_os)
    }
}

/// Map Rust CPU architecture to npm CPU name
pub fn map_cpu(rust_arch: &str) -> (r: String)
    ensures
        r@ == spec_map_cpu(rust_arch@),
{
    if str_eq(rust_arch, "x86_64") {
        to_owned("x64")
    } else if str_eq(rust_arch, "x86") {
        to_owned("ia32")
    } else if str_eq(rust_arch, "aarch64") {
        to_owned("arm64")
    } else if str_eq(rust_arch, "powerpc64") {
        to_owned("ppc64")
    } else if str_eq(rust_arch, "mips64") {
        to_owned("mips64el")
    } else {
        to_owned(rust_arch)
    }
}

/// `c` with its leading "!" removed, if it has one.
fn strip_bang(c: &str) -> (r: Option<Vec<char>>)
    ensures
        r matches Some(v) ==> is_negation(c@) && v@ == c@.skip(1),
        r is None ==> !is_negation(c@),
{
    let v = crate::text::chars_of(c);
    if v.len() > 0 && v[0] == '!' {
        let t = crate::text::slice_vec(&v, 1, v.len());
        assert(t@ =~= c@.skip(1));
        Some(t)
    } else {
        None
    }
}

/// Check if a value matches a list of constraints.
/// - Empty list = no constraint (always matches)
/// - `["linux", "darwin"]` = must be one of these
/// - `["!win32"]` = must NOT be win32
pub fn matches_constraint(value: &str, constraints: &[String]) -> (r: bool)
    ensures
        r == spec_matches_constraint(value@, views(constraints@)),
{
    let ghost cs = views(constraints@);
    if constraints.len() == 0 {
        return true;
    }
    let vv = crate::text::chars_of(value);
    let mut has_positive = false;
    let mut positive_match = false;
    let mut i: usize = 0;
    while i < constraints.len()
        invariant
            i <= constraints@.len(),
            cs == views(constraints@),
            vv@ == value@,
            forall|j: int| 0 <= j < i && is_negation(#[trigger] cs[j]) ==> cs[j].skip(1) != value@,
            has_positive == exists|j: int| 0 <= j < i && !is_negation(#[trigger] cs[j]),
            positive_match == exists|j: int|
                0 <= j < i && !is_negation(#[trigger] cs[j]) && cs[j] == value@,
        decreases constraints@.len() - i,
    {
        let c = constraints[i].as_str();
        assert(cs[i as int] == c@);
        match strip_bang(c) {
            Some(negated) => {
                // Negation: if the value matches a negated constraint, it fails
                if crate::text::seq_eq(&negated, &vv) {
                    return false;
                }
            },
            None => {
                has_positive = true;
                if str_eq(c, value) {
                    positive_match = true;
                }
            },
        }
        i = i + 1;
    }
    // If there are positive constraints, the value must match at least one
    if has_positive {
        return positive_match;
    }
    // Only negation constraints, and none matched = OK
    true
}

impl Platform {
    /// The platform with the given Rust OS and architecture names, in npm's names.
    pub fn from_rust(rust_os: &str, rust_arch: &str) -> (p: Platform)
        ensures
            p.os@ == spec_map_os(rust_os@),
            p.cpu@ == spec_map_cpu(rust_arch@),
    {
        Platform { os: map_os(rust_os), cpu: map_cpu(rust_arch) }
    }

    /// Check if the current OS matches the package's os constraints.
    /// Empty constraints = no restriction. Supports negation with "!" prefix.
    pub fn matches_os(&self, constraints: &[String]) -> (r: bool)
        ensures
            r == spec_matches_constraint(self.os@, views(constraints@)),
    {
        matches_constraint(self.os.as_str(), constraints)
    }

    /// Check if the current CPU matches the package's cpu constraints.
    /// Empty constraints = no restriction. Supports negation with "!" prefix.
    pub fn matches_cpu(&self, constraints: &[String]) -> (r: bool)
        ensures
            r == spec_matches_constraint(self.cpu@, views(constraints@)),
    {
        matches_constraint(self.cpu.as_str(), constraints)
    }

    /// Check both os and cpu constraints at once.
    pub fn is_compatible(&self, os: Option<&Vec<String>>, cpu: Option<&Vec<String>>) -> (r: bool)
        ensures
            r == (spec_platform_compatible(self.os@, opt_views(os))
                && spec_platform_compatible(self.cpu@, opt_views(cpu))),
    {
        if let Some(os_constraints) = os {
            if os_constraints.len() != 0 && !self.matches_os(os_constraints.as_slice()) {
                return false;
            }
        }
        if let Some(cpu_constraints) = cpu {
            if cpu_constraints.len() != 0 && !self.matches_cpu(cpu_constraints.as_slice()) {
                return false;
            }
        }
        true
    }
}

pub open spec fn opt_views(o: Option<&Vec<String>>) -> Option<Seq<Seq<char>>> {
    match o {
        Some(v) => Some(views(v@)),
        None => None,
    }
}

/// A platform value meets an optional constraint list (absent means no restriction).
pub open spec fn spec_platform_compatible(value: Seq<char>, cs: Option<Seq<Seq<char>>>) -> bool {
    match cs {
        Some(c) => spec_matches_constraint(value, c),
        None => true,
    }
}

} // verus!
