//! The global content-addressable store (`~/.alchemy-store/`).
use vstd::prelude::*;

use crate::integrity::{sha256_bytes, sha256_digest};
use crate::paths::{path_join, spec_join};
use crate::text::push_char;

verus! {

/// Content-addressable store at ~/.alchemy-store/
pub struct ContentStore {
    base_dir: String,
}

/// The store directory under a home directory (`/tmp` when there is none).
pub open spec fn spec_default_store_dir(home: Option<Seq<char>>) -> Seq<char> {
    spec_join(
        match home {
            Some(h) => h,
            None => "/tmp"@,
        },
        ".alchemy-store"@,
    )
}

/// The directory of a package version inside a store.
pub open spec fn spec_package_dir(base: Seq<char>, name: Seq<char>, version: Seq<char>) -> Seq<
    char,
> {
    spec_join(spec_join(spec_join(base, "packages"@), name), version)
}

impl ContentStore {
    /// The store under the home directory `home` (`/tmp` when `HOME` is unset).
    pub fn new(home: Option<&str>) -> (s: ContentStore)
        ensures
            s.base_dir_view() == spec_default_store_dir(
                match home {
                    Some(h) => Some(h@),
                    None => None,
                },
            ),
    {
        let base = match home {
            Some(h) => path_join(h, ".alchemy-store"),
            None => path_join("/tmp", ".alchemy-store"),
        };
        ContentStore { base_dir: base }
    }

    pub fn with_base(base_dir: String) -> (s: ContentStore)
        ensures
            s.base_dir_view() == base_dir@,
    {
        ContentStore { base_dir }
    }

    /// The store's base directory, as a value.
    pub closed spec fn base_dir_view(&self) -> Seq<char> {
        self.base_dir@
    }

    /// Directory for a specific package version's extracted files
    pub fn package_dir(&self, name: &str, version: &str) -> (r: String)
        ensures
            r@ == spec_package_dir(self.base_dir_view(), name@, version@),
    {
        let p = path_join(self.base_dir.as_str(), "packages");
        let p = path_join(p.as_str(), name);
        path_join(p.as_str(), version)
    }

    /// Get the store base directory
    pub fn base_dir(&self) -> (r: &str)
        ensures
            r@ == self.base_dir_view(),
    {
        self.base_dir.as_str()
    }
}

/// The lower-case hexadecimal digit for `v < 16`.
pub open spec fn hex_digit(v: int) -> char {
    if v < 10 {
        (48 + v) as char
    } else {
        (97 + (v - 10)) as char
    }
}

/// Two lower-case hexadecimal digits per byte.
pub open spec fn spec_hex(bytes: Seq<u8>) -> Seq<char>
    decreases bytes.len(),
{
    if bytes.len() == 0 {
        Seq::empty()
    } else {
        let b = bytes.last() as int;
        spec_hex(bytes.drop_last()) + seq![hex_digit(b / 16), hex_digit(b % 16)]
    }
}

fn hex_digit_exec(v: u8) -> (c: char)
    requires
        v < 16,
    ensures
        c == hex_digit(v as int),
{
    if v < 10 {
        (48 + v) as char
    } else {
        (97 + (v - 10)) as char
    }
}

/// Lower-case hexadecimal, two digits per byte.
pub fn hex_encode(bytes: &[u8]) -> (r: String)
    ensures
        r@ == spec_hex(bytes@),
{
    let mut r = String::new();
    let mut i: usize = 0;
    while i < bytes.len()
        invariant
            i <= bytes@.len(),
            r@ == spec_hex(bytes@.take(i as int)),
        decreases bytes@.len() - i,
    {
        let b = bytes[i];
        push_char(&mut r, hex_digit_exec(b / 16));
        push_char(&mut r, hex_digit_exec(b % 16));
        assert(bytes@.take(i + 1).drop_last() =~= bytes@.take(i as int));
        i = i + 1;
    }
    assert(bytes@.take(i as int) =~= bytes@);
    r
}

/// Compute SHA-256 hash of file contents
pub fn sha256_hex(data: &[u8]) -> (r: String)
    ensures
        r@ == spec_hex(sha256_digest(data@)),
{
    let digest = sha256_bytes(data);
    hex_encode(digest.as_slice())
}

} // verus!
