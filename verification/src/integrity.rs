//! Subresource-integrity strings ("sha512-<base64>", "sha256-<base64>").
use vstd::prelude::*;

use sha2::{Digest, Sha256, Sha512};

use crate::text::{chars_of, concat, has_prefix, has_prefix_exec, push_char, seq_eq, slice_vec};

verus! {

// ---------------------------------------------------------------------------
// Digests (sha2)
// ---------------------------------------------------------------------------

/// The SHA-512 digest of `data`.
pub uninterp spec fn sha512_digest(data: Seq<u8>) -> Seq<u8>;

/// The SHA-256 digest of `data`.
pub uninterp spec fn sha256_digest(data: Seq<u8>) -> Seq<u8>;

/// `sha2::Sha512::digest`: the 64-byte SHA-512 digest of `data`, a function of
/// `data` alone.
#[verifier::external_body]
pub(crate) fn sha512_bytes(data: &[u8]) -> (r: Vec<u8>)
    ensures
        r@ == sha512_digest(data@),
        r@.len() == 64,
{
    Sha512::digest(data).to_vec()
}

/// `sha2::Sha256::digest`: the 32-byte SHA-256 digest of `data`, a function of
/// `data` alone.
#[verifier::external_body]
pub(crate) fn sha256_bytes(data: &[u8]) -> (r: Vec<u8>)
    ensures
        r@ == sha256_digest(data@),
        r@.len() == 32,
{
    Sha256::digest(data).to_vec()
}

// ---------------------------------------------------------------------------
// Base64 (standard alphabet, '=' padding)
// ---------------------------------------------------------------------------

/// The base64 digit for a 6-bit value.
pub open spec fn b64_digit(v: int) -> char {
    if v < 26 {
        (65 + v) as char
    } else if v < 52 {
        (97 + (v - 26)) as char
    } else if v < 62 {
        (48 + (v - 52)) as char
    } else if v == 62 {
        '+'
    } else {
        '/'
    }
}

/// The four characters that encode a group of one to three bytes.
pub open spec fn b64_group(g: Seq<u8>) -> Seq<char> {
    let b0 = g[0] as int;
    let b1: int = if g.len() > 1 {
        g[1] as int
    } else {
        0
    };
    let b2: int = if g.len() > 2 {
        g[2] as int
    } else {
        0
    };
    seq![
        b64_digit(b0 / 4),
        b64_digit((b0 % 4) * 16 + b1 / 16),
        if g.len() > 1 {
            b64_digit((b1 % 16) * 4 + b2 / 64)
        } else {
            '='
        },
        if g.len() > 2 {
            b64_digit(b2 % 64)
        } else {
            '='
        },
    ]
}

/// The `m`-th group of three bytes of `d` (the last one may be shorter).
pub open spec fn group_of(d: Seq<u8>, m: int) -> Seq<u8> {
    d.subrange(3 * m, if 3 * m + 3 <= d.len() {
        3 * m + 3
    } else {
        d.len() as int
    })
}

/// The encoding of the first `m` groups of `d`.
pub open spec fn b64_groups(d: Seq<u8>, m: nat) -> Seq<char>
    decreases m,
{
    if m == 0 {
        Seq::empty()
    } else {
        b64_groups(d, (m - 1) as nat) + b64_group(group_of(d, m - 1))
    }
}

/// The number of groups of three bytes, the last one possibly shorter.
pub open spec fn group_count(n: nat) -> nat {
    (n + 2) / 3
}

/// Standard base64 with padding.
pub open spec fn spec_base64(d: Seq<u8>) -> Seq<char> {
    b64_groups(d, group_count(d.len()))
}

/// The digit for `v < 64`.
fn b64_digit_exec(v: u8) -> (c: char)
    requires
        v < 64,
    ensures
        c == b64_digit(v as int),
{
    if v < 26 {
        (65 + v) as char
    } else if v < 52 {
        (97 + (v - 26)) as char
    } else if v < 62 {
        (48 + (v - 52)) as char
    } else if v == 62 {
        '+'
    } else {
        '/'
    }
}

fn base64_encode(data: &[u8]) -> (r: String)
    ensures
        r@ == spec_base64(data@),
{
    let len = data.len();
    let groups: usize = len / 3 + if len % 3 > 0 {
        1
    } else {
        0
    };
    assert(groups == group_count(len as nat));
    let mut result = String::new();
    let mut m: usize = 0;
    while m < groups
        invariant
            m <= groups == group_count(len as nat),
            len == data@.len(),
            result@ == b64_groups(data@, m as nat),
        decreases groups - m,
    {
        assert(3 * m < len) by (nonlinear_arith)
            requires
                m < groups,
                groups == len / 3 + if len % 3 > 0 {
                    1int
                } else {
                    0int
                },
        ;
        let i = 3 * m;
        let ghost g = group_of(data@, m as int);
        let b0 = data[i];
        let b1 = if i + 1 < len {
            data[i + 1]
        } else {
            0
        };
        let b2 = if i + 2 < len {
            data[i + 2]
        } else {
            0
        };
        push_char(&mut result, b64_digit_exec(b0 / 4));
        push_char(&mut result, b64_digit_exec((b0 % 4) * 16 + b1 / 16));
        if i + 1 < len {
            push_char(&mut result, b64_digit_exec((b1 % 16) * 4 + b2 / 64));
        } else {
            push_char(&mut result, '=');
        }
        if i + 2 < len {
            push_char(&mut result, b64_digit_exec(b2 % 64));
        } else {
            push_char(&mut result, '=');
        }
        assert(g.len() > 1 <==> i + 1 < len);
        assert(g.len() > 2 <==> i + 2 < len);
        assert(result@ =~= b64_groups(data@, m as nat) + b64_group(g));
        m = m + 1;
    }
    result
}

// ---------------------------------------------------------------------------
// Integrity strings
// ---------------------------------------------------------------------------

/// The check that `verify_integrity` makes of `data` against `expected`.
pub open spec fn spec_verify_integrity(data: Seq<u8>, expected: Seq<char>) -> bool {
    if has_prefix(expected, "sha512-"@) {
        spec_base64(sha512_digest(data)) == expected.skip(7)
    } else if has_prefix(expected, "sha256-"@) {
        spec_base64(sha256_digest(data)) == expected.skip(7)
    } else {
        false
    }
}

/// The SHA-512 integrity string of `data`.
pub open spec fn spec_integrity_sha512(data: Seq<u8>) -> Seq<char> {
    "sha512-"@ + spec_base64(sha512_digest(data))
}

/// The SHA-256 integrity string of `data`.
pub open spec fn spec_integrity_sha256(data: Seq<u8>) -> Seq<char> {
    "sha256-"@ + spec_base64(sha256_digest(data))
}

/// Verify integrity of data against an SRI hash string.
/// Supports "sha512-<base64>" and "sha256-<base64>" formats.
/// Returns false for unsupported or malformed hash types (fail closed).
pub fn verify_integrity(data: &[u8], expected: &str) -> (r: bool)
    ensures
        r == spec_verify_integrity(data@, expected@),
{
    proof {
        reveal_strlit("sha512-");
        reveal_strlit("sha256-");
    }
    let ev = chars_of(expected);
    let p512 = chars_of("sha512-");
    let p256 = chars_of("sha256-");
    if has_prefix_exec(&ev, &p512) {
        let hash = slice_vec(&ev, 7, ev.len());
        let digest = sha512_bytes(data);
        let computed = base64_encode(digest.as_slice());
        let cv = chars_of(computed.as_str());
        assert(hash@ =~= expected@.skip(7));
        seq_eq(&cv, &hash)
    } else if has_prefix_exec(&ev, &p256) {
        let hash = slice_vec(&ev, 7, ev.len());
        let digest = sha256_bytes(data);
        let computed = base64_encode(digest.as_slice());
        let cv = chars_of(computed.as_str());
        assert(hash@ =~= expected@.skip(7));
        seq_eq(&cv, &hash)
    } else {
        false
    }
}

/// Compute SHA-512 integrity in SRI format (preferred; matches npm default).
pub fn compute_integrity(data: &[u8]) -> (r: String)
    ensures
        r@ == spec_integrity_sha512(data@),
{
    let digest = sha512_bytes(data);
    let b64 = base64_encode(digest.as_slice());
    concat("sha512-", b64.as_str())
}

/// Compute SHA-256 integrity in SRI format.
pub fn compute_integrity_sha256(data: &[u8]) -> (r: String)
    ensures
        r@ == spec_integrity_sha256(data@),
{
    let digest = sha256_bytes(data);
    let b64 = base64_encode(digest.as_slice());
    concat("sha256-", b64.as_str())
}

// ---------------------------------------------------------------------------
// Laws
// ---------------------------------------------------------------------------

/// An SHA-512 integrity string computed from some data verifies that data.
pub proof fn lemma_sha512_integrity_verifies(data: Seq<u8>)
    ensures
        spec_verify_integrity(data, spec_integrity_sha512(data)),
{
    reveal_strlit("sha512-");
    let s = spec_integrity_sha512(data);
    assert(s.subrange(0, 7) =~= "sha512-"@);
    assert(s.skip(7) =~= spec_base64(sha512_digest(data)));
}

/// An SHA-256 integrity string computed from some data verifies that data.
pub proof fn lemma_sha256_integrity_verifies(data: Seq<u8>)
    ensures
        spec_verify_integrity(data, spec_integrity_sha256(data)),
{
    reveal_strlit("sha512-");
    reveal_strlit("sha256-");
    let s = spec_integrity_sha256(data);
    assert(s.subrange(0, 7) =~= "sha256-"@);
    assert(s[3] != "sha512-"@[3]);
    assert(!has_prefix(s, "sha512-"@));
    assert(s.skip(7) =~= spec_base64(sha256_digest(data)));
}

/// Data verifies against the SHA-512 integrity string of other data only when
/// the two have the same SHA-512 digest.
pub proof fn lemma_sha512_integrity_detects_change(data: Seq<u8>, source: Seq<u8>)
    requires
        spec_verify_integrity(data, spec_integrity_sha512(source)),
    ensures
        sha512_digest(data) == sha512_digest(source),
{
    reveal_strlit("sha512-");
    let s = spec_integrity_sha512(source);
    assert(s.subrange(0, 7) =~= "sha512-"@);
    assert(s.skip(7) =~= spec_base64(sha512_digest(source)));
    lemma_base64_injective(sha512_digest(data), sha512_digest(source));
}

/// Data verifies against the SHA-256 integrity string of other data only when
/// the two have the same SHA-256 digest.
pub proof fn lemma_sha256_integrity_detects_change(data: Seq<u8>, source: Seq<u8>)
    requires
        spec_verify_integrity(data, spec_integrity_sha256(source)),
    ensures
        sha256_digest(data) == sha256_digest(source),
{
    reveal_strlit("sha512-");
    reveal_strlit("sha256-");
    let s = spec_integrity_sha256(source);
    assert(s.subrange(0, 7) =~= "sha256-"@);
    assert(s[3] != "sha512-"@[3]);
    assert(s.skip(7) =~= spec_base64(sha256_digest(source)));
    lemma_base64_injective(sha256_digest(data), sha256_digest(source));
}

/// Integrity strings of an unknown kind never verify.
pub proof fn lemma_unknown_kind_fails(data: Seq<u8>, expected: Seq<char>)
    requires
        !has_prefix(expected, "sha512-"@),
        !has_prefix(expected, "sha256-"@),
    ensures
        !spec_verify_integrity(data, expected),
{
}

proof fn lemma_digit_injective(v: int, w: int)
    requires
        0 <= v < 64,
        0 <= w < 64,
        b64_digit(v) == b64_digit(w),
    ensures
        v == w,
{
}

proof fn lemma_digit_not_pad(v: int)
    requires
        0 <= v < 64,
    ensures
        b64_digit(v) != '=',
{
}

proof fn lemma_group_injective(g: Seq<u8>, h: Seq<u8>)
    requires
        1 <= g.len() <= 3,
        1 <= h.len() <= 3,
        b64_group(g) == b64_group(h),
    ensures
        g == h,
{
    let eg = b64_group(g);
    let eh = b64_group(h);
    let g0 = g[0] as int;
    let h0 = h[0] as int;
    let g1: int = if g.len() > 1 { g[1] as int } else { 0 };
    let h1: int = if h.len() > 1 { h[1] as int } else { 0 };
    let g2: int = if g.len() > 2 { g[2] as int } else { 0 };
    let h2: int = if h.len() > 2 { h[2] as int } else { 0 };
    assert(eg[0] == eh[0]);
    assert(eg[1] == eh[1]);
    assert(eg[2] == eh[2]);
    assert(eg[3] == eh[3]);
    lemma_digit_injective(g0 / 4, h0 / 4);
    lemma_digit_injective((g0 % 4) * 16 + g1 / 16, (h0 % 4) * 16 + h1 / 16);
    if g.len() > 1 {
        lemma_digit_not_pad((g1 % 16) * 4 + g2 / 64);
    }
    if h.len() > 1 {
        lemma_digit_not_pad((h1 % 16) * 4 + h2 / 64);
    }
    if g.len() > 2 {
        lemma_digit_not_pad(g2 % 64);
    }
    if h.len() > 2 {
        lemma_digit_not_pad(h2 % 64);
    }
    assert(g.len() == h.len());
    if g.len() > 1 {
        lemma_digit_injective((g1 % 16) * 4 + g2 / 64, (h1 % 16) * 4 + h2 / 64);
    }
    if g.len() > 2 {
        lemma_digit_injective(g2 % 64, h2 % 64);
    }
    assert(g0 == h0);
    assert(g1 == h1);
    assert(g2 == h2);
    assert(g =~= h);
}

proof fn lemma_groups_len(d: Seq<u8>, m: nat)
    ensures
        b64_groups(d, m).len() == 4 * m,
    decreases m,
{
    if m > 0 {
        lemma_groups_len(d, (m - 1) as nat);
    }
}

proof fn lemma_groups_prefix(d: Seq<u8>, m: nat, k: nat)
    requires
        k <= m,
    ensures
        b64_groups(d, m).subrange(0, 4 * k as int) == b64_groups(d, k),
    decreases m,
{
    lemma_groups_len(d, m);
    lemma_groups_len(d, k);
    if k < m {
        lemma_groups_prefix(d, (m - 1) as nat, k);
        lemma_groups_len(d, (m - 1) as nat);
        assert(b64_groups(d, m).subrange(0, 4 * k as int) =~= b64_groups(d, (m - 1) as nat).subrange(
            0,
            4 * k as int,
        ));
    } else {
        assert(b64_groups(d, m).subrange(0, 4 * k as int) =~= b64_groups(d, k));
    }
}

/// The characters of group `k` within the encoding of the first `m` groups.
proof fn lemma_groups_at(d: Seq<u8>, m: nat, k: nat)
    requires
        k < m,
    ensures
        b64_groups(d, m).subrange(4 * k as int, (4 * k + 4) as int) == b64_group(group_of(d, k as int)),
{
    lemma_groups_prefix(d, m, (k + 1) as nat);
    lemma_groups_len(d, k);
    lemma_groups_len(d, m);
    lemma_groups_len(d, (k + 1) as nat);
    assert(b64_groups(d, (k + 1) as nat) == b64_groups(d, m).subrange(0, 4 * (k + 1) as int));
    assert(b64_groups(d, m).subrange(4 * k as int, (4 * k + 4) as int) =~= b64_groups(d, (k + 1) as nat).subrange(
        4 * k as int,
        (4 * k + 4) as int,
    ));
    assert(b64_groups(d, (k + 1) as nat).subrange(4 * k as int, (4 * k + 4) as int) =~= b64_group(
        group_of(d, k as int),
    ));
}

/// Different byte strings have different encodings.
pub proof fn lemma_base64_injective(a: Seq<u8>, b: Seq<u8>)
    requires
        spec_base64(a) == spec_base64(b),
    ensures
        a == b,
{
    let ma = group_count(a.len());
    let mb = group_count(b.len());
    lemma_groups_len(a, ma);
    lemma_groups_len(b, mb);
    assert(ma == mb);
    let m = ma;
    if m == 0 {
        assert(a.len() == 0 && b.len() == 0);
        assert(a =~= b);
    } else {
        assert forall|k: int| 0 <= k < m implies #[trigger] group_of(a, k) == group_of(b, k) by {
            lemma_groups_at(a, m, k as nat);
            lemma_groups_at(b, m, k as nat);
            assert(3 * k < a.len() && 3 * k < b.len()) by (nonlinear_arith)
                requires
                    0 <= k < m,
                    m == (a.len() + 2) / 3,
                    m == (b.len() + 2) / 3,
            ;
            lemma_group_injective(group_of(a, k), group_of(b, k));
        }
        let last = m - 1;
        assert(group_of(a, last) == group_of(b, last));
        assert(3 * last < a.len() <= 3 * last + 3 && 3 * last < b.len() <= 3 * last + 3)
            by (nonlinear_arith)
            requires
                last == m - 1,
                m >= 1,
                m == (a.len() + 2) / 3,
                m == (b.len() + 2) / 3,
        ;
        assert(a.len() == b.len());
        assert forall|i: int| 0 <= i < a.len() implies a[i] == b[i] by {
            let k = i / 3;
            assert(0 <= k < m && 3 * k <= i < 3 * k + 3) by (nonlinear_arith)
                requires
                    0 <= i < a.len(),
                    k == i / 3,
                    m == (a.len() + 2) / 3,
            ;
            assert(group_of(a, k) == group_of(b, k));
            assert(group_of(a, k)[i - 3 * k] == a[i]);
            assert(group_of(b, k)[i - 3 * k] == b[i]);
        }
        assert(a =~= b);
    }
}

} // verus!
