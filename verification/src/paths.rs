//! File-system paths as text, joined as `Path::join` does on Unix.
use vstd::prelude::*;

use crate::text::{chars_of, concat, push_str, to_owned};

verus! {

/// `Path::join` on Unix: an absolute `rel` replaces `base`; otherwise a `/` is put
/// between them unless `base` is empty or already ends with one.
pub open spec fn spec_join(base: Seq<char>, rel: Seq<char>) -> Seq<char> {
    if rel.len() > 0 && rel[0] == '/' {
        rel
    } else if base.len() == 0 {
        rel
    } else if base.last() == '/' {
        base + rel
    } else {
        base + "/"@ + rel
    }
}

/// `Path::join`.
pub fn path_join(base: &str, rel: &str) -> (r: String)
    ensures
        r@ == spec_join(base@, rel@),
{
    let rv = chars_of(rel);
    let bv = chars_of(base);
    if rv.len() > 0 && rv[0] == '/' {
        to_owned(rel)
    } else if bv.len() == 0 {
        to_owned(rel)
    } else if bv[bv.len() - 1] == '/' {
        concat(base, rel)
    } else {
        let mut r = concat(base, "/");
        push_str(&mut r, rel);
        r
    }
}

} // verus!
