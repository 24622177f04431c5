//! Authentication core for a small multi-tenant streaming-player backend:
//! claims with two legitimate shapes (administrator and end user), a signed
//! token codec over them, the bearer-header extractors that gate every
//! request, and the two login decisions. The surrounding program — HTTP
//! routing and the user store — lives outside and hands the library plain
//! values.
pub mod b64;
pub mod claims;
pub mod codec;
pub mod config;
pub mod ext;
pub mod extract;
pub mod login;
pub mod models;
pub mod num;
pub mod payload;

use vstd::prelude::*;

verus! {

/// Copies the bytes of `v` in the index range `a..b`.
pub fn copy_range(v: &Vec<u8>, a: usize, b: usize) -> (r: Vec<u8>)
    requires
        a <= b <= v@.len(),
    ensures
        r@ == v@.subrange(a as int, b as int),
{
    let mut out: Vec<u8> = Vec::new();
    let mut i: usize = a;
    while i < b
        invariant
            a <= i <= b <= v@.len(),
            out@ == v@.subrange(a as int, i as int),
        decreases b - i,
    {
        out.push(v[i]);
        proof {
            assert(out@ =~= v@.subrange(a as int, i + 1));
        }
        i += 1;
    }
    out
}

} // verus!
