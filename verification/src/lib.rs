//! A byzantine-fault-tolerant JSON CRDT library.
//!
//! Mutually distrusting replicas edit a shared, nested JSON document
//! concurrently and converge to an identical value. Every mutation travels
//! as a content-addressed operation record inside a signed envelope; forged,
//! tampered or replayed envelopes are detected and rejected.
use vstd::prelude::*;

pub mod json_crdt;
pub mod laws;
pub mod list_crdt;
pub mod keypair;
pub mod lww_crdt;
pub mod op;
pub mod value;

verus! {

/// Bytes compared for equality give exactly view equality.
pub fn bytes_eq(a: &Vec<u8>, b: &Vec<u8>) -> (r: bool)
    ensures
        r == (a@ == b@),
{
    let r = a == b;
    proof {
        if r {
            assert(a@ =~= b@);
        }
    }
    r
}

} // verus!
