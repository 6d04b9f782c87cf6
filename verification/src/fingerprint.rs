//! The digest that a run reports.

use vstd::prelude::*;
use crate::lcg;
use crate::sha2::Sha256;

verus! {

/// The SHA-256 digest of the first 32 entries of the shuffle table.
pub fn table_digest() -> (digest: [u8; 32])
    ensures
        digest@ == crate::sha2_model::sha256(lcg::rand_bytes().take(32)),
{
    let table: [u8; 256] = lcg::rand_table();
    let mut hasher: Sha256 = Sha256::new();
    hasher.update(vstd::slice::slice_subrange(table.as_slice(), 0, 32));
    assert(hasher@ =~= lcg::rand_bytes().take(32));
    hasher.finalize()
}

} // verus!
