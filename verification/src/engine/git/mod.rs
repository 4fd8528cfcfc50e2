//! What the engine computes about git objects: walk decisions, diff
//! policies and line counts. Reading the repository is done by the caller.

pub mod blob;
pub mod diff;
pub mod topo;
pub mod walk;

use vstd::prelude::*;
use crate::engine::error::EngineError;
use crate::engine::model::Oid;

verus! {

broadcast use vstd::array::group_array_axioms;

/// An object id of exactly 20 bytes (SHA-1); any other length is an
/// unsupported hash.
pub fn oid20(bytes: &[u8]) -> (r: Result<Oid, EngineError>)
    ensures
        bytes@.len() == 20 <==> r is Ok,
        r matches Ok(o) ==> o@ == bytes@,
        r matches Err(e) ==> e == EngineError::UnsupportedHash,
{
    if bytes.len() != 20 {
        return Err(EngineError::UnsupportedHash);
    }
    let mut out: Oid = [0u8; 20];
    let mut i: usize = 0;
    while i < 20
        invariant
            bytes@.len() == 20,
            i <= 20,
            forall|k: int| 0 <= k < i ==> out@[k] == bytes@[k],
        decreases 20 - i,
    {
        out[i] = bytes[i];
        i = i + 1;
    }
    assert(out@ =~= bytes@);
    Ok(out)
}

} // verus!
