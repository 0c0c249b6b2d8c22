//! Single-parity erasure coding over in-memory byte buffers.
use vstd::prelude::*;

pub mod phase1_xor_parity;

verus! {

} // verus!
