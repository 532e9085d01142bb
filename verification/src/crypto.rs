//! The identity under which a node signs the revocations it submits.

use vstd::prelude::*;

verus! {

/// The key type of the accounts that sign for the peer liveness monitor.
pub const KEY_TYPE: [u8; 4] = [98, 99, 100, 110];

/// Marks the signing identity of the peer liveness monitor.
pub struct TestAuthId;

} // verus!
