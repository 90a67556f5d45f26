//! A simulated decentralized storage marketplace: clients pay storage nodes
//! to hold named blobs under time-bounded deals, with a token ledger, a
//! capacity marketplace, and configurable replication.

pub mod client;
pub mod errors;
pub mod erc20;
pub mod network;
mod rng;
pub mod storage_node;

pub use client::Client;
pub use errors::StorageError;
pub use erc20::ERC20;
pub use network::DebugLevel;
pub use network::Network;
pub use storage_node::StorageNode;

use vstd::prelude::*;

verus! {

/// Number of bytes in one GiB, the pricing unit of the marketplace.
pub const GIB: u64 = 0x4000_0000;

/// Price unit: number of whole GiB needed to hold `size` bytes.
pub open spec fn spec_size_in_gib(size: nat) -> nat {
    if size == 0 {
        0
    } else {
        ((size - 1) / (GIB as int) + 1) as nat
    }
}

/// Rounds a byte count up to whole GiB, the unit all storage prices use.
pub fn size_in_gib(size: usize) -> (r: u64)
    ensures
        r == spec_size_in_gib(size as nat),
{
    if size == 0 {
        0
    } else {
        ((size as u64 - 1) / GIB) + 1
    }
}

} // verus!
