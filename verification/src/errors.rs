//! Typed, recoverable failures. Every fallible operation of the marketplace
//! reports one of these; no operation aborts the process.

use vstd::prelude::*;

verus! {

/// The failure taxonomy of the marketplace. Each variant names the resource
/// that was missing or the limit that was hit; callers can always retry after
/// changing the inputs.
#[derive(Clone, Copy, Debug, PartialEq, Eq, Structural)]
pub enum StorageError {
    /// No client is registered under the given identity.
    ClientNotFound,
    /// No storage node is registered under the given identity.
    NodeNotFound,
    /// The named file is not indexed (or not stored) where it was looked for.
    FileNotFound,
    /// No deal matches the given (client, node, filename) triple.
    DealNotFound,
    /// The marketplace holds no offer at the given index.
    OfferNotFound,
    /// The paying account holds fewer tokens than the operation needs.
    InsufficientBalance,
    /// The spender's allowance is smaller than the requested transfer.
    InsufficientAllowance,
    /// A node's free space cannot hold the bytes being stored or reserved.
    CapacityExceeded,
    /// A marketplace offer advertises less space than was asked for.
    InsufficientSpace,
    /// Fewer nodes are registered than the requested replication factor.
    InsufficientNodes,
    /// Too few nodes outside the current replica set are registered.
    InsufficientAdditionalNodes,
    /// A requested replication factor does not exceed the current one.
    InvalidReplicationFactor,
}

} // verus!
