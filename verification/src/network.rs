//! The orchestrator: one owner of the token ledger, the storage nodes, the
//! clients' replica indexes, the deal registry and the capacity marketplace,
//! keeping them mutually consistent across upload, download, replication,
//! renewal, expiry and offer acceptance.
//!
//! Identities are plain `u64` values handed in by the caller; time is a
//! caller-supplied clock reading in seconds. Node and client registries are
//! kept in insertion order with pairwise-distinct identities.

use vstd::prelude::*;

use crate::client::Client;
use crate::client::nodes_distinct;
use crate::erc20::ERC20;
use crate::errors::StorageError;
use crate::storage_node::StorageNode;
use crate::storage_node::MAX_STORAGE;
use crate::storage_node::sum_sizes;
use crate::spec_size_in_gib;
use crate::size_in_gib;
use vstd::string::StringExecFns;

verus! {

/// Lifetime of every new deal, in seconds (24 hours).
pub const DEAL_DURATION_SECS: u64 = 24 * 60 * 60;

/// How chatty the orchestrator is allowed to be. The verified core never
/// prints; presentation layers read this level through `is_enabled`.
#[derive(Clone, Copy, Debug)]
pub enum DebugLevel {
    Off,
    Low,
    High,
}

impl DebugLevel {
    /// Whether any debug output is wanted at this level.
    pub fn is_enabled(&self) -> (r: bool)
        ensures
            r == !(*self is Off),
    {
        match self {
            DebugLevel::Off => false,
            DebugLevel::Low => true,
            DebugLevel::High => true,
        }
    }
}

/// A priced storage bid, queued per filename.
pub struct Bid {
    pub storage_node_id: u64,
    pub price_per_gb: u64,
}

impl Bid {
    /// Creates a bid for the given node at the given price.
    pub fn new(storage_node_id: u64, price_per_gb: u64) -> (r: Bid)
        ensures
            r.storage_node_id == storage_node_id,
            r.price_per_gb == price_per_gb,
    {
        Bid { storage_node_id, price_per_gb }
    }
}

/// Advertised, priced, unallocated capacity on a node; queued FIFO in the
/// marketplace and independent of any active deal.
#[derive(Clone, Copy)]
pub struct StorageOffer {
    pub storage_node_id: u64,
    pub price_per_gb: u64,
    pub available_space: usize,
}

/// A time-bounded storage lease linking one client, one node and one
/// filename.
pub struct Deal {
    pub client_id: u64,
    pub storage_node_id: u64,
    pub filename: String,
    pub start_time: u64,
    pub duration: u64,
}

impl Deal {
    /// Opens a lease starting at the supplied clock reading.
    pub fn new(client_id: u64, storage_node_id: u64, filename: String, duration: u64, now: u64) -> (r:
        Deal)
        ensures
            r.client_id == client_id,
            r.storage_node_id == storage_node_id,
            r.filename == filename,
            r.start_time == now,
            r.duration == duration,
    {
        Deal { client_id, storage_node_id, filename, start_time: now, duration }
    }

    /// Reads the lease's start time.
    pub fn start_time(&self) -> (r: u64)
        ensures
            r == self.start_time,
    {
        self.start_time
    }
}

/// The node registry holds pairwise-distinct identities.
pub open spec fn node_ids_distinct(s: Seq<StorageNode>) -> bool {
    forall|i: int, j: int| 0 <= i < j < s.len() ==> s[i].peer_id != s[j].peer_id
}

/// Some registered node carries this identity.
pub open spec fn has_node_in(s: Seq<StorageNode>, id: u64) -> bool {
    exists|i: int| 0 <= i < s.len() && s[i].peer_id == id
}

/// The registered node carrying `id`.
pub open spec fn spec_node_in(s: Seq<StorageNode>, id: u64) -> StorageNode {
    s[choose|i: int| 0 <= i < s.len() && s[i].peer_id == id]
}

/// With distinct identities, the node registered under the identity at
/// index `i` is the node at index `i`.
pub proof fn lemma_node_at(s: Seq<StorageNode>, i: int)
    requires
        node_ids_distinct(s),
        0 <= i < s.len(),
    ensures
        has_node_in(s, s[i].peer_id),
        spec_node_in(s, s[i].peer_id) == s[i],
{
    assert(has_node_in(s, s[i].peer_id));
    let j = choose|j: int| 0 <= j < s.len() && s[j].peer_id == s[i].peer_id;
    if i < j {
        assert(s[i].peer_id != s[j].peer_id);
    } else if j < i {
        assert(s[j].peer_id != s[i].peer_id);
    }
}

/// An update that keeps the identity at its index preserves distinctness
/// and every other identity's node.
pub proof fn lemma_node_update_same_id(s: Seq<StorageNode>, t: Seq<StorageNode>, i: int)
    requires
        node_ids_distinct(s),
        0 <= i < s.len(),
        t == s.update(i, t[i]),
        t[i].peer_id == s[i].peer_id,
    ensures
        node_ids_distinct(t),
        has_node_in(t, s[i].peer_id),
        spec_node_in(t, s[i].peer_id) == t[i],
        forall|id: u64|
            id != s[i].peer_id ==> has_node_in(t, id) == has_node_in(s, id) && (has_node_in(s, id)
                ==> spec_node_in(t, id) == spec_node_in(s, id)),
{
    assert(forall|k: int| 0 <= k < t.len() ==> t[k].peer_id == s[k].peer_id);
    lemma_node_at(t, i);
    assert forall|id: u64| id != s[i].peer_id implies has_node_in(t, id) == has_node_in(s, id) && (
    has_node_in(s, id) ==> spec_node_in(t, id) == spec_node_in(s, id)) by {
        if has_node_in(s, id) {
            let k = choose|k: int| 0 <= k < s.len() && s[k].peer_id == id;
            lemma_node_at(s, k);
            assert(t[k] == s[k]);
            lemma_node_at(t, k);
        } else if has_node_in(t, id) {
            let k = choose|k: int| 0 <= k < t.len() && t[k].peer_id == id;
            assert(s[k] == t[k]);
            assert(has_node_in(s, id));
        }
    }
}

/// Pushing a node whose identity is absent preserves distinctness, registers
/// it, and keeps every other identity's node.
pub proof fn lemma_node_push_new_id(s: Seq<StorageNode>, t: Seq<StorageNode>)
    requires
        node_ids_distinct(s),
        t.len() == s.len() + 1,
        !has_node_in(s, t.last().peer_id),
        t == s.push(t.last()),
    ensures
        node_ids_distinct(t),
        has_node_in(t, t.last().peer_id),
        spec_node_in(t, t.last().peer_id) == t.last(),
        forall|id: u64|
            id != t.last().peer_id ==> has_node_in(t, id) == has_node_in(s, id) && (has_node_in(
                s,
                id,
            ) ==> spec_node_in(t, id) == spec_node_in(s, id)),
{
    assert(forall|k: int| 0 <= k < s.len() ==> t[k] == s[k]);
    assert(node_ids_distinct(t)) by {
        assert forall|i: int, j: int| 0 <= i < j < t.len() implies t[i].peer_id != t[j].peer_id by {
            if j == t.len() - 1 {
                if s[i].peer_id == t.last().peer_id {
                    assert(has_node_in(s, t.last().peer_id));
                }
            }
        }
    }
    lemma_node_at(t, t.len() - 1);
    assert forall|id: u64| id != t.last().peer_id implies has_node_in(t, id) == has_node_in(s, id)
        && (has_node_in(s, id) ==> spec_node_in(t, id) == spec_node_in(s, id)) by {
        if has_node_in(s, id) {
            let k = choose|k: int| 0 <= k < s.len() && s[k].peer_id == id;
            lemma_node_at(s, k);
            lemma_node_at(t, k);
        } else if has_node_in(t, id) {
            let k = choose|k: int| 0 <= k < t.len() && t[k].peer_id == id;
            assert(s[k] == t[k]);
            assert(has_node_in(s, id));
        }
    }
}

/// The client registry holds pairwise-distinct identities.
pub open spec fn client_ids_distinct(s: Seq<Client>) -> bool {
    forall|i: int, j: int| 0 <= i < j < s.len() ==> s[i].peer_id != s[j].peer_id
}

/// Some registered client carries this identity.
pub open spec fn has_client_in(s: Seq<Client>, id: u64) -> bool {
    exists|i: int| 0 <= i < s.len() && s[i].peer_id == id
}

/// The registered client carrying `id`.
pub open spec fn spec_client_in(s: Seq<Client>, id: u64) -> Client {
    s[choose|i: int| 0 <= i < s.len() && s[i].peer_id == id]
}

/// With distinct identities, the client registered under the identity at
/// index `i` is the client at index `i`.
pub proof fn lemma_client_at(s: Seq<Client>, i: int)
    requires
        client_ids_distinct(s),
        0 <= i < s.len(),
    ensures
        has_client_in(s, s[i].peer_id),
        spec_client_in(s, s[i].peer_id) == s[i],
{
    assert(has_client_in(s, s[i].peer_id));
    let j = choose|j: int| 0 <= j < s.len() && s[j].peer_id == s[i].peer_id;
    if i < j {
        assert(s[i].peer_id != s[j].peer_id);
    } else if j < i {
        assert(s[j].peer_id != s[i].peer_id);
    }
}

/// An update that keeps the identity at its index preserves distinctness
/// and every other identity's client.
pub proof fn lemma_client_update_same_id(s: Seq<Client>, t: Seq<Client>, i: int)
    requires
        client_ids_distinct(s),
        0 <= i < s.len(),
        t == s.update(i, t[i]),
        t[i].peer_id == s[i].peer_id,
    ensures
        client_ids_distinct(t),
        has_client_in(t, s[i].peer_id),
        spec_client_in(t, s[i].peer_id) == t[i],
        forall|id: u64|
            id != s[i].peer_id ==> has_client_in(t, id) == has_client_in(s, id) && (has_client_in(
                s,
                id,
            ) ==> spec_client_in(t, id) == spec_client_in(s, id)),
{
    assert(forall|k: int| 0 <= k < t.len() ==> t[k].peer_id == s[k].peer_id);
    lemma_client_at(t, i);
    assert forall|id: u64| id != s[i].peer_id implies has_client_in(t, id) == has_client_in(s, id)
        && (has_client_in(s, id) ==> spec_client_in(t, id) == spec_client_in(s, id)) by {
        if has_client_in(s, id) {
            let k = choose|k: int| 0 <= k < s.len() && s[k].peer_id == id;
            lemma_client_at(s, k);
            assert(t[k] == s[k]);
            lemma_client_at(t, k);
        } else if has_client_in(t, id) {
            let k = choose|k: int| 0 <= k < t.len() && t[k].peer_id == id;
            assert(s[k] == t[k]);
            assert(has_client_in(s, id));
        }
    }
}

/// Pushing a client whose identity is absent preserves distinctness,
/// registers it, and keeps every other identity's client.
pub proof fn lemma_client_push_new_id(s: Seq<Client>, t: Seq<Client>)
    requires
        client_ids_distinct(s),
        t.len() == s.len() + 1,
        !has_client_in(s, t.last().peer_id),
        t == s.push(t.last()),
    ensures
        client_ids_distinct(t),
        has_client_in(t, t.last().peer_id),
        spec_client_in(t, t.last().peer_id) == t.last(),
        forall|id: u64|
            id != t.last().peer_id ==> has_client_in(t, id) == has_client_in(s, id) && (
            has_client_in(s, id) ==> spec_client_in(t, id) == spec_client_in(s, id)),
{
    assert(forall|k: int| 0 <= k < s.len() ==> t[k] == s[k]);
    assert(client_ids_distinct(t)) by {
        assert forall|i: int, j: int| 0 <= i < j < t.len() implies t[i].peer_id != t[j].peer_id by {
            if j == t.len() - 1 {
                if s[i].peer_id == t.last().peer_id {
                    assert(has_client_in(s, t.last().peer_id));
                }
            }
        }
    }
    lemma_client_at(t, t.len() - 1);
    assert forall|id: u64| id != t.last().peer_id implies has_client_in(t, id) == has_client_in(
        s,
        id,
    ) && (has_client_in(s, id) ==> spec_client_in(t, id) == spec_client_in(s, id)) by {
        if has_client_in(s, id) {
            let k = choose|k: int| 0 <= k < s.len() && s[k].peer_id == id;
            lemma_client_at(s, k);
            lemma_client_at(t, k);
        } else if has_client_in(t, id) {
            let k = choose|k: int| 0 <= k < t.len() && t[k].peer_id == id;
            assert(s[k] == t[k]);
            assert(has_client_in(s, id));
        }
    }
}

/// Read-only snapshot of one node: its free space and the names it stores.
pub struct StorageNodeStatus {
    pub available_space: usize,
    pub stored_files: Vec<String>,
}

/// Read-only snapshot of one client: its filename-to-replica-set index.
pub struct ClientStatus {
    pub files: Vec<(String, Vec<u64>)>,
}

/// Read-only snapshot of the whole network.
pub struct NetworkStatus {
    pub storage_nodes: Vec<(u64, StorageNodeStatus)>,
    pub clients: Vec<(u64, ClientStatus)>,
    pub deals: Vec<Deal>,
    pub marketplace: Vec<StorageOffer>,
}

/// A node snapshot mirrors the node: same free space, and the stored names
/// in storage order.
pub open spec fn node_status_matches(st: StorageNodeStatus, node: StorageNode) -> bool {
    &&& st.available_space == node.available_space
    &&& st.stored_files@.len() == node.stored_files@.len()
    &&& forall|j: int|
        0 <= j < st.stored_files@.len() ==> (#[trigger] st.stored_files@[j])@
            == node.stored_files@[j].0@
}

/// A client snapshot mirrors the client's whole index.
pub open spec fn client_status_matches(st: ClientStatus, c: Client) -> bool {
    &&& st.files@.len() == c.files@.len()
    &&& forall|j: int|
        0 <= j < st.files@.len() ==> (#[trigger] st.files@[j]).0@ == c.files@[j].0@
            && st.files@[j].1@ == c.files@[j].1@
}

/// The network orchestrator; sole owner of all five stores.
pub struct Network {
    pub storage_nodes: Vec<StorageNode>,
    pub clients: Vec<Client>,
    pub deals: Vec<Deal>,
    pub marketplace: Vec<StorageOffer>,
    pub token: ERC20,
    pub bids: Vec<(String, Vec<Bid>)>,
    pub debug_level: DebugLevel,
}

impl Network {
    /// Well-formedness: registries keyed by distinct identities, every node
    /// and client internally consistent, and a consistent ledger.
    pub open spec fn wf(self) -> bool {
        &&& node_ids_distinct(self.storage_nodes@)
        &&& forall|i: int|
            0 <= i < self.storage_nodes@.len() ==> (#[trigger] self.storage_nodes@[i]).wf()
        &&& client_ids_distinct(self.clients@)
        &&& forall|i: int| 0 <= i < self.clients@.len() ==> (#[trigger] self.clients@[i]).wf()
        &&& self.token.wf()
    }

    /// Whether a node is registered under `id`.
    pub open spec fn spec_has_node(self, id: u64) -> bool {
        has_node_in(self.storage_nodes@, id)
    }

    /// The node registered under `id`.
    pub open spec fn spec_node_of(self, id: u64) -> StorageNode {
        spec_node_in(self.storage_nodes@, id)
    }

    /// Whether a client is registered under `id`.
    pub open spec fn spec_has_client(self, id: u64) -> bool {
        has_client_in(self.clients@, id)
    }

    /// The client registered under `id`.
    pub open spec fn spec_client_of(self, id: u64) -> Client {
        spec_client_in(self.clients@, id)
    }

    /// The ledger balance of `id`.
    pub open spec fn spec_balance_of(self, id: u64) -> u64 {
        self.token.spec_balance_of(id)
    }

    /// The replica set a registered client's index assigns to `name`.
    pub open spec fn spec_locations_of(self, client_id: u64, name: Seq<char>) -> Option<Seq<u64>> {
        if self.spec_has_client(client_id) {
            self.spec_client_of(client_id).spec_locations_of(name)
        } else {
            Option::None
        }
    }

    /// The bytes a registered node stores under `name`.
    pub open spec fn spec_blob_of(self, node_id: u64, name: Seq<char>) -> Option<Seq<u8>> {
        if self.spec_has_node(node_id) {
            self.spec_node_of(node_id).spec_file_of(name)
        } else {
            Option::None
        }
    }

    /// Creates a network with an empty marketplace and deal registry, a
    /// fresh ledger, and — as a convenience for interactive use — one
    /// starting client (identity 0) and one starting node (identity 1,
    /// priced 10 per GiB).
    pub fn new() -> (r: Network)
        ensures
            r.wf(),
            r.storage_nodes@.len() == 1,
            r.clients@.len() == 1,
            r.spec_has_client(0),
            r.spec_has_node(1),
            r.spec_node_of(1).price_per_gb == 10,
            r.spec_node_of(1).stored_files@.len() == 0,
            r.spec_node_of(1).available_space == MAX_STORAGE,
            r.spec_balance_of(0) == 1_000_000,
            forall|a: u64| a != 0 ==> r.spec_balance_of(a) == 0,
            r.deals@.len() == 0,
            r.marketplace@.len() == 0,
            r.bids@.len() == 0,
            r.debug_level is Off,
            r.token.total_supply == 1_000_000_000 + 1_000_000,
    {
        let mut network = Network {
            storage_nodes: Vec::new(),
            clients: Vec::new(),
            deals: Vec::new(),
            marketplace: Vec::new(),
            token: ERC20::new(
                String::from_str("PioDollar"),
                String::from_str("PIO"),
                1_000_000_000,
            ),
            bids: Vec::new(),
            debug_level: DebugLevel::Off,
        };
        let ghost fresh = network;
        network.add_client(0);
        network.add_storage_node(1, 10);
        proof {
            assert forall|a: u64| a != 0 implies network.spec_balance_of(a) == 0 by {
                assert(fresh.spec_balance_of(a) == 0);
            }
        }
        network
    }

    /// Sets the debug verbosity; no other state changes.
    pub fn set_debug_level(&mut self, level: DebugLevel)
        ensures
            *final(self) == (Network { debug_level: level, ..*old(self) }),
    {
        self.debug_level = level;
    }

    /// Index of the node registered under `id`, if any.
    fn find_node_index(&self, id: u64) -> (r: Option<usize>)
        ensures
            match r {
                Some(i) => i < self.storage_nodes@.len() && self.storage_nodes@[i as int].peer_id
                    == id,
                None => !has_node_in(self.storage_nodes@, id),
            },
    {
        let n = self.storage_nodes.len();
        let mut i: usize = 0;
        while i < n
            invariant
                i <= n,
                n == self.storage_nodes@.len(),
                forall|j: int| 0 <= j < i ==> self.storage_nodes@[j].peer_id != id,
            decreases n - i,
        {
            if self.storage_nodes[i].peer_id == id {
                return Some(i);
            }
            i = i + 1;
        }
        proof {
            if has_node_in(self.storage_nodes@, id) {
                let c = choose|c: int|
                    0 <= c < self.storage_nodes@.len() && self.storage_nodes@[c].peer_id == id;
                assert(self.storage_nodes@[c].peer_id != id);
            }
        }
        None
    }

    /// Index of the client registered under `id`, if any.
    fn find_client_index(&self, id: u64) -> (r: Option<usize>)
        ensures
            match r {
                Some(i) => i < self.clients@.len() && self.clients@[i as int].peer_id == id,
                None => !has_client_in(self.clients@, id),
            },
    {
        let n = self.clients.len();
        let mut i: usize = 0;
        while i < n
            invariant
                i <= n,
                n == self.clients@.len(),
                forall|j: int| 0 <= j < i ==> self.clients@[j].peer_id != id,
            decreases n - i,
        {
            if self.clients[i].peer_id == id {
                return Some(i);
            }
            i = i + 1;
        }
        proof {
            if has_client_in(self.clients@, id) {
                let c = choose|c: int|
                    0 <= c < self.clients@.len() && self.clients@[c].peer_id == id;
                assert(self.clients@[c].peer_id != id);
            }
        }
        None
    }

    /// Registers a fresh storage node under `peer_id` at the given price; a
    /// node already registered under that identity is replaced by the fresh
    /// one.
    pub fn add_storage_node(&mut self, peer_id: u64, price_per_gb: u64)
        requires
            old(self).wf(),
        ensures
            final(self).wf(),
            final(self).spec_has_node(peer_id),
            final(self).spec_node_of(peer_id) == (StorageNode {
                peer_id,
                stored_files: final(self).spec_node_of(peer_id).stored_files,
                available_space: MAX_STORAGE,
                reserved_space: 0,
                reputation: 100,
                price_per_gb,
            }),
            final(self).spec_node_of(peer_id).stored_files@.len() == 0,
            forall|id: u64|
                id != peer_id ==> final(self).spec_has_node(id) == old(self).spec_has_node(id) && (
                old(self).spec_has_node(id) ==> final(self).spec_node_of(id) == old(self).spec_node_of(id)),
            old(self).spec_has_node(peer_id) ==> final(self).storage_nodes@.len() == old(self).storage_nodes@.len(),
            !old(self).spec_has_node(peer_id) ==> final(self).storage_nodes@.len() == old(self).storage_nodes@.len() + 1,
            final(self).clients@ == old(self).clients@,
            final(self).deals@ == old(self).deals@,
            final(self).marketplace@ == old(self).marketplace@,
            final(self).token == old(self).token,
            final(self).bids@ == old(self).bids@,
            final(self).debug_level == old(self).debug_level,
    {
        let node = StorageNode::new(peer_id, price_per_gb);
        match self.find_node_index(peer_id) {
            Some(i) => {
                let ghost before = self.storage_nodes@;
                self.storage_nodes.set(i, node);
                proof {
                    lemma_node_update_same_id(before, self.storage_nodes@, i as int);
                }
            },
            None => {
                let ghost before = self.storage_nodes@;
                self.storage_nodes.push(node);
                proof {
                    lemma_node_push_new_id(before, self.storage_nodes@);
                }
            },
        }
    }

    /// Registers a fresh client under `peer_id` and mints its starting
    /// balance of 1,000,000 tokens; a client already registered under that
    /// identity is replaced by a fresh one (and the mint happens again).
    /// The caller keeps the token supply within the machine range.
    pub fn add_client(&mut self, peer_id: u64)
        requires
            old(self).wf(),
            old(self).token.total_supply + 1_000_000 <= u64::MAX,
        ensures
            final(self).wf(),
            final(self).spec_has_client(peer_id),
            final(self).spec_client_of(peer_id).peer_id == peer_id,
            final(self).spec_client_of(peer_id).files@.len() == 0,
            final(self).spec_balance_of(peer_id) == old(self).spec_balance_of(peer_id) + 1_000_000,
            forall|id: u64|
                id != peer_id ==> final(self).spec_has_client(id) == old(self).spec_has_client(id)
                    && (old(self).spec_has_client(id) ==> final(self).spec_client_of(id) == old(self).spec_client_of(id)),
            forall|id: u64|
                id != peer_id ==> final(self).spec_balance_of(id) == old(self).spec_balance_of(id),
            old(self).spec_has_client(peer_id) ==> final(self).clients@.len() == old(self).clients@.len(),
            !old(self).spec_has_client(peer_id) ==> final(self).clients@.len() == old(self).clients@.len() + 1,
            final(self).token.total_supply == old(self).token.total_supply + 1_000_000,
            final(self).storage_nodes@ == old(self).storage_nodes@,
            final(self).deals@ == old(self).deals@,
            final(self).marketplace@ == old(self).marketplace@,
            final(self).bids@ == old(self).bids@,
            final(self).debug_level == old(self).debug_level,
    {
        let client = Client::new(peer_id);
        match self.find_client_index(peer_id) {
            Some(i) => {
                let ghost before = self.clients@;
                self.clients.set(i, client);
                proof {
                    lemma_client_update_same_id(before, self.clients@, i as int);
                }
            },
            None => {
                let ghost before = self.clients@;
                self.clients.push(client);
                proof {
                    lemma_client_push_new_id(before, self.clients@);
                }
            },
        }
        self.token.mint(peer_id, 1_000_000);
    }

    /// Lists the registered client identities, in registration order.
    pub fn list_clients(&self) -> (r: Vec<u64>)
        ensures
            r@.len() == self.clients@.len(),
            forall|i: int| 0 <= i < r@.len() ==> r@[i] == self.clients@[i].peer_id,
    {
        let n = self.clients.len();
        let mut r: Vec<u64> = Vec::new();
        let mut i: usize = 0;
        while i < n
            invariant
                i <= n,
                n == self.clients@.len(),
                r@.len() == i,
                forall|j: int| 0 <= j < i ==> r@[j] == self.clients@[j].peer_id,
            decreases n - i,
        {
            r.push(self.clients[i].peer_id);
            i = i + 1;
        }
        r
    }

    /// Lists the registered node identities, in registration order.
    pub fn list_storage_nodes(&self) -> (r: Vec<u64>)
        ensures
            r@.len() == self.storage_nodes@.len(),
            forall|i: int| 0 <= i < r@.len() ==> r@[i] == self.storage_nodes@[i].peer_id,
    {
        let n = self.storage_nodes.len();
        let mut r: Vec<u64> = Vec::new();
        let mut i: usize = 0;
        while i < n
            invariant
                i <= n,
                n == self.storage_nodes@.len(),
                r@.len() == i,
                forall|j: int| 0 <= j < i ==> r@[j] == self.storage_nodes@[j].peer_id,
            decreases n - i,
        {
            r.push(self.storage_nodes[i].peer_id);
            i = i + 1;
        }
        r
    }

    /// Read-only view of the node registry.
    pub fn storage_nodes(&self) -> (r: &Vec<StorageNode>)
        ensures
            r == &self.storage_nodes,
    {
        &self.storage_nodes
    }

    /// Read-only view of the client registry.
    pub fn clients(&self) -> (r: &Vec<Client>)
        ensures
            r == &self.clients,
    {
        &self.clients
    }

    /// Reads the node registered under `id`, if any.
    pub fn get_storage_node(&self, id: u64) -> (r: Option<&StorageNode>)
        requires
            self.wf(),
        ensures
            match r {
                Some(node) => self.spec_has_node(id) && *node == self.spec_node_of(id),
                None => !self.spec_has_node(id),
            },
    {
        match self.find_node_index(id) {
            Some(i) => {
                proof {
                    lemma_node_at(self.storage_nodes@, i as int);
                }
                Some(&self.storage_nodes[i])
            },
            None => None,
        }
    }

    /// Reads the client registered under `id`, if any.
    pub fn get_client(&self, id: u64) -> (r: Option<&Client>)
        requires
            self.wf(),
        ensures
            match r {
                Some(client) => self.spec_has_client(id) && *client == self.spec_client_of(id),
                None => !self.spec_has_client(id),
            },
    {
        match self.find_client_index(id) {
            Some(i) => {
                proof {
                    lemma_client_at(self.clients@, i as int);
                }
                Some(&self.clients[i])
            },
            None => None,
        }
    }

    /// Reads an identity's token balance; unknown identities hold zero.
    pub fn get_balance(&self, peer_id: u64) -> (r: u64)
        requires
            self.wf(),
        ensures
            r == self.spec_balance_of(peer_id),
    {
        self.token.balance_of(peer_id)
    }
}

/// Byte-for-byte copy of a blob.
fn clone_bytes(v: &Vec<u8>) -> (r: Vec<u8>)
    ensures
        r@ == v@,
{
    let n = v.len();
    let mut r: Vec<u8> = Vec::new();
    let mut i: usize = 0;
    while i < n
        invariant
            i <= n,
            n == v@.len(),
            r@ =~= v@.take(i as int),
        decreases n - i,
    {
        r.push(v[i]);
        i = i + 1;
    }
    proof {
        assert(r@ =~= v@);
    }
    r
}

/// Element-for-element copy of an identity list.
fn clone_ids(v: &Vec<u64>) -> (r: Vec<u64>)
    ensures
        r@ == v@,
{
    let n = v.len();
    let mut r: Vec<u64> = Vec::new();
    let mut i: usize = 0;
    while i < n
        invariant
            i <= n,
            n == v@.len(),
            r@ =~= v@.take(i as int),
        decreases n - i,
    {
        r.push(v[i]);
        i = i + 1;
    }
    proof {
        assert(r@ =~= v@);
    }
    r
}

/// What one node charges to hold `size` bytes: whole GiB times its rate.
pub open spec fn spec_node_cost(node: StorageNode, size: nat) -> int {
    spec_size_in_gib(size) * node.price_per_gb
}

/// Aggregate charge of placing `size` bytes on every node listed in `ids`,
/// priced per the registry of `net`.
pub open spec fn spec_total_cost(net: Network, ids: Seq<u64>, size: nat) -> int
    decreases ids.len(),
{
    if ids.len() == 0 {
        0
    } else {
        spec_total_cost(net, ids.drop_last(), size) + spec_node_cost(
            net.spec_node_of(ids.last()),
            size,
        )
    }
}

/// Each per-node charge is non-negative.
pub proof fn lemma_node_cost_nonneg(node: StorageNode, size: nat)
    ensures
        spec_node_cost(node, size) >= 0,
{
    let g = spec_size_in_gib(size);
    let p = node.price_per_gb;
    assert(g * p >= 0) by (nonlinear_arith)
        requires
            g >= 0,
            p >= 0,
    ;
}

/// An aggregate charge is non-negative.
pub proof fn lemma_total_cost_nonneg(net: Network, ids: Seq<u64>, size: nat)
    ensures
        spec_total_cost(net, ids, size) >= 0,
    decreases ids.len(),
{
    if ids.len() > 0 {
        lemma_total_cost_nonneg(net, ids.drop_last(), size);
        lemma_node_cost_nonneg(net.spec_node_of(ids.last()), size);
    }
}

/// Extending a prefix by one id adds that node's charge.
pub proof fn lemma_total_cost_take_step(net: Network, ids: Seq<u64>, size: nat, j: int)
    requires
        0 <= j < ids.len(),
    ensures
        spec_total_cost(net, ids.take(j + 1), size) == spec_total_cost(net, ids.take(j), size)
            + spec_node_cost(net.spec_node_of(ids[j]), size),
{
    assert(ids.take(j + 1).drop_last() =~= ids.take(j));
    assert(ids.take(j + 1).last() == ids[j]);
}

/// A prefix never costs more than the whole list.
pub proof fn lemma_total_cost_take_le(net: Network, ids: Seq<u64>, size: nat, j: int)
    requires
        0 <= j <= ids.len(),
    ensures
        spec_total_cost(net, ids.take(j), size) <= spec_total_cost(net, ids, size),
    decreases ids.len() - j,
{
    if j == ids.len() {
        assert(ids.take(j) =~= ids);
    } else {
        lemma_total_cost_take_step(net, ids, size, j);
        lemma_node_cost_nonneg(net.spec_node_of(ids[j]), size);
        lemma_total_cost_take_le(net, ids, size, j + 1);
    }
}

/// Dropping the id at index `i` subtracts that node's charge.
pub proof fn lemma_total_cost_remove(net: Network, ids: Seq<u64>, size: nat, i: int)
    requires
        0 <= i < ids.len(),
    ensures
        spec_total_cost(net, ids.remove(i), size) == spec_total_cost(net, ids, size)
            - spec_node_cost(net.spec_node_of(ids[i]), size),
    decreases ids.len(),
{
    let t = ids.remove(i);
    if i == ids.len() - 1 {
        assert(t =~= ids.drop_last());
    } else {
        assert(t.drop_last() =~= ids.drop_last().remove(i));
        lemma_total_cost_remove(net, ids.drop_last(), size, i);
        assert(t.last() == ids.last());
    }
}

/// Placing on a duplicate-free selection of registered nodes never costs
/// more than placing on every node in `all`, as long as every selected id
/// appears in `all` and `all` is itself duplicate-free.
pub proof fn lemma_subset_cost_le(net: Network, sub: Seq<u64>, all: Seq<u64>, size: nat)
    requires
        nodes_distinct(sub),
        nodes_distinct(all),
        forall|j: int| 0 <= j < sub.len() ==> all.contains(#[trigger] sub[j]),
    ensures
        spec_total_cost(net, sub, size) <= spec_total_cost(net, all, size),
    decreases sub.len(),
{
    if sub.len() == 0 {
        lemma_total_cost_nonneg(net, all, size);
    } else {
        let x = sub.last();
        assert(all.contains(x)) by {
            assert(sub[sub.len() - 1] == x);
        }
        let ix = choose|ix: int| 0 <= ix < all.len() && all[ix] == x;
        let rest = all.remove(ix);
        lemma_total_cost_remove(net, all, size, ix);
        assert(spec_total_cost(net, rest, size) == spec_total_cost(net, all, size)
            - spec_node_cost(net.spec_node_of(x), size));
        let sub2 = sub.drop_last();
        assert(nodes_distinct(sub2));
        assert(nodes_distinct(rest)) by {
            assert(forall|k: int| 0 <= k < ix ==> rest[k] == all[k]);
            assert(forall|k: int| ix <= k < rest.len() ==> rest[k] == all[k + 1]);
        }
        assert forall|j: int| 0 <= j < sub2.len() implies rest.contains(#[trigger] sub2[j]) by {
            assert(sub2[j] == sub[j]);
            assert(all.contains(sub[j]));
            let kj = choose|kj: int| 0 <= kj < all.len() && all[kj] == sub[j];
            assert(sub[j] != x);
            assert(kj != ix);
            if kj < ix {
                assert(rest[kj] == all[kj]);
            } else {
                assert(rest[kj - 1] == all[kj]);
            }
        }
        lemma_subset_cost_le(net, sub2, rest, size);
    }
}

/// Whether a deal links exactly this client, node and filename.
pub open spec fn spec_deal_matches(d: Deal, client_id: u64, storage_node_id: u64, name: Seq<char>) -> bool {
    d.client_id == client_id && d.storage_node_id == storage_node_id && d.filename@ == name
}

/// The deal list with every deal of `(c, f)` removed, order otherwise kept.
pub open spec fn spec_deals_purged(deals: Seq<Deal>, c: u64, f: Seq<char>) -> Seq<Deal>
    decreases deals.len(),
{
    if deals.len() == 0 {
        Seq::empty()
    } else {
        let rest = spec_deals_purged(deals.drop_last(), c, f);
        if deals.last().client_id == c && deals.last().filename@ == f {
            rest
        } else {
            rest.push(deals.last())
        }
    }
}

/// Whether a deal's lease has lapsed at clock reading `now`.
pub open spec fn spec_deal_expired(d: Deal, now: u64) -> bool {
    now > d.start_time + d.duration
}

/// Whether some deal in `all`, expired at `now`, carries filename `f`.
pub open spec fn spec_name_expired_in(all: Seq<Deal>, now: u64, f: Seq<char>) -> bool {
    exists|i: int|
        0 <= i < all.len() && spec_deal_expired(#[trigger] all[i], now) && all[i].filename@ == f
}

/// Whether a deal is swept away at `now`: some expired deal in `all` links
/// the same client and filename (sweeping a pair removes every deal of that
/// pair, whatever node it names).
pub open spec fn spec_deal_doomed(all: Seq<Deal>, d: Deal, now: u64) -> bool {
    exists|i: int|
        0 <= i < all.len() && spec_deal_expired(#[trigger] all[i], now) && all[i].client_id
            == d.client_id && all[i].filename@ == d.filename@
}

/// Whether `p` is the (client, filename) pair of some deal in `all` that is
/// expired at `now`.
pub open spec fn spec_pair_covers(all: Seq<Deal>, now: u64, p: (u64, String)) -> bool {
    exists|i: int|
        0 <= i < all.len() && spec_deal_expired(#[trigger] all[i], now) && all[i].client_id == p.0
            && all[i].filename@ == p.1@
}

/// Whether some pair in `pairs` carries this deal's client and filename.
pub open spec fn spec_deal_covered(pairs: Seq<(u64, String)>, d: Deal) -> bool {
    exists|t: int|
        0 <= t < pairs.len() && (#[trigger] pairs[t]).0 == d.client_id && pairs[t].1@
            == d.filename@
}

/// The first `prefix` deals of `all` that survive a sweep at `now`, in
/// order.
pub open spec fn spec_surviving_deals(all: Seq<Deal>, prefix: int, now: u64) -> Seq<Deal>
    decreases prefix,
{
    if prefix <= 0 {
        Seq::empty()
    } else {
        let rest = spec_surviving_deals(all, prefix - 1, now);
        if spec_deal_doomed(all, all[prefix - 1], now) {
            rest
        } else {
            rest.push(all[prefix - 1])
        }
    }
}

/// Every surviving deal comes from `all` and is not doomed there.
pub proof fn lemma_surviving_sound(all: Seq<Deal>, prefix: int, now: u64)
    requires
        0 <= prefix <= all.len(),
    ensures
        forall|j: int|
            0 <= j < spec_surviving_deals(all, prefix, now).len() ==> !spec_deal_doomed(
                all,
                #[trigger] spec_surviving_deals(all, prefix, now)[j],
                now,
            ) && exists|i: int|
                0 <= i < prefix && all[i] == spec_surviving_deals(all, prefix, now)[j],
    decreases prefix,
{
    if prefix > 0 {
        lemma_surviving_sound(all, prefix - 1, now);
        let cur = spec_surviving_deals(all, prefix, now);
        let rest = spec_surviving_deals(all, prefix - 1, now);
        assert forall|j: int| 0 <= j < cur.len() implies !spec_deal_doomed(all, cur[j], now) && (
        exists|i: int| 0 <= i < prefix && all[i] == cur[j]) by {
            if j < rest.len() {
                assert(cur[j] == rest[j]);
            } else {
                assert(cur[j] == all[prefix - 1]);
            }
        }
    }
}

/// When nothing in `all` is expired, a sweep keeps every deal.
pub proof fn lemma_surviving_no_expired(all: Seq<Deal>, prefix: int, now: u64)
    requires
        0 <= prefix <= all.len(),
        forall|i: int| 0 <= i < all.len() ==> !spec_deal_expired(#[trigger] all[i], now),
    ensures
        spec_surviving_deals(all, prefix, now) == all.take(prefix),
    decreases prefix,
{
    if prefix > 0 {
        lemma_surviving_no_expired(all, prefix - 1, now);
        assert(!spec_deal_doomed(all, all[prefix - 1], now)) by {
            if spec_deal_doomed(all, all[prefix - 1], now) {
                let i = choose|i: int|
                    0 <= i < all.len() && spec_deal_expired(all[i], now) && all[i].client_id
                        == all[prefix - 1].client_id && all[i].filename@ == all[prefix
                        - 1].filename@;
                assert(!spec_deal_expired(all[i], now));
            }
        }
        assert(spec_surviving_deals(all, prefix, now) =~= all.take(prefix));
    } else {
        assert(spec_surviving_deals(all, prefix, now) =~= all.take(prefix));
    }
}

/// What one sweep at `now` does: expired deals and every deal sharing their
/// (client, filename) pair leave the registry; each such pair's blob leaves
/// every node its replica set listed and its index entry is dropped; when
/// nothing is expired the whole state is untouched; afterwards no expired
/// deal remains. Every node keeps its identity, reservation, reputation and
/// price, keeps every blob whose name no expired deal carries, and its free
/// space grows by exactly the bytes of the blobs removed from it. The
/// marketplace, the bid book, the ledger and the debug level never change,
/// and no node or client appears or disappears.
pub open spec fn spec_sweep_post(pre: Network, post: Network, now: u64) -> bool {
    &&& post.deals@ == spec_surviving_deals(pre.deals@, pre.deals@.len() as int, now)
    &&& ((forall|i: int|
        0 <= i < pre.deals@.len() ==> !spec_deal_expired(#[trigger] pre.deals@[i], now)) ==> post
        == pre)
    &&& forall|i: int|
        0 <= i < post.deals@.len() ==> !spec_deal_expired(#[trigger] post.deals@[i], now)
    &&& forall|i: int|
        0 <= i < pre.deals@.len() && spec_deal_expired(#[trigger] pre.deals@[i], now)
            ==> post.spec_locations_of(pre.deals@[i].client_id, pre.deals@[i].filename@) is None
    &&& forall|i: int|
        0 <= i < pre.deals@.len() && spec_deal_expired(#[trigger] pre.deals@[i], now)
            ==> match pre.spec_locations_of(pre.deals@[i].client_id, pre.deals@[i].filename@) {
            Some(ns) => forall|j: int|
                0 <= j < ns.len() && post.spec_has_node(#[trigger] ns[j])
                    ==> !post.spec_node_of(ns[j]).spec_stores(pre.deals@[i].filename@),
            Option::None => true,
        }
    &&& forall|id: u64| post.spec_has_node(id) == pre.spec_has_node(id)
    &&& forall|id: u64| post.spec_has_client(id) == pre.spec_has_client(id)
    &&& forall|id: u64|
        pre.spec_has_node(id) ==> {
            let b = pre.spec_node_of(id);
            let a = post.spec_node_of(id);
            &&& a.peer_id == b.peer_id
            &&& a.reserved_space == b.reserved_space
            &&& a.reputation == b.reputation
            &&& a.price_per_gb == b.price_per_gb
            &&& a.available_space == b.available_space + sum_sizes(b.stored_files@) - sum_sizes(
                a.stored_files@,
            )
            &&& forall|f: Seq<char>|
                !spec_name_expired_in(pre.deals@, now, f) ==> a.spec_file_of(f) == b.spec_file_of(
                    f,
                )
        }
    &&& post.marketplace@ == pre.marketplace@
    &&& post.token == pre.token
    &&& post.bids@ == pre.bids@
    &&& post.debug_level == pre.debug_level
}

/// Sweeping is idempotent: a second sweep at the same clock reading, with no
/// deal newly expired in between, changes nothing — the first sweep leaves
/// no expired deal behind, and a sweep that finds nothing expired is the
/// identity.
pub proof fn lemma_sweep_idempotent(s1: Network, s2: Network, s3: Network, now: u64)
    requires
        spec_sweep_post(s1, s2, now),
        spec_sweep_post(s2, s3, now),
    ensures
        s3 == s2,
{
}

/// How many registered nodes are not listed in `cur`.
pub open spec fn spec_candidates_outside(nodes: Seq<StorageNode>, cur: Seq<u64>) -> int
    decreases nodes.len(),
{
    if nodes.len() == 0 {
        0
    } else {
        spec_candidates_outside(nodes.drop_last(), cur) + if cur.contains(nodes.last().peer_id) {
            0int
        } else {
            1int
        }
    }
}

/// The identities of every registered node, in registration order.
pub open spec fn spec_node_id_seq(net: Network) -> Seq<u64> {
    Seq::new(net.storage_nodes@.len(), |i: int| net.storage_nodes@[i].peer_id)
}

/// Walks a replica list and yields the first blob a listed, registered node
/// stores under `name`.
pub open spec fn spec_first_replica(net: Network, ns: Seq<u64>, name: Seq<char>) -> Option<Seq<u8>>
    decreases ns.len(),
{
    if ns.len() == 0 {
        Option::None
    } else if net.spec_has_node(ns[0]) && net.spec_node_of(ns[0]).spec_stores(name) {
        net.spec_node_of(ns[0]).spec_file_of(name)
    } else {
        spec_first_replica(net, ns.drop_first(), name)
    }
}

/// When every listed node is registered and stores `data` under `name`, the
/// first-replica walk yields `data`.
pub proof fn lemma_first_replica_all_store(
    net: Network,
    ns: Seq<u64>,
    name: Seq<char>,
    data: Seq<u8>,
)
    requires
        ns.len() > 0,
        forall|j: int|
            0 <= j < ns.len() ==> net.spec_has_node(#[trigger] ns[j]) && net.spec_node_of(
                ns[j],
            ).spec_file_of(name) == Some(data),
    ensures
        spec_first_replica(net, ns, name) == Some(data),
{
    assert(net.spec_node_of(ns[0]).spec_stores(name));
}

/// Everything a successful upload changes: the client's replica set for
/// `name` becomes `ids`, every placed node stores `data` with its space
/// adjusted, the client pays each node its price, the pair's previous deals
/// are replaced, and one deal per replica opens at `now` — so each stored
/// (client, node, filename) triple keeps exactly one deal. Everything else
/// is untouched.
pub open spec fn spec_upload_effect(
    pre: Network,
    post: Network,
    client_id: u64,
    ids: Seq<u64>,
    name: Seq<char>,
    data: Seq<u8>,
    now: u64,
) -> bool {
    &&& post.spec_locations_of(client_id, name) == Some(ids)
    &&& forall|n: Seq<char>|
        n != name ==> post.spec_client_of(client_id).spec_locations_of(n) == pre.spec_client_of(
            client_id,
        ).spec_locations_of(n)
    &&& forall|id: u64|
        id != client_id ==> post.spec_has_client(id) == pre.spec_has_client(id) && (
        pre.spec_has_client(id) ==> post.spec_client_of(id) == pre.spec_client_of(id))
    &&& forall|j: int|
        0 <= j < ids.len() ==> {
            let id = #[trigger] ids[j];
            let b = pre.spec_node_of(id);
            let a = post.spec_node_of(id);
            &&& post.spec_has_node(id)
            &&& a.spec_file_of(name) == Some(data)
            &&& a.available_space == b.available_space + b.spec_stored_size(name) - data.len()
            &&& a.peer_id == b.peer_id
            &&& a.reserved_space == b.reserved_space
            &&& a.reputation == b.reputation
            &&& a.price_per_gb == b.price_per_gb
            &&& forall|n: Seq<char>| n != name ==> a.spec_file_of(n) == b.spec_file_of(n)
        }
    &&& forall|id: u64|
        !ids.contains(id) ==> post.spec_has_node(id) == pre.spec_has_node(id) && (
        pre.spec_has_node(id) ==> post.spec_node_of(id) == pre.spec_node_of(id))
    &&& post.storage_nodes@.len() == pre.storage_nodes@.len()
    &&& !ids.contains(client_id) ==> post.spec_balance_of(client_id) == pre.spec_balance_of(
        client_id,
    ) - spec_total_cost(pre, ids, data.len())
    &&& forall|j: int|
        0 <= j < ids.len() && #[trigger] ids[j] != client_id ==> post.spec_balance_of(ids[j])
            == pre.spec_balance_of(ids[j]) + spec_node_cost(pre.spec_node_of(ids[j]), data.len())
    &&& forall|a: u64|
        a != client_id && !ids.contains(a) ==> post.spec_balance_of(a) == pre.spec_balance_of(a)
    &&& post.token.total_supply == pre.token.total_supply
    &&& post.token.allowances@ == pre.token.allowances@
    &&& post.deals@.len() == spec_deals_purged(pre.deals@, client_id, name).len() + ids.len()
    &&& forall|i: int|
        0 <= i < spec_deals_purged(pre.deals@, client_id, name).len() ==> post.deals@[i]
            == spec_deals_purged(pre.deals@, client_id, name)[i]
    &&& forall|j: int|
        0 <= j < ids.len() ==> {
            let d = #[trigger] post.deals@[spec_deals_purged(pre.deals@, client_id, name).len()
                + j];
            &&& d.client_id == client_id
            &&& d.storage_node_id == ids[j]
            &&& d.filename@ == name
            &&& d.start_time == now
            &&& d.duration == DEAL_DURATION_SECS
        }
    &&& ids.len() > 0 ==> post.spec_download(client_id, name) == Some(data)
    &&& post.marketplace@ == pre.marketplace@
    &&& post.bids@ == pre.bids@
    &&& post.debug_level == pre.debug_level
    &&& post.clients@.len() == pre.clients@.len()
}

/// A successful upload with replication factor `k` yields exactly `k`
/// pairwise-distinct registered node identities as the file's replica set.
pub proof fn lemma_upload_replica_set(
    pre: Network,
    post: Network,
    client_id: u64,
    ids: Seq<u64>,
    name: Seq<char>,
    data: Seq<u8>,
    now: u64,
)
    requires
        spec_upload_effect(pre, post, client_id, ids, name, data, now),
        nodes_distinct(ids),
        pre.spec_nodes_registered(ids),
    ensures
        post.spec_locations_of(client_id, name) == Some(ids),
        nodes_distinct(post.spec_locations_of(client_id, name).unwrap()),
        forall|j: int|
            0 <= j < ids.len() ==> post.spec_has_node(
                #[trigger] post.spec_locations_of(client_id, name).unwrap()[j],
            ),
{
}

/// The client's balance decrease from an upload equals the exact sum of the
/// per-node charges, and each charged node is credited its own charge — no
/// double charging and no rounding drift beyond the per-node GiB ceiling.
/// Stated for a client that is not itself one of the chosen nodes, where
/// paying and earning accounts are distinct.
pub proof fn lemma_upload_charges_exact_sum(
    pre: Network,
    post: Network,
    client_id: u64,
    ids: Seq<u64>,
    name: Seq<char>,
    data: Seq<u8>,
    now: u64,
)
    requires
        spec_upload_effect(pre, post, client_id, ids, name, data, now),
        !ids.contains(client_id),
    ensures
        post.spec_balance_of(client_id) == pre.spec_balance_of(client_id) - spec_total_cost(
            pre,
            ids,
            data.len(),
        ),
        forall|j: int|
            0 <= j < ids.len() ==> post.spec_balance_of(#[trigger] ids[j]) == pre.spec_balance_of(
                ids[j],
            ) + spec_node_cost(pre.spec_node_of(ids[j]), data.len()),
        post.token.total_supply == pre.token.total_supply,
{
    assert forall|j: int| 0 <= j < ids.len() implies post.spec_balance_of(#[trigger] ids[j])
        == pre.spec_balance_of(ids[j]) + spec_node_cost(pre.spec_node_of(ids[j]), data.len()) by {
        assert(ids[j] != client_id);
    }
}

/// A download right after a successful upload — before any expiry sweep or
/// node removal — yields bytes identical to the uploaded bytes.
pub proof fn lemma_download_after_upload(
    pre: Network,
    post: Network,
    client_id: u64,
    ids: Seq<u64>,
    name: Seq<char>,
    data: Seq<u8>,
    now: u64,
)
    requires
        spec_upload_effect(pre, post, client_id, ids, name, data, now),
        ids.len() > 0,
    ensures
        post.spec_download(client_id, name) == Some(data),
{
}

impl Network {
    /// Every id in `ids` names a registered node.
    pub open spec fn spec_nodes_registered(self, ids: Seq<u64>) -> bool {
        forall|j: int| 0 <= j < ids.len() ==> self.spec_has_node(#[trigger] ids[j])
    }

    /// Every node in `ids` has `size` bytes of free space: stores admit by
    /// free space alone, also when a same-name blob would be replaced.
    pub open spec fn spec_nodes_fit(self, ids: Seq<u64>, name: Seq<char>, size: nat) -> bool {
        forall|j: int|
            0 <= j < ids.len() ==> size <= (#[trigger] self.spec_node_of(ids[j])).available_space
    }

    /// The result an upload onto the given placement must produce, checked
    /// in this order: unknown node, unknown client, balance, capacity.
    pub open spec fn spec_upload_outcome(
        self,
        client_id: u64,
        ids: Seq<u64>,
        name: Seq<char>,
        size: nat,
    ) -> Result<(), StorageError> {
        if !self.spec_nodes_registered(ids) {
            Result::Err(StorageError::NodeNotFound)
        } else if !self.spec_has_client(client_id) {
            Result::Err(StorageError::ClientNotFound)
        } else if self.spec_balance_of(client_id) < spec_total_cost(self, ids, size) {
            Result::Err(StorageError::InsufficientBalance)
        } else if !self.spec_nodes_fit(ids, name, size) {
            Result::Err(StorageError::CapacityExceeded)
        } else {
            Result::Ok(())
        }
    }

    /// The bytes the first reachable replica of `(client_id, name)` holds.
    pub open spec fn spec_download(self, client_id: u64, name: Seq<char>) -> Option<Seq<u8>> {
        match self.spec_locations_of(client_id, name) {
            Some(ns) => spec_first_replica(self, ns, name),
            Option::None => Option::None,
        }
    }

    /// Stores `data` on exactly the nodes listed in `node_ids`, charges the
    /// client each node's price, replaces the client's replica set for
    /// `filename` with `node_ids`, and replaces this (client, filename)
    /// pair's deals with one fresh deal per placed node.
    ///
    /// Placement is explicit here so callers (and tests) can pin outcomes;
    /// `upload_file` draws the placement at random and delegates to this.
    /// Policy for partial failures: everything is validated before anything
    /// is changed, so the operation is all-or-nothing.
    #[verifier::rlimit(60)]
    pub fn upload_file_to(
        &mut self,
        client_id: u64,
        filename: String,
        data: Vec<u8>,
        node_ids: Vec<u64>,
        now: u64,
    ) -> (r: Result<Vec<u64>, StorageError>)
        requires
            old(self).wf(),
            nodes_distinct(node_ids@),
        ensures
            final(self).wf(),
            r is Ok <==> old(self).spec_upload_outcome(
                client_id,
                node_ids@,
                filename@,
                data@.len(),
            ) is Ok,
            r is Err ==> *final(self) == *old(self) && old(self).spec_upload_outcome(
                client_id,
                node_ids@,
                filename@,
                data@.len(),
            ) == Result::<(), StorageError>::Err(r.unwrap_err()),
            r is Ok ==> r.unwrap()@ == node_ids@,
            r is Ok ==> spec_upload_effect(
                *old(self),
                *final(self),
                client_id,
                node_ids@,
                filename@,
                data@,
                now,
            ),
    {
        let k = node_ids.len();
        let size = data.len();
        let gib = size_in_gib(size);
        // Resolve every placement id to a registry index; unknown ids fail
        // the whole call before anything changes.
        let mut idxs: Vec<usize> = Vec::new();
        let mut t: usize = 0;
        while t < k
            invariant
                t <= k,
                k == node_ids@.len(),
                *self == *old(self),
                self.wf(),
                idxs@.len() == t,
                forall|j: int|
                    0 <= j < t ==> #[trigger] idxs@[j] < self.storage_nodes@.len()
                        && self.storage_nodes@[idxs@[j] as int].peer_id == node_ids@[j],
            decreases k - t,
        {
            match self.find_node_index(node_ids[t]) {
                Some(i) => {
                    idxs.push(i);
                },
                None => {
                    proof {
                        assert(!old(self).spec_has_node(node_ids@[t as int]));
                        assert(!old(self).spec_nodes_registered(node_ids@));
                    }
                    return Err(StorageError::NodeNotFound);
                },
            }
            t = t + 1;
        }
        proof {
            assert forall|j: int| 0 <= j < node_ids@.len() implies self.spec_has_node(
                #[trigger] node_ids@[j],
            ) by {
                assert(self.storage_nodes@[idxs@[j] as int].peer_id == node_ids@[j]);
            }
        }
        // The client must exist before anything is stored or charged.
        let ci = match self.find_client_index(client_id) {
            Some(i) => i,
            None => {
                return Err(StorageError::ClientNotFound);
            },
        };
        proof {
            lemma_client_at(self.clients@, ci as int);
        }
        // Aggregate cost of the whole placement. A running total past the
        // token range already exceeds any balance, so it fails the same way
        // a too-small balance does.
        let mut acc: u128 = 0;
        let mut j: usize = 0;
        while j < k
            invariant
                j <= k,
                k == node_ids@.len(),
                *self == *old(self),
                self.wf(),
                self.spec_has_client(client_id),
                idxs@.len() == k,
                forall|jj: int|
                    0 <= jj < k ==> #[trigger] idxs@[jj] < self.storage_nodes@.len()
                        && self.storage_nodes@[idxs@[jj] as int].peer_id == node_ids@[jj],
                gib == spec_size_in_gib(data@.len()),
                acc == spec_total_cost(*old(self), node_ids@.take(j as int), data@.len()),
                acc <= u64::MAX,
            decreases k - j,
        {
            let i = idxs[j];
            let price = self.storage_nodes[i].price_per_gb;
            proof {
                lemma_node_at(self.storage_nodes@, i as int);
                lemma_total_cost_take_step(*old(self), node_ids@, data@.len(), j as int);
                assert((gib as u128) * (price as u128) == spec_node_cost(
                    self.spec_node_of(node_ids@[j as int]),
                    data@.len(),
                )) by (nonlinear_arith)
                    requires
                        gib == spec_size_in_gib(data@.len()),
                        price == self.spec_node_of(node_ids@[j as int]).price_per_gb,
                ;
                assert((gib as u128) * (price as u128) <= (u64::MAX as u128) * (
                u64::MAX as u128)) by (nonlinear_arith)
                    requires
                        gib <= u64::MAX,
                        price <= u64::MAX,
                ;
            }
            acc = acc + (gib as u128) * (price as u128);
            if acc > u64::MAX as u128 {
                proof {
                    lemma_total_cost_take_le(*old(self), node_ids@, data@.len(), j + 1);
                    assert forall|jj: int| 0 <= jj < node_ids@.len() implies old(self).spec_has_node(
                        #[trigger] node_ids@[jj],
                    ) by {
                        assert(self.storage_nodes@[idxs@[jj] as int].peer_id == node_ids@[jj]);
                    }
                    assert(old(self).spec_balance_of(client_id) < spec_total_cost(
                        *old(self),
                        node_ids@,
                        data@.len(),
                    ));
                }
                return Err(StorageError::InsufficientBalance);
            }
            j = j + 1;
        }
        proof {
            assert(node_ids@.take(k as int) =~= node_ids@);
            assert forall|jj: int| 0 <= jj < node_ids@.len() implies old(self).spec_has_node(
                #[trigger] node_ids@[jj],
            ) by {
                assert(self.storage_nodes@[idxs@[jj] as int].peer_id == node_ids@[jj]);
            }
        }
        let total_cost: u64 = acc as u64;
        let bal = self.token.balance_of(client_id);
        if bal < total_cost {
            return Err(StorageError::InsufficientBalance);
        }
        // Pre-validate capacity on every target so the commit below cannot
        // fail halfway: this keeps the operation all-or-nothing.
        let mut j: usize = 0;
        while j < k
            invariant
                j <= k,
                k == node_ids@.len(),
                *self == *old(self),
                self.wf(),
                self.spec_has_client(client_id),
                size == data@.len(),
                self.spec_balance_of(client_id) >= spec_total_cost(
                    *old(self),
                    node_ids@,
                    data@.len(),
                ),
                forall|jj: int|
                    0 <= jj < k ==> old(self).spec_has_node(#[trigger] node_ids@[jj]),
                idxs@.len() == k,
                forall|jj: int|
                    0 <= jj < k ==> #[trigger] idxs@[jj] < self.storage_nodes@.len()
                        && self.storage_nodes@[idxs@[jj] as int].peer_id == node_ids@[jj],
                forall|jj: int|
                    0 <= jj < j ==> data@.len() <= (#[trigger] self.spec_node_of(
                        node_ids@[jj],
                    )).available_space,
            decreases k - j,
        {
            let i = idxs[j];
            proof {
                lemma_node_at(self.storage_nodes@, i as int);
            }
            if size > self.storage_nodes[i].available_space {
                proof {
                    assert(data@.len() > old(self).spec_node_of(
                        node_ids@[j as int],
                    ).available_space);
                    assert(!old(self).spec_nodes_fit(node_ids@, filename@, data@.len()));
                }
                return Err(StorageError::CapacityExceeded);
            }
            j = j + 1;
        }
        // All checks passed: commit. First store the blob on every target.
        let ghost pre = *old(self);
        let mut j: usize = 0;
        while j < k
            invariant
                j <= k,
                k == node_ids@.len(),
                nodes_distinct(node_ids@),
                self.wf(),
                pre == *old(self),
                pre.wf(),
                self.storage_nodes@.len() == pre.storage_nodes@.len(),
                idxs@.len() == k,
                forall|jj: int|
                    0 <= jj < k ==> #[trigger] idxs@[jj] < pre.storage_nodes@.len()
                        && pre.storage_nodes@[idxs@[jj] as int].peer_id == node_ids@[jj],
                forall|i: int|
                    0 <= i < self.storage_nodes@.len() ==> (#[trigger] self.storage_nodes@[i]).peer_id
                        == pre.storage_nodes@[i].peer_id && self.storage_nodes@[i].price_per_gb
                        == pre.storage_nodes@[i].price_per_gb,
                // targets not yet processed, and every non-target, are untouched
                forall|i: int|
                    0 <= i < self.storage_nodes@.len() && (forall|jj: int|
                        0 <= jj < j ==> idxs@[jj] != i) ==> #[trigger] self.storage_nodes@[i]
                        == pre.storage_nodes@[i],
                // processed targets hold the blob with adjusted space
                forall|jj: int|
                    0 <= jj < j ==> {
                        let i = #[trigger] idxs@[jj] as int;
                        let b = pre.storage_nodes@[i];
                        let a = self.storage_nodes@[i];
                        &&& a.spec_file_of(filename@) == Some(data@)
                        &&& a.available_space == b.available_space + b.spec_stored_size(filename@)
                            - data@.len()
                        &&& a.peer_id == b.peer_id
                        &&& a.reserved_space == b.reserved_space
                        &&& a.reputation == b.reputation
                        &&& a.price_per_gb == b.price_per_gb
                        &&& forall|n: Seq<char>|
                            n != filename@ ==> a.spec_file_of(n) == b.spec_file_of(n)
                    },
                forall|jj: int|
                    0 <= jj < k ==> data@.len() <= (#[trigger] pre.spec_node_of(
                        node_ids@[jj],
                    )).available_space,
                self.clients@ == pre.clients@,
                self.deals@ == pre.deals@,
                self.marketplace@ == pre.marketplace@,
                self.token == pre.token,
                self.bids@ == pre.bids@,
                self.debug_level == pre.debug_level,
            decreases k - j,
        {
            let i = idxs[j];
            proof {
                // this target has not been processed yet: indexes of distinct
                // ids are distinct
                assert forall|jj: int| 0 <= jj < j implies idxs@[jj] != i by {
                    if idxs@[jj] == i {
                        assert(pre.storage_nodes@[idxs@[jj] as int].peer_id == node_ids@[jj]);
                        assert(pre.storage_nodes@[idxs@[j as int] as int].peer_id
                            == node_ids@[j as int]);
                        assert(node_ids@[jj] == node_ids@[j as int]);
                    }
                }
                assert(self.storage_nodes@[i as int] == pre.storage_nodes@[i as int]);
                lemma_node_at(pre.storage_nodes@, i as int);
                assert(pre.spec_node_of(node_ids@[j as int]) == pre.storage_nodes@[i as int]);
                assert(data@.len() <= pre.spec_node_of(node_ids@[j as int]).available_space);
            }
            let mut node = StorageNode::new(0, 0);
            let ghost before_vec = self.storage_nodes@;
            self.storage_nodes.set_and_swap(i, &mut node);
            let res = node.store_file(filename.clone(), clone_bytes(&data));
            proof {
                assert(res is Ok);
            }
            self.storage_nodes.set_and_swap(i, &mut node);
            proof {
                assert(self.storage_nodes@ =~= before_vec.update(
                    i as int,
                    self.storage_nodes@[i as int],
                ));
            }
            j = j + 1;
        }
        let ghost after_store = *self;
        // Now charge the client, one node at a time, in placement order.
        let mut j: usize = 0;
        while j < k
            invariant
                j <= k,
                k == node_ids@.len(),
                nodes_distinct(node_ids@),
                pre == *old(self),
                pre.wf(),
                self.token.wf(),
                gib == spec_size_in_gib(data@.len()),
                total_cost == spec_total_cost(pre, node_ids@, data@.len()),
                pre.spec_balance_of(client_id) >= total_cost,
                self.storage_nodes@ == after_store.storage_nodes@,
                self.clients@ == after_store.clients@,
                self.deals@ == after_store.deals@,
                self.marketplace@ == after_store.marketplace@,
                self.bids@ == after_store.bids@,
                self.debug_level == after_store.debug_level,
                after_store.token == pre.token,
                idxs@.len() == k,
                self.storage_nodes@.len() == pre.storage_nodes@.len(),
                forall|i: int|
                    0 <= i < self.storage_nodes@.len() ==> (#[trigger] self.storage_nodes@[i]).price_per_gb
                        == pre.storage_nodes@[i].price_per_gb,
                forall|jj: int|
                    0 <= jj < k ==> #[trigger] idxs@[jj] < pre.storage_nodes@.len()
                        && pre.storage_nodes@[idxs@[jj] as int].peer_id == node_ids@[jj],
                self.token.total_supply == pre.token.total_supply,
                self.token.allowances@ == pre.token.allowances@,
                self.token.name == pre.token.name,
                self.token.symbol == pre.token.symbol,
                self.token.debug == pre.token.debug,
                !node_ids@.contains(client_id) ==> self.spec_balance_of(client_id)
                    == pre.spec_balance_of(client_id) - spec_total_cost(
                    pre,
                    node_ids@.take(j as int),
                    data@.len(),
                ),
                self.spec_balance_of(client_id) >= pre.spec_balance_of(client_id)
                    - spec_total_cost(pre, node_ids@.take(j as int), data@.len()),
                forall|jj: int|
                    0 <= jj < j && #[trigger] node_ids@[jj] != client_id ==> self.spec_balance_of(
                        node_ids@[jj],
                    ) == pre.spec_balance_of(node_ids@[jj]) + spec_node_cost(
                        pre.spec_node_of(node_ids@[jj]),
                        data@.len(),
                    ),
                forall|jj: int|
                    j <= jj < k && #[trigger] node_ids@[jj] != client_id ==> self.spec_balance_of(
                        node_ids@[jj],
                    ) == pre.spec_balance_of(node_ids@[jj]),
                forall|a: u64|
                    a != client_id && !node_ids@.contains(a) ==> self.spec_balance_of(a)
                        == pre.spec_balance_of(a),
            decreases k - j,
        {
            let i = idxs[j];
            let price = self.storage_nodes[i].price_per_gb;
            proof {
                lemma_node_at(pre.storage_nodes@, i as int);
                // prices were not changed by the store loop
                assert(self.storage_nodes@[i as int].price_per_gb
                    == pre.storage_nodes@[i as int].price_per_gb);
            }
            proof {
                lemma_total_cost_take_step(pre, node_ids@, data@.len(), j as int);
                lemma_total_cost_take_le(pre, node_ids@, data@.len(), j as int + 1);
                lemma_total_cost_nonneg(pre, node_ids@.take(j as int), data@.len());
                assert((gib as u128) * (price as u128) == spec_node_cost(
                    pre.spec_node_of(node_ids@[j as int]),
                    data@.len(),
                )) by (nonlinear_arith)
                    requires
                        gib == spec_size_in_gib(data@.len()),
                        price == pre.spec_node_of(node_ids@[j as int]).price_per_gb,
                ;
            }
            let cost128: u128 = (gib as u128) * (price as u128);
            let node_cost: u64 = cost128 as u64;
            let res = self.token.transfer(client_id, node_ids[j], node_cost);
            proof {
                assert(res is Ok);
                assert(node_ids@.take(j as int + 1).take(j as int) =~= node_ids@.take(j as int));
            }
            j = j + 1;
        }
        proof {
            assert(node_ids@.take(k as int) =~= node_ids@);
        }
        let ghost after_pay = *self;
        // Retire this (client, filename) pair's previous deals, so each
        // stored triple keeps exactly one deal.
        let nd = self.deals.len();
        let mut kept: Vec<Deal> = Vec::new();
        let mut i: usize = 0;
        while i < nd
            invariant
                i <= nd,
                nd == self.deals@.len(),
                *self == after_pay,
                kept@ == spec_deals_purged(self.deals@.take(i as int), client_id, filename@),
            decreases nd - i,
        {
            let d = &self.deals[i];
            proof {
                assert(self.deals@.take(i as int + 1).drop_last() =~= self.deals@.take(i as int));
                assert(self.deals@.take(i as int + 1).last() == self.deals@[i as int]);
            }
            if !(d.client_id == client_id && d.filename == filename) {
                kept.push(
                    Deal {
                        client_id: d.client_id,
                        storage_node_id: d.storage_node_id,
                        filename: d.filename.clone(),
                        start_time: d.start_time,
                        duration: d.duration,
                    },
                );
                proof {
                    assert(kept@.last() == self.deals@[i as int]);
                    assert(kept@.drop_last() =~= spec_deals_purged(
                        self.deals@.take(i as int),
                        client_id,
                        filename@,
                    ));
                    assert(kept@ =~= spec_deals_purged(
                        self.deals@.take(i as int + 1),
                        client_id,
                        filename@,
                    ));
                }
            }
            i = i + 1;
        }
        proof {
            assert(self.deals@.take(nd as int) =~= self.deals@);
        }
        self.deals = kept;
        let ghost after_purge = *self;
        proof {
            assert(after_purge.deals@ == spec_deals_purged(pre.deals@, client_id, filename@));
        }
        // Open one deal per placed replica.
        let mut j: usize = 0;
        while j < k
            invariant
                j <= k,
                k == node_ids@.len(),
                *self == (Network { deals: self.deals, ..after_purge }),
                self.deals@.len() == after_purge.deals@.len() + j,
                forall|i: int|
                    0 <= i < after_purge.deals@.len() ==> #[trigger] self.deals@[i]
                        == after_purge.deals@[i],
                forall|jj: int|
                    0 <= jj < j ==> {
                        let d = #[trigger] self.deals@[after_purge.deals@.len() + jj];
                        &&& d.client_id == client_id
                        &&& d.storage_node_id == node_ids@[jj]
                        &&& d.filename@ == filename@
                        &&& d.start_time == now
                        &&& d.duration == DEAL_DURATION_SECS
                    },
            decreases k - j,
        {
            self.deals.push(
                Deal {
                    client_id,
                    storage_node_id: node_ids[j],
                    filename: filename.clone(),
                    start_time: now,
                    duration: DEAL_DURATION_SECS,
                },
            );
            j = j + 1;
        }
        // Finally replace the client's replica set for this filename.
        let ghost before_clients = self.clients@;
        let mut client = Client::new(0);
        self.clients.set_and_swap(ci, &mut client);
        client.add_file(filename.clone(), clone_ids(&node_ids));
        self.clients.set_and_swap(ci, &mut client);
        proof {
            assert(self.clients@ =~= before_clients.update(ci as int, self.clients@[ci as int]));
            lemma_client_update_same_id(before_clients, self.clients@, ci as int);
        }
        let r = clone_ids(&node_ids);
        proof {
            let post: Network = *self;
            // locations of the uploaded file
            assert(post.spec_locations_of(client_id, filename@) == Some(node_ids@));
            // node registry: relate id-based view to the index-based loop facts
            assert forall|j2: int| 0 <= j2 < node_ids@.len() implies {
                let id = #[trigger] node_ids@[j2];
                let prn = pre.spec_node_of(id);
                let pon = post.spec_node_of(id);
                &&& post.spec_has_node(id)
                &&& pon.spec_file_of(filename@) == Some(data@)
                &&& pon.available_space == prn.available_space + prn.spec_stored_size(filename@)
                    - data@.len()
                &&& pon.peer_id == prn.peer_id
                &&& pon.reserved_space == prn.reserved_space
                &&& pon.reputation == prn.reputation
                &&& pon.price_per_gb == prn.price_per_gb
                &&& forall|n: Seq<char>| n != filename@ ==> pon.spec_file_of(n) == prn.spec_file_of(n)
            } by {
                let i = idxs@[j2] as int;
                lemma_node_at(pre.storage_nodes@, i);
                lemma_node_at(post.storage_nodes@, i);
            }
            assert forall|id: u64| !node_ids@.contains(id) implies post.spec_has_node(id)
                == pre.spec_has_node(id) && (pre.spec_has_node(id) ==> post.spec_node_of(id)
                == pre.spec_node_of(id)) by {
                if pre.spec_has_node(id) {
                    let i = choose|i: int|
                        0 <= i < pre.storage_nodes@.len() && pre.storage_nodes@[i].peer_id == id;
                    lemma_node_at(pre.storage_nodes@, i);
                    assert forall|jj: int| 0 <= jj < k implies idxs@[jj] != i by {
                        if idxs@[jj] == i {
                            assert(node_ids@[jj] == id);
                            assert(node_ids@.contains(id));
                        }
                    }
                    assert(post.storage_nodes@[i] == pre.storage_nodes@[i]);
                    lemma_node_at(post.storage_nodes@, i);
                } else {
                    if post.spec_has_node(id) {
                        let i = choose|i: int|
                            0 <= i < post.storage_nodes@.len() && post.storage_nodes@[i].peer_id
                                == id;
                        assert(pre.storage_nodes@[i].peer_id == id);
                        assert(pre.spec_has_node(id));
                    }
                }
            }
            // the download of the fresh upload reaches the data
            if node_ids@.len() > 0 {
                lemma_first_replica_all_store(post, node_ids@, filename@, data@);
            }
        }
        Ok(r)
    }

    /// Uploads `data` under `filename` for a client: draws
    /// `replication_factor` distinct registered nodes uniformly at random,
    /// then stores, charges, indexes and opens deals exactly as
    /// `upload_file_to` does on the drawn placement.
    ///
    /// Failures are typed and leave the network unchanged. The placement is
    /// random, so whether a balance or capacity failure occurs can depend on
    /// the draw; when the client can afford every registered node and every
    /// registered node has room, the upload succeeds whatever was drawn.
    pub fn upload_file(
        &mut self,
        client_id: u64,
        filename: String,
        data: Vec<u8>,
        replication_factor: usize,
        now: u64,
    ) -> (r: Result<Vec<u64>, StorageError>)
        requires
            old(self).wf(),
        ensures
            final(self).wf(),
            r == Result::<Vec<u64>, StorageError>::Err(StorageError::InsufficientNodes)
                <==> replication_factor > old(self).storage_nodes@.len(),
            r is Err ==> *final(self) == *old(self),
            replication_factor <= old(self).storage_nodes@.len() && !old(self).spec_has_client(
                client_id,
            ) ==> r == Result::<Vec<u64>, StorageError>::Err(StorageError::ClientNotFound),
            r is Err ==> r.unwrap_err() == StorageError::InsufficientNodes || r.unwrap_err()
                == StorageError::ClientNotFound || r.unwrap_err()
                == StorageError::InsufficientBalance || r.unwrap_err()
                == StorageError::CapacityExceeded,
            r is Ok ==> {
                let ns = r.unwrap()@;
                &&& ns.len() == replication_factor
                &&& nodes_distinct(ns)
                &&& old(self).spec_nodes_registered(ns)
                &&& spec_upload_effect(
                    *old(self),
                    *final(self),
                    client_id,
                    ns,
                    filename@,
                    data@,
                    now,
                )
            },
            replication_factor <= old(self).storage_nodes@.len() && old(self).spec_has_client(
                client_id,
            ) && old(self).spec_balance_of(client_id) >= spec_total_cost(
                *old(self),
                spec_node_id_seq(*old(self)),
                data@.len(),
            ) && (forall|i: int|
                0 <= i < old(self).storage_nodes@.len() ==> data@.len() <= (
                #[trigger] old(self).storage_nodes@[i]).available_space) ==> r is Ok,
    {
        let n = self.storage_nodes.len();
        if replication_factor > n {
            return Err(StorageError::InsufficientNodes);
        }
        // Draw the placement; everything after the draw is verified for any
        // outcome the sampler may produce.
        let picks = crate::rng::sample_distinct_indices(n, replication_factor);
        let mut ids: Vec<u64> = Vec::new();
        let mut t: usize = 0;
        while t < replication_factor
            invariant
                t <= replication_factor,
                *self == *old(self),
                self.wf(),
                picks@.len() == replication_factor,
                replication_factor <= self.storage_nodes@.len(),
                forall|i: int|
                    0 <= i < picks@.len() ==> #[trigger] picks@[i] < self.storage_nodes@.len(),
                forall|i: int, j: int| 0 <= i < j < picks@.len() ==> picks@[i] != picks@[j],
                ids@.len() == t,
                forall|i: int|
                    0 <= i < t ==> #[trigger] ids@[i] == self.storage_nodes@[picks@[i] as int].peer_id,
            decreases replication_factor - t,
        {
            ids.push(self.storage_nodes[picks[t]].peer_id);
            t = t + 1;
        }
        proof {
            assert(nodes_distinct(ids@)) by {
                assert forall|i: int, j: int| 0 <= i < j < ids@.len() implies ids@[i] != ids@[j] by {
                    let a = picks@[i] as int;
                    let b = picks@[j] as int;
                    if a < b {
                        assert(self.storage_nodes@[a].peer_id != self.storage_nodes@[b].peer_id);
                    } else {
                        assert(self.storage_nodes@[b].peer_id != self.storage_nodes@[a].peer_id);
                    }
                }
            }
            assert forall|j: int| 0 <= j < ids@.len() implies self.spec_has_node(
                #[trigger] ids@[j],
            ) by {
                lemma_node_at(self.storage_nodes@, picks@[j] as int);
            }
            // when the client can pay for every node and every node fits,
            // the drawn subset can fail neither check
            if self.spec_balance_of(client_id) >= spec_total_cost(
                *self,
                spec_node_id_seq(*self),
                data@.len(),
            ) {
                assert(nodes_distinct(spec_node_id_seq(*self)));
                assert forall|j: int| 0 <= j < ids@.len() implies spec_node_id_seq(*self).contains(
                    #[trigger] ids@[j],
                ) by {
                    assert(spec_node_id_seq(*self)[picks@[j] as int] == ids@[j]);
                }
                lemma_subset_cost_le(*self, ids@, spec_node_id_seq(*self), data@.len());
            }
            assert forall|j: int| 0 <= j < ids@.len() implies self.spec_node_of(#[trigger] ids@[j])
                == self.storage_nodes@[picks@[j] as int] by {
                lemma_node_at(self.storage_nodes@, picks@[j] as int);
            }
        }
        self.upload_file_to(client_id, filename, data, ids, now)
    }

    /// Queues an offer of priced capacity at the back of the marketplace.
    pub fn add_storage_offer(&mut self, storage_node_id: u64, price_per_gb: u64, available_space: usize)
        ensures
            *final(self) == (Network { marketplace: final(self).marketplace, ..*old(self) }),
            final(self).marketplace@ == old(self).marketplace@.push(
                StorageOffer { storage_node_id, price_per_gb, available_space },
            ),
    {
        self.marketplace.push(StorageOffer { storage_node_id, price_per_gb, available_space });
    }

    /// Read-only view of the marketplace queue, front first.
    pub fn get_storage_offers(&self) -> (r: &Vec<StorageOffer>)
        ensures
            r == &self.marketplace,
    {
        &self.marketplace
    }

    /// Accepts the offer at `offer_index` for `file_size` bytes: the client
    /// pays `ceil(file_size / GiB)` times the offer's rate to the offer's
    /// node, the node sets `file_size` bytes aside, the offer leaves the
    /// queue, and any remaining advertised space is re-queued at the back —
    /// so offer indices are not stable across accepting calls.
    ///
    /// Checked in order: the index, the offer's node, the offer's space,
    /// the payment, the node's free space; a failure leaves everything
    /// unchanged.
    pub fn accept_storage_offer(&mut self, client_id: u64, offer_index: usize, file_size: usize) -> (r:
        Result<(), StorageError>)
        requires
            old(self).wf(),
        ensures
            final(self).wf(),
            r is Err ==> *final(self) == *old(self),
            offer_index >= old(self).marketplace@.len() <==> r == Err::<(), StorageError>(
                StorageError::OfferNotFound,
            ),
            r is Ok ==> offer_index < old(self).marketplace@.len(),
            ({
                let offer = old(self).marketplace@[offer_index as int];
                let price = spec_size_in_gib(file_size as nat) * offer.price_per_gb;
                &&& (offer_index < old(self).marketplace@.len() && !old(self).spec_has_node(
                    offer.storage_node_id,
                ) ==> r == Err::<(), StorageError>(StorageError::NodeNotFound))
                &&& (offer_index < old(self).marketplace@.len() && old(self).spec_has_node(
                    offer.storage_node_id,
                ) && file_size > offer.available_space ==> r == Err::<(), StorageError>(
                    StorageError::InsufficientSpace,
                ))
                &&& (offer_index < old(self).marketplace@.len() && old(self).spec_has_node(
                    offer.storage_node_id,
                ) && file_size <= offer.available_space && old(self).spec_balance_of(client_id)
                    < price ==> r == Err::<(), StorageError>(StorageError::InsufficientBalance))
                &&& (offer_index < old(self).marketplace@.len() && old(self).spec_has_node(
                    offer.storage_node_id,
                ) && file_size <= offer.available_space && old(self).spec_balance_of(client_id)
                    >= price && file_size > old(self).spec_node_of(
                    offer.storage_node_id,
                ).available_space ==> r == Err::<(), StorageError>(StorageError::CapacityExceeded))
                &&& (offer_index < old(self).marketplace@.len() && old(self).spec_has_node(
                    offer.storage_node_id,
                ) && file_size <= offer.available_space && old(self).spec_balance_of(client_id)
                    >= price && file_size <= old(self).spec_node_of(
                    offer.storage_node_id,
                ).available_space ==> r is Ok)
                &&& (r is Ok ==> {
                    let node_id = offer.storage_node_id;
                    &&& (client_id != node_id ==> final(self).spec_balance_of(client_id) == old(self).spec_balance_of(client_id) - price && final(self).spec_balance_of(node_id)
                        == old(self).spec_balance_of(node_id) + price)
                    &&& (client_id == node_id ==> final(self).spec_balance_of(client_id) == old(self).spec_balance_of(client_id))
                    &&& forall|a: u64|
                        a != client_id && a != node_id ==> final(self).spec_balance_of(a) == old(self).spec_balance_of(a)
                    &&& final(self).spec_node_of(node_id) == (StorageNode {
                        available_space: (old(self).spec_node_of(node_id).available_space
                            - file_size) as usize,
                        reserved_space: (old(self).spec_node_of(node_id).reserved_space
                            + file_size) as usize,
                        ..old(self).spec_node_of(node_id)
                    })
                    &&& forall|id: u64|
                        id != node_id ==> final(self).spec_has_node(id) == old(self).spec_has_node(
                            id,
                        ) && (old(self).spec_has_node(id) ==> final(self).spec_node_of(id) == old(self).spec_node_of(id))
                    &&& final(self).spec_has_node(node_id)
                    &&& (offer.available_space > file_size ==> final(self).marketplace@ == old(self).marketplace@.remove(offer_index as int).push(
                        StorageOffer {
                            storage_node_id: node_id,
                            price_per_gb: offer.price_per_gb,
                            available_space: (offer.available_space - file_size) as usize,
                        },
                    ))
                    &&& (offer.available_space == file_size ==> final(self).marketplace@ == old(self).marketplace@.remove(offer_index as int))
                    &&& final(self).clients@ == old(self).clients@
                    &&& final(self).deals@ == old(self).deals@
                    &&& final(self).bids@ == old(self).bids@
                    &&& final(self).debug_level == old(self).debug_level
                    &&& final(self).token.total_supply == old(self).token.total_supply
                })
            }),
    {
        if offer_index >= self.marketplace.len() {
            return Err(StorageError::OfferNotFound);
        }
        let offer = self.marketplace[offer_index];
        let ni = match self.find_node_index(offer.storage_node_id) {
            Some(i) => i,
            None => {
                return Err(StorageError::NodeNotFound);
            },
        };
        proof {
            lemma_node_at(self.storage_nodes@, ni as int);
        }
        if file_size > offer.available_space {
            return Err(StorageError::InsufficientSpace);
        }
        // ceil(file_size / GiB) * rate; a price beyond the token range
        // already exceeds any balance.
        let gib = size_in_gib(file_size);
        proof {
            assert((gib as u128) * (offer.price_per_gb as u128) <= (u64::MAX as u128) * (
            u64::MAX as u128)) by (nonlinear_arith)
                requires
                    gib <= u64::MAX,
                    offer.price_per_gb <= u64::MAX,
            ;
            assert((gib as u128) * (offer.price_per_gb as u128) == spec_size_in_gib(
                file_size as nat,
            ) * offer.price_per_gb) by (nonlinear_arith)
                requires
                    gib == spec_size_in_gib(file_size as nat),
            ;
        }
        let price128: u128 = (gib as u128) * (offer.price_per_gb as u128);
        if price128 > u64::MAX as u128 {
            return Err(StorageError::InsufficientBalance);
        }
        let price: u64 = price128 as u64;
        // The payment is validated before the reservation, and nothing is
        // moved until both checks pass, so a failure cannot leave the
        // client charged without space set aside.
        if self.token.balance_of(client_id) < price {
            return Err(StorageError::InsufficientBalance);
        }
        if file_size > self.storage_nodes[ni].available_space {
            return Err(StorageError::CapacityExceeded);
        }
        let res = self.token.transfer(client_id, offer.storage_node_id, price);
        proof {
            assert(res is Ok);
        }
        // Set the space aside on the node.
        let mut node = StorageNode::new(0, 0);
        let ghost before_nodes = self.storage_nodes@;
        self.storage_nodes.set_and_swap(ni, &mut node);
        let rr = node.reserve_space(file_size);
        proof {
            assert(rr is Ok);
        }
        self.storage_nodes.set_and_swap(ni, &mut node);
        proof {
            assert(self.storage_nodes@ =~= before_nodes.update(
                ni as int,
                self.storage_nodes@[ni as int],
            ));
            lemma_node_update_same_id(before_nodes, self.storage_nodes@, ni as int);
        }
        // Retire the accepted offer; any remainder re-enters at the back.
        self.marketplace.remove(offer_index);
        if offer.available_space > file_size {
            self.marketplace.push(
                StorageOffer {
                    storage_node_id: offer.storage_node_id,
                    price_per_gb: offer.price_per_gb,
                    available_space: offer.available_space - file_size,
                },
            );
        }
        Ok(())
    }

    /// Finds the first deal matching the (client, node, filename) triple and
    /// restarts its lease at `now`; fails with `DealNotFound`, changing
    /// nothing, exactly when no deal matches.
    pub fn renew_deal(&mut self, client_id: u64, storage_node_id: u64, filename: &String, now: u64) -> (r:
        Result<(), StorageError>)
        requires
            old(self).wf(),
        ensures
            final(self).wf(),
            r is Ok <==> exists|i: int|
                0 <= i < old(self).deals@.len() && spec_deal_matches(
                    #[trigger] old(self).deals@[i],
                    client_id,
                    storage_node_id,
                    filename@,
                ),
            r is Err ==> *final(self) == *old(self) && r == Err::<(), StorageError>(
                StorageError::DealNotFound,
            ),
            r is Ok ==> exists|i: int|
                {
                    &&& 0 <= i < old(self).deals@.len()
                    &&& spec_deal_matches(
                        #[trigger] old(self).deals@[i],
                        client_id,
                        storage_node_id,
                        filename@,
                    )
                    &&& forall|j: int|
                        0 <= j < i ==> !spec_deal_matches(
                            old(self).deals@[j],
                            client_id,
                            storage_node_id,
                            filename@,
                        )
                    &&& final(self).deals@ == old(self).deals@.update(
                        i,
                        (Deal { start_time: now, ..old(self).deals@[i] }),
                    )
                },
            r is Ok ==> *final(self) == (Network { deals: final(self).deals, ..*old(self) }),
    {
        let n = self.deals.len();
        let mut i: usize = 0;
        while i < n
            invariant
                i <= n,
                n == self.deals@.len(),
                *self == *old(self),
                self.wf(),
                forall|j: int|
                    0 <= j < i ==> !spec_deal_matches(
                        #[trigger] self.deals@[j],
                        client_id,
                        storage_node_id,
                        filename@,
                    ),
            decreases n - i,
        {
            if self.deals[i].client_id == client_id && self.deals[i].storage_node_id
                == storage_node_id && self.deals[i].filename == *filename {
                let renewed = Deal {
                    client_id: self.deals[i].client_id,
                    storage_node_id: self.deals[i].storage_node_id,
                    filename: self.deals[i].filename.clone(),
                    start_time: now,
                    duration: self.deals[i].duration,
                };
                self.deals.set(i, renewed);
                proof {
                    assert(spec_deal_matches(
                        old(self).deals@[i as int],
                        client_id,
                        storage_node_id,
                        filename@,
                    ));
                    assert(self.deals@ =~= old(self).deals@.update(
                        i as int,
                        (Deal { start_time: now, ..old(self).deals@[i as int] }),
                    ));
                }
                return Ok(());
            }
            i = i + 1;
        }
        proof {
            if exists|i: int|
                0 <= i < self.deals@.len() && spec_deal_matches(
                    #[trigger] self.deals@[i],
                    client_id,
                    storage_node_id,
                    filename@,
                ) {
                let c = choose|c: int|
                    0 <= c < self.deals@.len() && spec_deal_matches(
                        self.deals@[c],
                        client_id,
                        storage_node_id,
                        filename@,
                    );
                assert(!spec_deal_matches(self.deals@[c], client_id, storage_node_id, filename@));
            }
        }
        Err(StorageError::DealNotFound)
    }

    /// Reads the bytes of `filename` for a client: walks the replica set in
    /// its stored order and returns the first blob a listed, registered node
    /// holds. A node may have vanished from the registry while still being
    /// listed; it is skipped. Fails `ClientNotFound` for an unknown client,
    /// `FileNotFound` when nothing is indexed or no listed node holds the
    /// blob.
    pub fn download_file(&self, client_id: u64, filename: &String) -> (r: Result<
        Vec<u8>,
        StorageError,
    >)
        requires
            self.wf(),
        ensures
            !self.spec_has_client(client_id) ==> r == Err::<Vec<u8>, StorageError>(
                StorageError::ClientNotFound,
            ),
            self.spec_has_client(client_id) && self.spec_locations_of(client_id, filename@) is None
                ==> r == Err::<Vec<u8>, StorageError>(StorageError::FileNotFound),
            self.spec_has_client(client_id) && self.spec_locations_of(client_id, filename@) is Some
                ==> match self.spec_download(client_id, filename@) {
                Some(d) => r is Ok && r.unwrap()@ == d,
                Option::None => r == Err::<Vec<u8>, StorageError>(StorageError::FileNotFound),
            },
    {
        let ci = match self.find_client_index(client_id) {
            Some(i) => i,
            None => {
                return Err(StorageError::ClientNotFound);
            },
        };
        proof {
            lemma_client_at(self.clients@, ci as int);
        }
        let ns = match self.clients[ci].get_file_locations(filename) {
            Some(v) => v,
            None => {
                return Err(StorageError::FileNotFound);
            },
        };
        let n = ns.len();
        proof {
            assert(ns@.skip(0) =~= ns@);
        }
        let mut i: usize = 0;
        while i < n
            invariant
                i <= n,
                n == ns@.len(),
                self.wf(),
                self.spec_has_client(client_id),
                self.spec_locations_of(client_id, filename@) == Some(ns@),
                spec_first_replica(*self, ns@.skip(i as int), filename@) == spec_first_replica(
                    *self,
                    ns@,
                    filename@,
                ),
            decreases n - i,
        {
            proof {
                assert(ns@.skip(i as int).drop_first() =~= ns@.skip(i as int + 1));
                assert(ns@.skip(i as int)[0] == ns@[i as int]);
            }
            match self.find_node_index(ns[i]) {
                Some(idx) => {
                    proof {
                        lemma_node_at(self.storage_nodes@, idx as int);
                    }
                    match self.storage_nodes[idx].get_file(filename) {
                        Some(d) => {
                            return Ok(clone_bytes(d));
                        },
                        None => {},
                    }
                },
                None => {},
            }
            i = i + 1;
        }
        proof {
            assert(ns@.skip(n as int).len() == 0);
        }
        Err(StorageError::FileNotFound)
    }

    /// Reads the replica set a client's index lists for `filename`. Fails
    /// `ClientNotFound` for an unknown client and `FileNotFound` when
    /// nothing is indexed.
    pub fn get_file_locations(&self, client_id: u64, filename: &String) -> (r: Result<
        Vec<u64>,
        StorageError,
    >)
        requires
            self.wf(),
        ensures
            !self.spec_has_client(client_id) ==> r == Err::<Vec<u64>, StorageError>(
                StorageError::ClientNotFound,
            ),
            self.spec_has_client(client_id) ==> match self.spec_locations_of(client_id, filename@) {
                Some(ns) => r is Ok && r.unwrap()@ == ns,
                Option::None => r == Err::<Vec<u64>, StorageError>(StorageError::FileNotFound),
            },
    {
        let ci = match self.find_client_index(client_id) {
            Some(i) => i,
            None => {
                return Err(StorageError::ClientNotFound);
            },
        };
        proof {
            lemma_client_at(self.clients@, ci as int);
        }
        match self.clients[ci].get_file_locations(filename) {
            Some(v) => Ok(clone_ids(v)),
            None => Err(StorageError::FileNotFound),
        }
    }

    /// Reads the blob one particular node stores under `filename`. Fails
    /// `NodeNotFound` for an unknown node and `FileNotFound` when the node
    /// has no such blob.
    pub fn get_file_content(&self, node_id: u64, filename: &String) -> (r: Result<
        Vec<u8>,
        StorageError,
    >)
        requires
            self.wf(),
        ensures
            !self.spec_has_node(node_id) ==> r == Err::<Vec<u8>, StorageError>(
                StorageError::NodeNotFound,
            ),
            self.spec_has_node(node_id) ==> match self.spec_blob_of(node_id, filename@) {
                Some(d) => r is Ok && r.unwrap()@ == d,
                Option::None => r == Err::<Vec<u8>, StorageError>(StorageError::FileNotFound),
            },
    {
        let ni = match self.find_node_index(node_id) {
            Some(i) => i,
            None => {
                return Err(StorageError::NodeNotFound);
            },
        };
        proof {
            lemma_node_at(self.storage_nodes@, ni as int);
        }
        match self.storage_nodes[ni].get_file(filename) {
            Some(d) => Ok(clone_bytes(d)),
            None => Err(StorageError::FileNotFound),
        }
    }

    /// Removes `filename`'s blob from every node its replica set lists
    /// (skipping nodes that vanished or no longer hold it, so the removal
    /// cannot stop halfway), then drops the index entry. Deals are kept; the
    /// public `remove_file` purges them.
    fn remove_file_data(&mut self, client_id: u64, filename: &String) -> (r: Result<
        (),
        StorageError,
    >)
        requires
            old(self).wf(),
        ensures
            final(self).wf(),
            !old(self).spec_has_client(client_id) ==> r == Err::<(), StorageError>(
                StorageError::ClientNotFound,
            ),
            old(self).spec_has_client(client_id) && old(self).spec_locations_of(
                client_id,
                filename@,
            ) is None ==> r == Err::<(), StorageError>(StorageError::FileNotFound),
            r is Ok <==> old(self).spec_locations_of(client_id, filename@) is Some,
            r is Err ==> *final(self) == *old(self),
            r is Ok ==> ({
                let ns = old(self).spec_locations_of(client_id, filename@).unwrap();
                &&& final(self).spec_has_client(client_id)
                &&& final(self).spec_locations_of(client_id, filename@) is None
                &&& forall|n: Seq<char>|
                    n != filename@ ==> final(self).spec_client_of(client_id).spec_locations_of(n)
                        == old(self).spec_client_of(client_id).spec_locations_of(n)
                &&& forall|id: u64|
                    id != client_id ==> final(self).spec_has_client(id) == old(self).spec_has_client(id) && (old(self).spec_has_client(id) ==> final(self).spec_client_of(id) == old(self).spec_client_of(id))
                &&& forall|j: int|
                    0 <= j < ns.len() && old(self).spec_has_node(#[trigger] ns[j]) ==> {
                        let b = old(self).spec_node_of(ns[j]);
                        let a = final(self).spec_node_of(ns[j]);
                        &&& a.spec_file_of(filename@) is None
                        &&& forall|n: Seq<char>|
                            n != filename@ ==> a.spec_file_of(n) == b.spec_file_of(n)
                        &&& a.available_space == b.available_space + b.spec_stored_size(filename@)
                        &&& a.peer_id == b.peer_id
                        &&& a.reserved_space == b.reserved_space
                        &&& a.reputation == b.reputation
                        &&& a.price_per_gb == b.price_per_gb
                    }
                &&& forall|id: u64|
                    !ns.contains(id) ==> (old(self).spec_has_node(id) ==> final(self).spec_node_of(
                        id,
                    ) == old(self).spec_node_of(id))
                &&& forall|id: u64|
                    final(self).spec_has_node(id) == old(self).spec_has_node(id)
                &&& final(self).storage_nodes@.len() == old(self).storage_nodes@.len()
                &&& final(self).clients@.len() == old(self).clients@.len()
            }),
            final(self).deals@ == old(self).deals@,
            final(self).marketplace@ == old(self).marketplace@,
            final(self).token == old(self).token,
            final(self).bids@ == old(self).bids@,
            final(self).debug_level == old(self).debug_level,
    {
        let ci = match self.find_client_index(client_id) {
            Some(i) => i,
            None => {
                return Err(StorageError::ClientNotFound);
            },
        };
        proof {
            lemma_client_at(self.clients@, ci as int);
        }
        let ns = match self.clients[ci].get_file_locations(filename) {
            Some(v) => clone_ids(v),
            None => {
                return Err(StorageError::FileNotFound);
            },
        };
        let ghost pre = *old(self);
        let k = ns.len();
        let mut j: usize = 0;
        while j < k
            invariant
                j <= k,
                k == ns@.len(),
                pre == *old(self),
                pre.wf(),
                self.wf(),
                nodes_distinct(ns@),
                self.storage_nodes@.len() == pre.storage_nodes@.len(),
                forall|i: int|
                    0 <= i < self.storage_nodes@.len() ==> (#[trigger] self.storage_nodes@[i]).peer_id
                        == pre.storage_nodes@[i].peer_id,
                forall|i: int|
                    0 <= i < self.storage_nodes@.len() && (forall|jj: int|
                        0 <= jj < j ==> ns@[jj] != pre.storage_nodes@[i].peer_id) ==> (
                    #[trigger] self.storage_nodes@[i]) == pre.storage_nodes@[i],
                forall|jj: int|
                    0 <= jj < j && pre.spec_has_node(#[trigger] ns@[jj]) ==> {
                        let b = pre.spec_node_of(ns@[jj]);
                        let a = self.spec_node_of(ns@[jj]);
                        &&& self.spec_has_node(ns@[jj])
                        &&& a.spec_file_of(filename@) is None
                        &&& forall|n: Seq<char>|
                            n != filename@ ==> a.spec_file_of(n) == b.spec_file_of(n)
                        &&& a.available_space == b.available_space + b.spec_stored_size(filename@)
                        &&& a.peer_id == b.peer_id
                        &&& a.reserved_space == b.reserved_space
                        &&& a.reputation == b.reputation
                        &&& a.price_per_gb == b.price_per_gb
                    },
                self.clients@ == pre.clients@,
                self.deals@ == pre.deals@,
                self.marketplace@ == pre.marketplace@,
                self.token == pre.token,
                self.bids@ == pre.bids@,
                self.debug_level == pre.debug_level,
            decreases k - j,
        {
            match self.find_node_index(ns[j]) {
                Some(i) => {
                    proof {
                        assert(pre.storage_nodes@[i as int].peer_id == ns@[j as int]);
                        assert forall|jj: int| 0 <= jj < j implies ns@[jj]
                            != pre.storage_nodes@[i as int].peer_id by {
                            if ns@[jj] == ns@[j as int] {
                            }
                        }
                        assert(self.storage_nodes@[i as int] == pre.storage_nodes@[i as int]);
                        lemma_node_at(pre.storage_nodes@, i as int);
                    }
                    let mut node = StorageNode::new(0, 0);
                    let ghost before_vec = self.storage_nodes@;
                    self.storage_nodes.set_and_swap(i, &mut node);
                    let _ = node.remove_file(filename);
                    self.storage_nodes.set_and_swap(i, &mut node);
                    proof {
                        assert(self.storage_nodes@ =~= before_vec.update(
                            i as int,
                            self.storage_nodes@[i as int],
                        ));
                        lemma_node_update_same_id(before_vec, self.storage_nodes@, i as int);
                        lemma_node_at(self.storage_nodes@, i as int);
                        assert forall|i2: int|
                            0 <= i2 < self.storage_nodes@.len() && (forall|jj: int|
                                0 <= jj < j + 1 ==> ns@[jj]
                                    != pre.storage_nodes@[i2].peer_id) implies (
                        #[trigger] self.storage_nodes@[i2]) == pre.storage_nodes@[i2] by {
                            assert(ns@[j as int] == pre.storage_nodes@[i as int].peer_id);
                            assert(i2 != i as int);
                            assert(self.storage_nodes@[i2] == before_vec[i2]);
                        }
                    }
                },
                None => {
                    proof {
                        assert(!pre.spec_has_node(ns@[j as int])) by {
                            if pre.spec_has_node(ns@[j as int]) {
                                let c = choose|c: int|
                                    0 <= c < pre.storage_nodes@.len()
                                        && pre.storage_nodes@[c].peer_id == ns@[j as int];
                                assert(self.storage_nodes@[c].peer_id == ns@[j as int]);
                            }
                        }
                    }
                },
            }
            j = j + 1;
        }
        // Drop the whole index entry for this filename.
        let ghost before_clients = self.clients@;
        let mut client = Client::new(0);
        self.clients.set_and_swap(ci, &mut client);
        let _ = client.clear_file(filename);
        self.clients.set_and_swap(ci, &mut client);
        proof {
            assert(self.clients@ =~= before_clients.update(ci as int, self.clients@[ci as int]));
            lemma_client_update_same_id(before_clients, self.clients@, ci as int);
            // translate the index-based loop facts to identity-based ones
            let post = *self;
            assert forall|id: u64| !ns@.contains(id) && pre.spec_has_node(id) implies
                post.spec_node_of(id) == pre.spec_node_of(id) by {
                let i = choose|i: int|
                    0 <= i < pre.storage_nodes@.len() && pre.storage_nodes@[i].peer_id == id;
                lemma_node_at(pre.storage_nodes@, i);
                assert forall|jj: int| 0 <= jj < k implies ns@[jj]
                    != pre.storage_nodes@[i].peer_id by {
                    if ns@[jj] == id {
                        assert(ns@.contains(id));
                    }
                }
                assert(post.storage_nodes@[i] == pre.storage_nodes@[i]);
                lemma_node_at(post.storage_nodes@, i);
            }
            assert forall|id: u64| post.spec_has_node(id) == pre.spec_has_node(id) by {
                if pre.spec_has_node(id) {
                    let i = choose|i: int|
                        0 <= i < pre.storage_nodes@.len() && pre.storage_nodes@[i].peer_id == id;
                    assert(post.storage_nodes@[i].peer_id == id);
                } else {
                    if post.spec_has_node(id) {
                        let i = choose|i: int|
                            0 <= i < post.storage_nodes@.len() && post.storage_nodes@[i].peer_id
                                == id;
                        assert(pre.storage_nodes@[i].peer_id == id);
                    }
                }
            }
        }
        Ok(())
    }

    /// Removes `filename` for a client everywhere: frees the blob on every
    /// listed node, drops the index entry, and purges every deal matching
    /// `(client, filename)` whatever node it names. Fails `ClientNotFound`
    /// or `FileNotFound` (nothing indexed) with no state change.
    pub fn remove_file(&mut self, client_id: u64, filename: &String) -> (r: Result<
        (),
        StorageError,
    >)
        requires
            old(self).wf(),
        ensures
            final(self).wf(),
            !old(self).spec_has_client(client_id) ==> r == Err::<(), StorageError>(
                StorageError::ClientNotFound,
            ),
            old(self).spec_has_client(client_id) && old(self).spec_locations_of(
                client_id,
                filename@,
            ) is None ==> r == Err::<(), StorageError>(StorageError::FileNotFound),
            r is Ok <==> old(self).spec_locations_of(client_id, filename@) is Some,
            r is Err ==> *final(self) == *old(self),
            r is Ok ==> ({
                let ns = old(self).spec_locations_of(client_id, filename@).unwrap();
                &&& final(self).spec_has_client(client_id)
                &&& final(self).spec_locations_of(client_id, filename@) is None
                &&& forall|n: Seq<char>|
                    n != filename@ ==> final(self).spec_client_of(client_id).spec_locations_of(n)
                        == old(self).spec_client_of(client_id).spec_locations_of(n)
                &&& forall|id: u64|
                    id != client_id ==> final(self).spec_has_client(id) == old(self).spec_has_client(id) && (old(self).spec_has_client(id) ==> final(self).spec_client_of(id) == old(self).spec_client_of(id))
                &&& forall|j: int|
                    0 <= j < ns.len() && old(self).spec_has_node(#[trigger] ns[j]) ==> {
                        let b = old(self).spec_node_of(ns[j]);
                        let a = final(self).spec_node_of(ns[j]);
                        &&& a.spec_file_of(filename@) is None
                        &&& forall|n: Seq<char>|
                            n != filename@ ==> a.spec_file_of(n) == b.spec_file_of(n)
                        &&& a.available_space == b.available_space + b.spec_stored_size(filename@)
                        &&& a.peer_id == b.peer_id
                        &&& a.reserved_space == b.reserved_space
                        &&& a.reputation == b.reputation
                        &&& a.price_per_gb == b.price_per_gb
                    }
                &&& forall|id: u64|
                    !ns.contains(id) ==> (old(self).spec_has_node(id) ==> final(self).spec_node_of(
                        id,
                    ) == old(self).spec_node_of(id))
                &&& forall|id: u64|
                    final(self).spec_has_node(id) == old(self).spec_has_node(id)
                &&& final(self).deals@ == spec_deals_purged(old(self).deals@, client_id, filename@)
            }),
            final(self).marketplace@ == old(self).marketplace@,
            final(self).token == old(self).token,
            final(self).bids@ == old(self).bids@,
            final(self).debug_level == old(self).debug_level,
    {
        let res = self.remove_file_data(client_id, filename);
        if res.is_err() {
            return res;
        }
        // Purge the deals of this (client, filename) pair.
        let ghost mid = *self;
        let n = self.deals.len();
        let mut kept: Vec<Deal> = Vec::new();
        let mut i: usize = 0;
        while i < n
            invariant
                i <= n,
                n == self.deals@.len(),
                *self == mid,
                kept@ == spec_deals_purged(self.deals@.take(i as int), client_id, filename@),
            decreases n - i,
        {
            let d = &self.deals[i];
            proof {
                assert(self.deals@.take(i as int + 1).drop_last() =~= self.deals@.take(i as int));
                assert(self.deals@.take(i as int + 1).last() == self.deals@[i as int]);
            }
            if !(d.client_id == client_id && d.filename == *filename) {
                kept.push(
                    Deal {
                        client_id: d.client_id,
                        storage_node_id: d.storage_node_id,
                        filename: d.filename.clone(),
                        start_time: d.start_time,
                        duration: d.duration,
                    },
                );
                proof {
                    assert(kept@.last() == self.deals@[i as int]);
                    assert(kept@.drop_last() =~= spec_deals_purged(
                        self.deals@.take(i as int),
                        client_id,
                        filename@,
                    ));
                    assert(kept@ =~= spec_deals_purged(
                        self.deals@.take(i as int + 1),
                        client_id,
                        filename@,
                    ));
                }
            }
            i = i + 1;
        }
        proof {
            assert(self.deals@.take(n as int) =~= self.deals@);
        }
        self.deals = kept;
        Ok(())
    }

    /// The (client, filename) pairs of every deal expired at `now`, in deal
    /// order.
    fn collect_expired_pairs(&self, now: u64) -> (r: Vec<(u64, String)>)
        ensures
            forall|t: int|
                0 <= t < r@.len() ==> spec_pair_covers(self.deals@, now, #[trigger] r@[t]),
            forall|i: int|
                0 <= i < self.deals@.len() && spec_deal_expired(#[trigger] self.deals@[i], now)
                    ==> spec_deal_covered(r@, self.deals@[i]),
    {
        let n = self.deals.len();
        let mut r: Vec<(u64, String)> = Vec::new();
        let mut i: usize = 0;
        while i < n
            invariant
                i <= n,
                n == self.deals@.len(),
                forall|t: int|
                    0 <= t < r@.len() ==> spec_pair_covers(self.deals@, now, #[trigger] r@[t]),
                forall|i2: int|
                    0 <= i2 < i && spec_deal_expired(#[trigger] self.deals@[i2], now)
                        ==> spec_deal_covered(r@, self.deals@[i2]),
            decreases n - i,
        {
            let d = &self.deals[i];
            let lapsed = if now >= d.start_time {
                now - d.start_time > d.duration
            } else {
                false
            };
            proof {
                assert(lapsed == spec_deal_expired(self.deals@[i as int], now));
            }
            if lapsed {
                let ghost old_r = r@;
                r.push((d.client_id, d.filename.clone()));
                proof {
                    assert(forall|t: int| 0 <= t < old_r.len() ==> r@[t] == old_r[t]);
                    assert(spec_pair_covers(self.deals@, now, r@[r@.len() - 1])) by {
                        assert(spec_deal_expired(self.deals@[i as int], now));
                        assert(r@[r@.len() - 1].0 == self.deals@[i as int].client_id);
                        assert(r@[r@.len() - 1].1@ == self.deals@[i as int].filename@);
                    }
                    assert forall|i2: int|
                        0 <= i2 < i + 1 && spec_deal_expired(
                            #[trigger] self.deals@[i2],
                            now,
                        ) implies spec_deal_covered(r@, self.deals@[i2]) by {
                        if i2 < i {
                            let w = choose|w: int|
                                0 <= w < old_r.len() && (#[trigger] old_r[w]).0
                                    == self.deals@[i2].client_id && old_r[w].1@
                                    == self.deals@[i2].filename@;
                            assert((r@[w]).0 == self.deals@[i2].client_id && r@[w].1@
                                == self.deals@[i2].filename@);
                        } else {
                            assert((r@[r@.len() - 1]).0 == self.deals@[i2].client_id && r@[r@.len()
                                - 1].1@ == self.deals@[i2].filename@);
                        }
                    }
                }
            }
            i = i + 1;
        }
        r
    }

    /// Whether some collected pair carries this deal's client and filename.
    fn deal_is_covered(pairs: &Vec<(u64, String)>, d: &Deal) -> (r: bool)
        ensures
            r == spec_deal_covered(pairs@, *d),
    {
        let m = pairs.len();
        let mut t: usize = 0;
        while t < m
            invariant
                t <= m,
                m == pairs@.len(),
                forall|t2: int|
                    0 <= t2 < t ==> !((#[trigger] pairs@[t2]).0 == d.client_id && pairs@[t2].1@
                        == d.filename@),
            decreases m - t,
        {
            if pairs[t].0 == d.client_id && pairs[t].1 == d.filename {
                assert(spec_deal_covered(pairs@, *d)) by {
                    assert((pairs@[t as int]).0 == d.client_id && pairs@[t as int].1@
                        == d.filename@);
                }
                return true;
            }
            t = t + 1;
        }
        proof {
            if spec_deal_covered(pairs@, *d) {
                let w = choose|w: int|
                    0 <= w < pairs@.len() && (#[trigger] pairs@[w]).0 == d.client_id
                        && pairs@[w].1@ == d.filename@;
                assert(!(pairs@[w].0 == d.client_id && pairs@[w].1@ == d.filename@));
            }
        }
        false
    }

    /// Frees the blob and drops the index entry for each listed pair; the
    /// deal registry itself is untouched.
    #[verifier::rlimit(60)]
    fn sweep_pairs(&mut self, pairs: &Vec<(u64, String)>)
        requires
            old(self).wf(),
        ensures
            final(self).wf(),
            final(self).deals@ == old(self).deals@,
            final(self).marketplace@ == old(self).marketplace@,
            final(self).token == old(self).token,
            final(self).bids@ == old(self).bids@,
            final(self).debug_level == old(self).debug_level,
            forall|id: u64| final(self).spec_has_node(id) == old(self).spec_has_node(id),
            forall|id: u64| final(self).spec_has_client(id) == old(self).spec_has_client(id),
            forall|id: u64|
                old(self).spec_has_node(id) ==> {
                    let b = old(self).spec_node_of(id);
                    let a = final(self).spec_node_of(id);
                    &&& a.peer_id == b.peer_id
                    &&& a.reserved_space == b.reserved_space
                    &&& a.reputation == b.reputation
                    &&& a.price_per_gb == b.price_per_gb
                    &&& forall|f: Seq<char>|
                        (forall|t2: int| 0 <= t2 < pairs@.len() ==> (#[trigger] pairs@[t2]).1@ != f)
                            ==> #[trigger] a.spec_file_of(f) == b.spec_file_of(f)
                },
            forall|t2: int|
                0 <= t2 < pairs@.len() ==> final(self).spec_locations_of(
                    (#[trigger] pairs@[t2]).0,
                    pairs@[t2].1@,
                ) is None,
            forall|c: u64, f: Seq<char>|
                #![trigger final(self).spec_locations_of(c, f)]
                final(self).spec_locations_of(c, f) == old(self).spec_locations_of(c, f) || final(self).spec_locations_of(c, f) is None,
            forall|c: u64, f: Seq<char>|
                #![trigger old(self).spec_locations_of(c, f), final(self).spec_locations_of(c, f)]
                (old(self).spec_locations_of(c, f) is Some && final(self).spec_locations_of(c, f) is None)
                    ==> (forall|j: int|
                    0 <= j < old(self).spec_locations_of(c, f).unwrap().len() && final(self).spec_has_node(
                        #[trigger] old(self).spec_locations_of(c, f).unwrap()[j],
                    ) ==> !final(self).spec_node_of(
                        old(self).spec_locations_of(c, f).unwrap()[j],
                    ).spec_stores(f)),
    {
        let ghost pre = *old(self);
        let m = pairs.len();
        let mut t: usize = 0;
        while t < m
            invariant
                t <= m,
                m == pairs@.len(),
                pre == *old(self),
                pre.wf(),
                self.wf(),
                self.deals@ == pre.deals@,
                self.marketplace@ == pre.marketplace@,
                self.token == pre.token,
                self.bids@ == pre.bids@,
                self.debug_level == pre.debug_level,
                forall|id: u64| self.spec_has_node(id) == pre.spec_has_node(id),
                forall|id: u64| self.spec_has_client(id) == pre.spec_has_client(id),
                forall|id: u64|
                    pre.spec_has_node(id) ==> {
                        let b = pre.spec_node_of(id);
                        let a = self.spec_node_of(id);
                        &&& a.peer_id == b.peer_id
                        &&& a.reserved_space == b.reserved_space
                        &&& a.reputation == b.reputation
                        &&& a.price_per_gb == b.price_per_gb
                        &&& forall|f: Seq<char>|
                            (forall|t2: int|
                                0 <= t2 < pairs@.len() ==> (#[trigger] pairs@[t2]).1@ != f)
                                ==> #[trigger] a.spec_file_of(f) == b.spec_file_of(f)
                    },
                forall|t2: int|
                    0 <= t2 < t ==> self.spec_locations_of(
                        (#[trigger] pairs@[t2]).0,
                        pairs@[t2].1@,
                    ) is None,
                forall|c: u64, f: Seq<char>|
                    #![trigger self.spec_locations_of(c, f)]
                    self.spec_locations_of(c, f) == pre.spec_locations_of(c, f)
                        || self.spec_locations_of(c, f) is None,
                forall|c: u64, f: Seq<char>|
                    #![trigger pre.spec_locations_of(c, f), self.spec_locations_of(c, f)]
                    (pre.spec_locations_of(c, f) is Some && self.spec_locations_of(c, f) is None)
                        ==> (forall|j: int|
                        0 <= j < pre.spec_locations_of(c, f).unwrap().len() && self.spec_has_node(
                            #[trigger] pre.spec_locations_of(c, f).unwrap()[j],
                        ) ==> !self.spec_node_of(
                            pre.spec_locations_of(c, f).unwrap()[j],
                        ).spec_stores(f)),
                forall|id: u64, f: Seq<char>|
                    #![trigger self.spec_node_of(id).spec_stores(f)]
                    pre.spec_has_node(id) && !pre.spec_node_of(id).spec_stores(f)
                        ==> !self.spec_node_of(id).spec_stores(f),
            decreases m - t,
        {
            let c = pairs[t].0;
            let ghost before = *self;
            let res = {
                let f = &pairs[t].1;
                self.remove_file_data(c, f)
            };
            proof {
                let fv = pairs@[t as int].1@;
                if res is Err {
                    assert(*self == before);
                }
                assert(self.spec_locations_of(c, fv) is None);
                let ghost ns_cur = before.spec_locations_of(c, fv);
                // entries are only ever dropped, never changed or added
                assert forall|c2: u64, f2: Seq<char>|
                    #![trigger self.spec_locations_of(c2, f2)]
                    self.spec_locations_of(c2, f2) == pre.spec_locations_of(c2, f2)
                        || self.spec_locations_of(c2, f2) is None by {
                    if res is Ok {
                        if c2 == c {
                            if f2 != fv {
                                assert(self.spec_locations_of(c2, f2) == before.spec_locations_of(
                                    c2,
                                    f2,
                                ));
                            }
                        } else {
                            assert(self.spec_locations_of(c2, f2) == before.spec_locations_of(
                                c2,
                                f2,
                            ));
                        }
                    }
                }
                // a node never starts storing a blob during a sweep
                assert forall|id: u64, f2: Seq<char>|
                    #![trigger self.spec_node_of(id).spec_stores(f2)]
                    pre.spec_has_node(id) && !pre.spec_node_of(id).spec_stores(f2) implies !self.spec_node_of(
                    id,
                ).spec_stores(f2) by {
                    assert(!before.spec_node_of(id).spec_stores(f2));
                    if res is Ok {
                        assert(before.spec_has_node(id));
                        if ns_cur.unwrap().contains(id) {
                            let w = choose|w: int|
                                0 <= w < ns_cur.unwrap().len() && ns_cur.unwrap()[w] == id;
                            if f2 == fv {
                                assert(self.spec_node_of(id).spec_file_of(f2) is None);
                            } else {
                                assert(self.spec_node_of(id).spec_file_of(f2)
                                    == before.spec_node_of(id).spec_file_of(f2));
                            }
                        } else {
                            assert(self.spec_node_of(id) == before.spec_node_of(id));
                        }
                    }
                }
                // a node keeps its fields and every blob whose name no pair
                // carries
                assert forall|id: u64| pre.spec_has_node(id) implies {
                    let b = pre.spec_node_of(id);
                    let a = self.spec_node_of(id);
                    &&& a.peer_id == b.peer_id
                    &&& a.reserved_space == b.reserved_space
                    &&& a.reputation == b.reputation
                    &&& a.price_per_gb == b.price_per_gb
                    &&& forall|f: Seq<char>|
                        (forall|t2: int| 0 <= t2 < pairs@.len() ==> (#[trigger] pairs@[t2]).1@ != f)
                            ==> #[trigger] a.spec_file_of(f) == b.spec_file_of(f)
                } by {
                    let b = pre.spec_node_of(id);
                    let mid2 = before.spec_node_of(id);
                    if res is Ok {
                        assert(before.spec_has_node(id));
                        if ns_cur.unwrap().contains(id) {
                            assert forall|f: Seq<char>|
                                (forall|t2: int|
                                    0 <= t2 < pairs@.len() ==> (#[trigger] pairs@[t2]).1@
                                        != f) implies #[trigger] self.spec_node_of(
                                id,
                            ).spec_file_of(f) == b.spec_file_of(f) by {
                                assert(f != fv) by {
                                    assert(pairs@[t as int].1@ == fv);
                                }
                                assert(self.spec_node_of(id).spec_file_of(f) == mid2.spec_file_of(
                                    f,
                                ));
                            }
                        } else {
                            assert(self.spec_node_of(id) == mid2);
                        }
                    }
                }
                // a dropped entry means every node it listed lost the blob
                assert forall|c2: u64, f2: Seq<char>|
                    #![trigger pre.spec_locations_of(c2, f2), self.spec_locations_of(c2, f2)]
                    (pre.spec_locations_of(c2, f2) is Some && self.spec_locations_of(
                        c2,
                        f2,
                    ) is None) implies (forall|j: int|
                    0 <= j < pre.spec_locations_of(c2, f2).unwrap().len() && self.spec_has_node(
                        #[trigger] pre.spec_locations_of(c2, f2).unwrap()[j],
                    ) ==> !self.spec_node_of(pre.spec_locations_of(c2, f2).unwrap()[j]).spec_stores(
                        f2,
                    )) by {
                    let pns = pre.spec_locations_of(c2, f2).unwrap();
                    assert forall|j: int|
                        0 <= j < pns.len() && self.spec_has_node(#[trigger] pns[j]) implies !self.spec_node_of(
                        pns[j],
                    ).spec_stores(f2) by {
                        if before.spec_locations_of(c2, f2) is None {
                            // was already swept earlier; blobs cannot come back
                            assert(!before.spec_node_of(pns[j]).spec_stores(f2));
                            assert(before.spec_has_node(pns[j]));
                            if res is Ok {
                                if ns_cur.unwrap().contains(pns[j]) {
                                    let w = choose|w: int|
                                        0 <= w < ns_cur.unwrap().len() && ns_cur.unwrap()[w]
                                            == pns[j];
                                    if f2 == fv {
                                        assert(self.spec_node_of(pns[j]).spec_file_of(
                                            f2,
                                        ) is None);
                                    } else {
                                        assert(self.spec_node_of(pns[j]).spec_file_of(f2)
                                            == before.spec_node_of(pns[j]).spec_file_of(f2));
                                    }
                                } else {
                                    assert(self.spec_node_of(pns[j]) == before.spec_node_of(
                                        pns[j],
                                    ));
                                }
                            }
                        } else {
                            // the entry vanished in this very step, so it is
                            // this pair's entry and was still the original one
                            assert(res is Ok);
                            assert(c2 == c && f2 == fv) by {
                                if c2 != c {
                                    assert(self.spec_locations_of(c2, f2)
                                        == before.spec_locations_of(c2, f2));
                                } else if f2 != fv {
                                    assert(self.spec_locations_of(c2, f2)
                                        == before.spec_locations_of(c2, f2));
                                }
                            }
                            assert(before.spec_locations_of(c2, f2) == pre.spec_locations_of(
                                c2,
                                f2,
                            ));
                            assert(ns_cur.unwrap() == pns);
                            assert(ns_cur.unwrap().contains(pns[j])) by {
                                assert(ns_cur.unwrap()[j] == pns[j]);
                            }
                            assert(self.spec_node_of(pns[j]).spec_file_of(fv) is None);
                        }
                    }
                }
            }
            t = t + 1;
        }
    }

    /// Rebuilds the deal registry keeping exactly the deals no collected
    /// pair dooms.
    fn retain_undoomed(&mut self, pairs: &Vec<(u64, String)>, now: u64)
        requires
            old(self).wf(),
            forall|t2: int|
                0 <= t2 < pairs@.len() ==> spec_pair_covers(
                    old(self).deals@,
                    now,
                    #[trigger] pairs@[t2],
                ),
            forall|i: int|
                0 <= i < old(self).deals@.len() && spec_deal_expired(
                    #[trigger] old(self).deals@[i],
                    now,
                ) ==> spec_deal_covered(pairs@, old(self).deals@[i]),
        ensures
            final(self).wf(),
            *final(self) == (Network { deals: final(self).deals, ..*old(self) }),
            final(self).deals@ == spec_surviving_deals(
                old(self).deals@,
                old(self).deals@.len() as int,
                now,
            ),
    {
        let ghost pre = *old(self);
        let n = self.deals.len();
        let mut kept: Vec<Deal> = Vec::new();
        let mut i: usize = 0;
        while i < n
            invariant
                i <= n,
                n == self.deals@.len(),
                *self == pre,
                pre == *old(self),
                forall|t2: int|
                    0 <= t2 < pairs@.len() ==> spec_pair_covers(
                        pre.deals@,
                        now,
                        #[trigger] pairs@[t2],
                    ),
                forall|i2: int|
                    0 <= i2 < pre.deals@.len() && spec_deal_expired(#[trigger] pre.deals@[i2], now)
                        ==> spec_deal_covered(pairs@, pre.deals@[i2]),
                kept@ == spec_surviving_deals(pre.deals@, i as int, now),
            decreases n - i,
        {
            let d = &self.deals[i];
            let doomed = Self::deal_is_covered(pairs, d);
            proof {
                let dv = self.deals@[i as int];
                if doomed {
                    let w = choose|w: int|
                        0 <= w < pairs@.len() && (#[trigger] pairs@[w]).0 == dv.client_id
                            && pairs@[w].1@ == dv.filename@;
                    assert(spec_pair_covers(pre.deals@, now, pairs@[w]));
                    let iw = choose|iw: int|
                        0 <= iw < pre.deals@.len() && spec_deal_expired(
                            #[trigger] pre.deals@[iw],
                            now,
                        ) && pre.deals@[iw].client_id == (pairs@[w]).0 && pre.deals@[iw].filename@
                            == pairs@[w].1@;
                    assert(spec_deal_doomed(pre.deals@, dv, now));
                } else {
                    if spec_deal_doomed(pre.deals@, dv, now) {
                        let iw = choose|iw: int|
                            0 <= iw < pre.deals@.len() && spec_deal_expired(
                                #[trigger] pre.deals@[iw],
                                now,
                            ) && pre.deals@[iw].client_id == dv.client_id
                                && pre.deals@[iw].filename@ == dv.filename@;
                        assert(spec_deal_covered(pairs@, pre.deals@[iw]));
                        let w = choose|w: int|
                            0 <= w < pairs@.len() && (#[trigger] pairs@[w]).0
                                == pre.deals@[iw].client_id && pairs@[w].1@
                                == pre.deals@[iw].filename@;
                        assert((pairs@[w]).0 == dv.client_id && pairs@[w].1@ == dv.filename@);
                        assert(spec_deal_covered(pairs@, dv));
                    }
                }
            }
            if !doomed {
                kept.push(
                    Deal {
                        client_id: d.client_id,
                        storage_node_id: d.storage_node_id,
                        filename: d.filename.clone(),
                        start_time: d.start_time,
                        duration: d.duration,
                    },
                );
                proof {
                    assert(kept@.last() == self.deals@[i as int]);
                    assert(kept@.drop_last() =~= spec_surviving_deals(pre.deals@, i as int, now));
                    assert(kept@ =~= spec_surviving_deals(pre.deals@, i as int + 1, now));
                }
            }
            i = i + 1;
        }
        self.deals = kept;
    }

    /// The on-demand expiry sweep: every deal whose lease has lapsed at
    /// `now` is expired and cascaded — its blob leaves every node the
    /// owning client's replica set lists, the index entry is dropped, and
    /// every deal of that (client, filename) pair is deleted, whatever node
    /// it names. Sweeping twice at the same clock reading changes nothing
    /// the second time (see `lemma_sweep_idempotent`).
    #[verifier::rlimit(60)]
    pub fn check_deals(&mut self, now: u64)
        requires
            old(self).wf(),
        ensures
            final(self).wf(),
            spec_sweep_post(*old(self), *final(self), now),
    {
        let ghost pre = *old(self);
        let pairs = self.collect_expired_pairs(now);
        if pairs.is_empty() {
            proof {
                assert forall|i: int| 0 <= i < pre.deals@.len() implies !spec_deal_expired(
                    #[trigger] pre.deals@[i],
                    now,
                ) by {
                    if spec_deal_expired(pre.deals@[i], now) {
                        assert(spec_deal_covered(pairs@, pre.deals@[i]));
                        let t = choose|t: int|
                            0 <= t < pairs@.len() && (#[trigger] pairs@[t]).0
                                == pre.deals@[i].client_id && pairs@[t].1@
                                == pre.deals@[i].filename@;
                    }
                }
                lemma_surviving_no_expired(pre.deals@, pre.deals@.len() as int, now);
                assert(pre.deals@.take(pre.deals@.len() as int) =~= pre.deals@);
            }
            return ;
        }
        self.sweep_pairs(&pairs);
        let ghost mid = *self;
        self.retain_undoomed(&pairs, now);
        proof {
            let post = *self;
            // something was expired, else the pair list had been empty
            if forall|i: int|
                0 <= i < pre.deals@.len() ==> !spec_deal_expired(#[trigger] pre.deals@[i], now) {
                assert(spec_pair_covers(pre.deals@, now, pairs@[0]));
                let iw = choose|iw: int|
                    0 <= iw < pre.deals@.len() && spec_deal_expired(
                        #[trigger] pre.deals@[iw],
                        now,
                    ) && pre.deals@[iw].client_id == (pairs@[0]).0 && pre.deals@[iw].filename@
                        == pairs@[0].1@;
                assert(false);
            }
            // surviving deals are never expired
            lemma_surviving_sound(pre.deals@, pre.deals@.len() as int, now);
            assert forall|i2: int| 0 <= i2 < post.deals@.len() implies !spec_deal_expired(
                #[trigger] post.deals@[i2],
                now,
            ) by {
                if spec_deal_expired(post.deals@[i2], now) {
                    let iw = choose|iw: int|
                        0 <= iw < pre.deals@.len() && pre.deals@[iw] == post.deals@[i2];
                    assert(spec_deal_doomed(pre.deals@, post.deals@[i2], now));
                }
            }
            // expired deals lost their index entry and their blobs
            assert forall|i2: int|
                0 <= i2 < pre.deals@.len() && spec_deal_expired(
                    #[trigger] pre.deals@[i2],
                    now,
                ) implies post.spec_locations_of(
                pre.deals@[i2].client_id,
                pre.deals@[i2].filename@,
            ) is None by {
                assert(spec_deal_covered(pairs@, pre.deals@[i2]));
                let t2 = choose|t2: int|
                    0 <= t2 < pairs@.len() && (#[trigger] pairs@[t2]).0 == pre.deals@[i2].client_id
                        && pairs@[t2].1@ == pre.deals@[i2].filename@;
                assert(mid.spec_locations_of((pairs@[t2]).0, pairs@[t2].1@) is None);
            }
            assert forall|i2: int|
                0 <= i2 < pre.deals@.len() && spec_deal_expired(
                    #[trigger] pre.deals@[i2],
                    now,
                ) implies match pre.spec_locations_of(
                pre.deals@[i2].client_id,
                pre.deals@[i2].filename@,
            ) {
                Some(ns) => forall|j: int|
                    0 <= j < ns.len() && post.spec_has_node(#[trigger] ns[j])
                        ==> !post.spec_node_of(ns[j]).spec_stores(pre.deals@[i2].filename@),
                Option::None => true,
            } by {
                let cv = pre.deals@[i2].client_id;
                let fv = pre.deals@[i2].filename@;
                assert(spec_deal_covered(pairs@, pre.deals@[i2]));
                let t2 = choose|t2: int|
                    0 <= t2 < pairs@.len() && (#[trigger] pairs@[t2]).0 == cv && pairs@[t2].1@
                        == fv;
                assert(mid.spec_locations_of(cv, fv) is None);
                if pre.spec_locations_of(cv, fv) is Some {
                    assert(forall|j: int|
                        0 <= j < pre.spec_locations_of(cv, fv).unwrap().len() && mid.spec_has_node(
                            #[trigger] pre.spec_locations_of(cv, fv).unwrap()[j],
                        ) ==> !mid.spec_node_of(
                            pre.spec_locations_of(cv, fv).unwrap()[j],
                        ).spec_stores(fv));
                }
            }
        }
    }

    /// Whether an identity list contains `x`.
    fn ids_contain(v: &Vec<u64>, x: u64) -> (r: bool)
        ensures
            r == v@.contains(x),
    {
        let n = v.len();
        let mut i: usize = 0;
        while i < n
            invariant
                i <= n,
                n == v@.len(),
                forall|j: int| 0 <= j < i ==> v@[j] != x,
            decreases n - i,
        {
            if v[i] == x {
                return true;
            }
            i = i + 1;
        }
        proof {
            if v@.contains(x) {
                let w = choose|w: int| 0 <= w < v@.len() && v@[w] == x;
                assert(v@[w] != x);
            }
        }
        false
    }

    /// The result adding these replicas must produce, checked in this
    /// order: unknown client, nothing indexed, empty replica set, vanished
    /// source node, source blob gone, unknown new node, capacity.
    pub open spec fn spec_add_replicas_outcome(
        self,
        client_id: u64,
        name: Seq<char>,
        new_nodes: Seq<u64>,
    ) -> Result<(), StorageError> {
        if !self.spec_has_client(client_id) {
            Result::Err(StorageError::ClientNotFound)
        } else if self.spec_locations_of(client_id, name) is None {
            Result::Err(StorageError::FileNotFound)
        } else if self.spec_locations_of(client_id, name).unwrap().len() == 0 {
            Result::Err(StorageError::FileNotFound)
        } else if !self.spec_has_node(self.spec_locations_of(client_id, name).unwrap()[0]) {
            Result::Err(StorageError::NodeNotFound)
        } else if self.spec_node_of(self.spec_locations_of(client_id, name).unwrap()[0]).spec_file_of(
            name,
        ) is None {
            Result::Err(StorageError::FileNotFound)
        } else if !self.spec_nodes_registered(new_nodes) {
            Result::Err(StorageError::NodeNotFound)
        } else if !self.spec_nodes_fit(
            new_nodes,
            name,
            self.spec_node_of(self.spec_locations_of(client_id, name).unwrap()[0]).spec_file_of(
                name,
            ).unwrap().len(),
        ) {
            Result::Err(StorageError::CapacityExceeded)
        } else {
            Result::Ok(())
        }
    }

    /// The draw-independent checks of a replication request, in the order
    /// the operation makes them: unknown client, nothing indexed, factor
    /// not above the current count, too few candidate nodes outside the
    /// replica set, empty replica set, vanished source node, source blob
    /// gone. `None` means every one passes; the result is then decided only
    /// by whether the drawn targets can hold the blob.
    pub open spec fn spec_replication_request_checks(
        self,
        client_id: u64,
        name: Seq<char>,
        new_factor: int,
    ) -> Option<StorageError> {
        let cur = self.spec_locations_of(client_id, name).unwrap();
        if !self.spec_has_client(client_id) {
            Some(StorageError::ClientNotFound)
        } else if self.spec_locations_of(client_id, name) is None {
            Some(StorageError::FileNotFound)
        } else if new_factor <= cur.len() {
            Some(StorageError::InvalidReplicationFactor)
        } else if spec_candidates_outside(self.storage_nodes@, cur) < new_factor - cur.len() {
            Some(StorageError::InsufficientAdditionalNodes)
        } else if cur.len() == 0 {
            Some(StorageError::FileNotFound)
        } else if !self.spec_has_node(cur[0]) {
            Some(StorageError::NodeNotFound)
        } else if self.spec_node_of(cur[0]).spec_file_of(name) is None {
            Some(StorageError::FileNotFound)
        } else {
            Option::None
        }
    }

    /// The draw-independent checks of a spare-copy replication, in the
    /// order the operation makes them: unknown client, nothing indexed,
    /// empty replica set, vanished source node, source blob gone, too few
    /// nodes other than the source. `None` means every one passes; the
    /// result is then decided only by whether the drawn targets can hold
    /// the blob.
    pub open spec fn spec_replicate_checks(
        self,
        client_id: u64,
        name: Seq<char>,
        remaining: int,
    ) -> Option<StorageError> {
        let cur = self.spec_locations_of(client_id, name).unwrap();
        if !self.spec_has_client(client_id) {
            Some(StorageError::ClientNotFound)
        } else if self.spec_locations_of(client_id, name) is None {
            Some(StorageError::FileNotFound)
        } else if cur.len() == 0 {
            Some(StorageError::FileNotFound)
        } else if !self.spec_has_node(cur[0]) {
            Some(StorageError::NodeNotFound)
        } else if self.spec_node_of(cur[0]).spec_file_of(name) is None {
            Some(StorageError::FileNotFound)
        } else if spec_candidates_outside(self.storage_nodes@, seq![cur[0]]) < remaining {
            Some(StorageError::InsufficientAdditionalNodes)
        } else {
            Option::None
        }
    }

    /// Copies `filename`'s blob from the first listed replica onto each node
    /// in `new_nodes` and appends those nodes to the replica set. No deal is
    /// opened and nothing is charged for the added replicas: that is this
    /// marketplace's policy for replication requested after the upload.
    ///
    /// The placement is explicit here so callers (and tests) can pin
    /// outcomes; `request_higher_replication` draws it at random and
    /// delegates to this. Everything is validated before anything changes,
    /// so the operation is all-or-nothing.
    pub fn add_replicas(&mut self, client_id: u64, filename: &String, new_nodes: Vec<u64>) -> (r:
        Result<(), StorageError>)
        requires
            old(self).wf(),
            nodes_distinct(new_nodes@),
            match old(self).spec_locations_of(client_id, filename@) {
                Some(ns) => forall|j: int| 0 <= j < new_nodes@.len() ==> !ns.contains(#[trigger] new_nodes@[j]),
                Option::None => true,
            },
        ensures
            final(self).wf(),
            r == old(self).spec_add_replicas_outcome(client_id, filename@, new_nodes@),
            r is Err ==> *final(self) == *old(self),
            r is Ok ==> ({
                let cur = old(self).spec_locations_of(client_id, filename@).unwrap();
                let data = old(self).spec_node_of(cur[0]).spec_file_of(filename@).unwrap();
                &&& final(self).spec_locations_of(client_id, filename@) == Some(cur + new_nodes@)
                &&& forall|n: Seq<char>|
                    n != filename@ ==> final(self).spec_client_of(client_id).spec_locations_of(n)
                        == old(self).spec_client_of(client_id).spec_locations_of(n)
                &&& forall|id: u64|
                    id != client_id ==> final(self).spec_has_client(id) == old(self).spec_has_client(id) && (old(self).spec_has_client(id) ==> final(self).spec_client_of(id) == old(self).spec_client_of(id))
                &&& forall|j: int|
                    0 <= j < new_nodes@.len() ==> {
                        let id = #[trigger] new_nodes@[j];
                        let b = old(self).spec_node_of(id);
                        let a = final(self).spec_node_of(id);
                        &&& final(self).spec_has_node(id)
                        &&& a.spec_file_of(filename@) == Some(data)
                        &&& a.available_space == b.available_space + b.spec_stored_size(filename@)
                            - data.len()
                        &&& a.peer_id == b.peer_id
                        &&& a.reserved_space == b.reserved_space
                        &&& a.reputation == b.reputation
                        &&& a.price_per_gb == b.price_per_gb
                        &&& forall|n: Seq<char>|
                            n != filename@ ==> a.spec_file_of(n) == b.spec_file_of(n)
                    }
                &&& forall|id: u64|
                    !new_nodes@.contains(id) ==> final(self).spec_has_node(id) == old(self).spec_has_node(id) && (old(self).spec_has_node(id) ==> final(self).spec_node_of(id) == old(self).spec_node_of(id))
                &&& final(self).storage_nodes@.len() == old(self).storage_nodes@.len()
                &&& final(self).clients@.len() == old(self).clients@.len()
            }),
            final(self).deals@ == old(self).deals@,
            final(self).marketplace@ == old(self).marketplace@,
            final(self).token == old(self).token,
            final(self).bids@ == old(self).bids@,
            final(self).debug_level == old(self).debug_level,
    {
        let k = new_nodes.len();
        // The client and its current replica set.
        let ci = match self.find_client_index(client_id) {
            Some(i) => i,
            None => {
                return Err(StorageError::ClientNotFound);
            },
        };
        proof {
            lemma_client_at(self.clients@, ci as int);
        }
        let cur = match self.clients[ci].get_file_locations(filename) {
            Some(v) => clone_ids(v),
            None => {
                return Err(StorageError::FileNotFound);
            },
        };
        if cur.len() == 0 {
            return Err(StorageError::FileNotFound);
        }
        // The source replica and its blob.
        let si = match self.find_node_index(cur[0]) {
            Some(i) => i,
            None => {
                return Err(StorageError::NodeNotFound);
            },
        };
        proof {
            lemma_node_at(self.storage_nodes@, si as int);
        }
        let data = match self.storage_nodes[si].get_file(filename) {
            Some(d) => clone_bytes(d),
            None => {
                return Err(StorageError::FileNotFound);
            },
        };
        let size = data.len();
        proof {
            assert(old(self).spec_has_client(client_id));
            assert(old(self).spec_locations_of(client_id, filename@) == Some(cur@));
            assert(cur@.len() > 0);
            assert(old(self).spec_has_node(cur@[0]));
            assert(old(self).spec_node_of(cur@[0]).spec_file_of(filename@) == Some(data@));
        }
        // Resolve every new placement id.
        let mut idxs: Vec<usize> = Vec::new();
        let mut t: usize = 0;
        while t < k
            invariant
                t <= k,
                k == new_nodes@.len(),
                *self == *old(self),
                self.wf(),
                old(self).spec_has_client(client_id),
                old(self).spec_locations_of(client_id, filename@) == Some(cur@),
                cur@.len() > 0,
                old(self).spec_has_node(cur@[0]),
                old(self).spec_node_of(cur@[0]).spec_file_of(filename@) == Some(data@),
                size == data@.len(),
                idxs@.len() == t,
                forall|j: int|
                    0 <= j < t ==> #[trigger] idxs@[j] < self.storage_nodes@.len()
                        && self.storage_nodes@[idxs@[j] as int].peer_id == new_nodes@[j],
            decreases k - t,
        {
            match self.find_node_index(new_nodes[t]) {
                Some(i) => {
                    idxs.push(i);
                },
                None => {
                    proof {
                        assert(!old(self).spec_has_node(new_nodes@[t as int]));
                        assert(!old(self).spec_nodes_registered(new_nodes@));
                    }
                    return Err(StorageError::NodeNotFound);
                },
            }
            t = t + 1;
        }
        proof {
            assert forall|j: int| 0 <= j < new_nodes@.len() implies old(self).spec_has_node(
                #[trigger] new_nodes@[j],
            ) by {
                assert(self.storage_nodes@[idxs@[j] as int].peer_id == new_nodes@[j]);
            }
            assert(old(self).spec_nodes_registered(new_nodes@));
        }
        // Pre-validate capacity on every target: all-or-nothing.
        let mut j: usize = 0;
        while j < k
            invariant
                j <= k,
                k == new_nodes@.len(),
                *self == *old(self),
                self.wf(),
                old(self).spec_has_client(client_id),
                old(self).spec_locations_of(client_id, filename@) == Some(cur@),
                cur@.len() > 0,
                old(self).spec_has_node(cur@[0]),
                old(self).spec_node_of(cur@[0]).spec_file_of(filename@) == Some(data@),
                old(self).spec_nodes_registered(new_nodes@),
                size == data@.len(),
                idxs@.len() == k,
                forall|jj: int|
                    0 <= jj < k ==> #[trigger] idxs@[jj] < self.storage_nodes@.len()
                        && self.storage_nodes@[idxs@[jj] as int].peer_id == new_nodes@[jj],
                forall|jj: int|
                    0 <= jj < j ==> data@.len() <= (#[trigger] self.spec_node_of(
                        new_nodes@[jj],
                    )).available_space,
            decreases k - j,
        {
            let i = idxs[j];
            proof {
                lemma_node_at(self.storage_nodes@, i as int);
            }
            if size > self.storage_nodes[i].available_space {
                proof {
                    assert(data@.len() > old(self).spec_node_of(
                        new_nodes@[j as int],
                    ).available_space);
                    assert(!old(self).spec_nodes_fit(new_nodes@, filename@, data@.len()));
                }
                return Err(StorageError::CapacityExceeded);
            }
            j = j + 1;
        }
        proof {
            assert(old(self).spec_nodes_fit(new_nodes@, filename@, data@.len()));
        }
        // Commit: copy the blob onto each target.
        let ghost pre = *old(self);
        let mut j: usize = 0;
        while j < k
            invariant
                j <= k,
                k == new_nodes@.len(),
                nodes_distinct(new_nodes@),
                self.wf(),
                pre == *old(self),
                pre.wf(),
                pre.spec_has_client(client_id),
                pre.spec_locations_of(client_id, filename@) == Some(cur@),
                cur@.len() > 0,
                pre.spec_has_node(cur@[0]),
                pre.spec_node_of(cur@[0]).spec_file_of(filename@) == Some(data@),
                pre.spec_nodes_registered(new_nodes@),
                pre.spec_nodes_fit(new_nodes@, filename@, data@.len()),
                size == data@.len(),
                self.storage_nodes@.len() == pre.storage_nodes@.len(),
                idxs@.len() == k,
                forall|jj: int|
                    0 <= jj < k ==> #[trigger] idxs@[jj] < pre.storage_nodes@.len()
                        && pre.storage_nodes@[idxs@[jj] as int].peer_id == new_nodes@[jj],
                forall|i: int|
                    0 <= i < self.storage_nodes@.len() ==> (#[trigger] self.storage_nodes@[i]).peer_id
                        == pre.storage_nodes@[i].peer_id,
                forall|i: int|
                    0 <= i < self.storage_nodes@.len() && (forall|jj: int|
                        0 <= jj < j ==> idxs@[jj] != i) ==> #[trigger] self.storage_nodes@[i]
                        == pre.storage_nodes@[i],
                forall|jj: int|
                    0 <= jj < j ==> {
                        let i = #[trigger] idxs@[jj] as int;
                        let b = pre.storage_nodes@[i];
                        let a = self.storage_nodes@[i];
                        &&& a.spec_file_of(filename@) == Some(data@)
                        &&& a.available_space == b.available_space + b.spec_stored_size(filename@)
                            - data@.len()
                        &&& a.peer_id == b.peer_id
                        &&& a.reserved_space == b.reserved_space
                        &&& a.reputation == b.reputation
                        &&& a.price_per_gb == b.price_per_gb
                        &&& forall|n: Seq<char>|
                            n != filename@ ==> a.spec_file_of(n) == b.spec_file_of(n)
                    },
                forall|jj: int|
                    0 <= jj < k ==> data@.len() <= (#[trigger] pre.spec_node_of(
                        new_nodes@[jj],
                    )).available_space,
                self.clients@ == pre.clients@,
                self.deals@ == pre.deals@,
                self.marketplace@ == pre.marketplace@,
                self.token == pre.token,
                self.bids@ == pre.bids@,
                self.debug_level == pre.debug_level,
            decreases k - j,
        {
            let i = idxs[j];
            proof {
                assert forall|jj: int| 0 <= jj < j implies idxs@[jj] != i by {
                    if idxs@[jj] == i {
                        assert(pre.storage_nodes@[idxs@[jj] as int].peer_id == new_nodes@[jj]);
                        assert(pre.storage_nodes@[idxs@[j as int] as int].peer_id
                            == new_nodes@[j as int]);
                        assert(new_nodes@[jj] == new_nodes@[j as int]);
                    }
                }
                assert(self.storage_nodes@[i as int] == pre.storage_nodes@[i as int]);
                lemma_node_at(pre.storage_nodes@, i as int);
                assert(pre.spec_node_of(new_nodes@[j as int]) == pre.storage_nodes@[i as int]);
                assert(data@.len() <= pre.spec_node_of(new_nodes@[j as int]).available_space);
            }
            let mut node = StorageNode::new(0, 0);
            let ghost before_vec = self.storage_nodes@;
            self.storage_nodes.set_and_swap(i, &mut node);
            let res = node.store_file(filename.clone(), clone_bytes(&data));
            proof {
                assert(res is Ok);
            }
            self.storage_nodes.set_and_swap(i, &mut node);
            proof {
                assert(self.storage_nodes@ =~= before_vec.update(
                    i as int,
                    self.storage_nodes@[i as int],
                ));
            }
            j = j + 1;
        }
        // Union the new replicas into the client's entry.
        let mut merged = clone_ids(&cur);
        let mut t: usize = 0;
        while t < k
            invariant
                t <= k,
                k == new_nodes@.len(),
                merged@ == cur@ + new_nodes@.take(t as int),
            decreases k - t,
        {
            merged.push(new_nodes[t]);
            proof {
                assert(merged@ =~= cur@ + new_nodes@.take(t as int + 1));
            }
            t = t + 1;
        }
        proof {
            assert(new_nodes@.take(k as int) =~= new_nodes@);
            assert(merged@ == cur@ + new_nodes@);
            assert(nodes_distinct(merged@)) by {
                assert forall|a: int, b: int| 0 <= a < b < merged@.len() implies merged@[a]
                    != merged@[b] by {
                    let cl = cur@.len() as int;
                    if a < cl && b >= cl {
                        assert(merged@[b] == new_nodes@[b - cl]);
                        assert(merged@[a] == cur@[a]);
                        assert(!cur@.contains(new_nodes@[b - cl]));
                        if merged@[a] == merged@[b] {
                            assert(cur@.contains(new_nodes@[b - cl]));
                        }
                    }
                }
            }
        }
        let ghost before_clients = self.clients@;
        let mut client = Client::new(0);
        self.clients.set_and_swap(ci, &mut client);
        client.add_file(filename.clone(), merged);
        self.clients.set_and_swap(ci, &mut client);
        proof {
            assert(self.clients@ =~= before_clients.update(ci as int, self.clients@[ci as int]));
            lemma_client_update_same_id(before_clients, self.clients@, ci as int);
            let post = *self;
            assert forall|j2: int| 0 <= j2 < new_nodes@.len() implies {
                let id = #[trigger] new_nodes@[j2];
                let b = pre.spec_node_of(id);
                let a = post.spec_node_of(id);
                &&& post.spec_has_node(id)
                &&& a.spec_file_of(filename@) == Some(data@)
                &&& a.available_space == b.available_space + b.spec_stored_size(filename@)
                    - data@.len()
                &&& a.peer_id == b.peer_id
                &&& a.reserved_space == b.reserved_space
                &&& a.reputation == b.reputation
                &&& a.price_per_gb == b.price_per_gb
                &&& forall|n: Seq<char>| n != filename@ ==> a.spec_file_of(n) == b.spec_file_of(n)
            } by {
                let i = idxs@[j2] as int;
                lemma_node_at(pre.storage_nodes@, i);
                lemma_node_at(post.storage_nodes@, i);
            }
            assert forall|id: u64| !new_nodes@.contains(id) implies post.spec_has_node(id)
                == pre.spec_has_node(id) && (pre.spec_has_node(id) ==> post.spec_node_of(id)
                == pre.spec_node_of(id)) by {
                if pre.spec_has_node(id) {
                    let i = choose|i: int|
                        0 <= i < pre.storage_nodes@.len() && pre.storage_nodes@[i].peer_id == id;
                    lemma_node_at(pre.storage_nodes@, i);
                    assert forall|jj: int| 0 <= jj < k implies idxs@[jj] != i by {
                        if idxs@[jj] == i {
                            assert(new_nodes@[jj] == id);
                            assert(new_nodes@.contains(id));
                        }
                    }
                    assert(post.storage_nodes@[i] == pre.storage_nodes@[i]);
                    lemma_node_at(post.storage_nodes@, i);
                } else {
                    if post.spec_has_node(id) {
                        let i = choose|i: int|
                            0 <= i < post.storage_nodes@.len() && post.storage_nodes@[i].peer_id
                                == id;
                        assert(pre.storage_nodes@[i].peer_id == id);
                        assert(pre.spec_has_node(id));
                    }
                }
            }
        }
        Ok(())
    }

    /// Raises `filename`'s replication to `new_replication_factor` replicas
    /// for a client: draws the additional nodes uniformly at random among
    /// registered nodes outside the current replica set, copies the blob
    /// from the first listed replica onto each, and unions them into the
    /// replica set. No deal is opened and nothing is charged for the added
    /// replicas. A factor not above the current replica count fails with
    /// `InvalidReplicationFactor` and changes nothing; every failure leaves
    /// the network unchanged, and when every registered node outside the
    /// replica set can hold the blob the request succeeds whatever was
    /// drawn.
    pub fn request_higher_replication(
        &mut self,
        client_id: u64,
        filename: &String,
        new_replication_factor: usize,
    ) -> (r: Result<(), StorageError>)
        requires
            old(self).wf(),
        ensures
            final(self).wf(),
            r is Err ==> *final(self) == *old(self),
            ({
                let checks = old(self).spec_replication_request_checks(
                    client_id,
                    filename@,
                    new_replication_factor as int,
                );
                &&& (checks is Some ==> r == Err::<(), StorageError>(checks.unwrap()))
                &&& (r is Err ==> checks == Some(r.unwrap_err()) || (checks is None && r == Err::<
                    (),
                    StorageError,
                >(StorageError::CapacityExceeded)))
            }),
            // when every registered node outside the replica set can hold
            // the blob, no draw can fail: success is guaranteed
            old(self).spec_replication_request_checks(
                client_id,
                filename@,
                new_replication_factor as int,
            ) is None && (forall|i: int|
                0 <= i < old(self).storage_nodes@.len() && !old(self).spec_locations_of(
                    client_id,
                    filename@,
                ).unwrap().contains((#[trigger] old(self).storage_nodes@[i]).peer_id) ==> old(self).spec_node_of(
                old(self).spec_locations_of(client_id, filename@).unwrap()[0],
            ).spec_file_of(filename@).unwrap().len() <= old(self).storage_nodes@[i].available_space)
                ==> r is Ok,
            r is Ok ==> ({
                let cur = old(self).spec_locations_of(client_id, filename@).unwrap();
                let post_ns = final(self).spec_locations_of(client_id, filename@).unwrap();
                let added = post_ns.skip(cur.len() as int);
                let data = old(self).spec_node_of(cur[0]).spec_file_of(filename@).unwrap();
                &&& old(self).spec_locations_of(client_id, filename@) is Some
                &&& final(self).spec_locations_of(client_id, filename@) is Some
                &&& post_ns.len() == new_replication_factor
                &&& post_ns.take(cur.len() as int) == cur
                &&& nodes_distinct(added)
                &&& forall|j: int|
                    0 <= j < added.len() ==> old(self).spec_has_node(#[trigger] added[j])
                        && !cur.contains(added[j])
                &&& forall|j: int|
                    0 <= j < added.len() ==> final(self).spec_node_of(
                        #[trigger] added[j],
                    ).spec_file_of(filename@) == Some(data)
                &&& forall|id: u64|
                    !added.contains(id) ==> (old(self).spec_has_node(id) ==> final(self).spec_node_of(id) == old(self).spec_node_of(id))
                &&& forall|id: u64|
                    final(self).spec_has_node(id) == old(self).spec_has_node(id)
                &&& forall|n: Seq<char>|
                    n != filename@ ==> final(self).spec_client_of(client_id).spec_locations_of(n)
                        == old(self).spec_client_of(client_id).spec_locations_of(n)
                &&& forall|id: u64|
                    id != client_id ==> final(self).spec_has_client(id) == old(self).spec_has_client(id) && (old(self).spec_has_client(id) ==> final(self).spec_client_of(id) == old(self).spec_client_of(id))
            }),
            final(self).deals@ == old(self).deals@,
            final(self).marketplace@ == old(self).marketplace@,
            final(self).token == old(self).token,
            final(self).bids@ == old(self).bids@,
            final(self).debug_level == old(self).debug_level,
    {
        let ci = match self.find_client_index(client_id) {
            Some(i) => i,
            None => {
                return Err(StorageError::ClientNotFound);
            },
        };
        proof {
            lemma_client_at(self.clients@, ci as int);
        }
        let cur = match self.clients[ci].get_file_locations(filename) {
            Some(v) => clone_ids(v),
            None => {
                return Err(StorageError::FileNotFound);
            },
        };
        if new_replication_factor <= cur.len() {
            return Err(StorageError::InvalidReplicationFactor);
        }
        let needed = new_replication_factor - cur.len();
        // Gather the registered nodes outside the current replica set.
        let n = self.storage_nodes.len();
        let mut candidates: Vec<u64> = Vec::new();
        let mut i: usize = 0;
        while i < n
            invariant
                i <= n,
                n == self.storage_nodes@.len(),
                *self == *old(self),
                self.wf(),
                candidates@.len() == spec_candidates_outside(
                    self.storage_nodes@.take(i as int),
                    cur@,
                ),
                forall|j: int, j2: int|
                    0 <= j < j2 < candidates@.len() ==> candidates@[j] != candidates@[j2],
                forall|j: int|
                    0 <= j < candidates@.len() ==> self.spec_has_node(#[trigger] candidates@[j])
                        && !cur@.contains(candidates@[j]),
                forall|j: int|
                    0 <= j < candidates@.len() ==> exists|i2: int|
                        0 <= i2 < i && #[trigger] candidates@[j]
                            == self.storage_nodes@[i2].peer_id,
            decreases n - i,
        {
            let id = self.storage_nodes[i].peer_id;
            proof {
                assert(self.storage_nodes@.take(i as int + 1).drop_last()
                    =~= self.storage_nodes@.take(i as int));
                assert(self.storage_nodes@.take(i as int + 1).last() == self.storage_nodes@[i as int]);
                lemma_node_at(self.storage_nodes@, i as int);
            }
            if !Self::ids_contain(&cur, id) {
                proof {
                    assert forall|j: int| 0 <= j < candidates@.len() implies candidates@[j]
                        != id by {
                        let i2 = choose|i2: int|
                            0 <= i2 < i && candidates@[j] == self.storage_nodes@[i2].peer_id;
                        assert(self.storage_nodes@[i2].peer_id
                            != self.storage_nodes@[i as int].peer_id);
                    }
                }
                let ghost oldc = candidates@;
                candidates.push(id);
                proof {
                    assert forall|j: int| 0 <= j < candidates@.len() implies exists|i2: int|
                        0 <= i2 < i + 1 && #[trigger] candidates@[j]
                            == self.storage_nodes@[i2].peer_id by {
                        if j < oldc.len() {
                            let i2 = choose|i2: int|
                                0 <= i2 < i && oldc[j] == self.storage_nodes@[i2].peer_id;
                            assert(candidates@[j] == self.storage_nodes@[i2].peer_id);
                        } else {
                            assert(candidates@[j] == self.storage_nodes@[i as int].peer_id);
                        }
                    }
                }
            }
            i = i + 1;
        }
        proof {
            assert(self.storage_nodes@.take(n as int) =~= self.storage_nodes@);
        }
        if candidates.len() < needed {
            return Err(StorageError::InsufficientAdditionalNodes);
        }
        // Draw the additional placement; the copy itself is verified for
        // any outcome the sampler may produce.
        let picks = crate::rng::sample_distinct_indices(candidates.len(), needed);
        let mut sel: Vec<u64> = Vec::new();
        let mut t: usize = 0;
        while t < needed
            invariant
                t <= needed,
                *self == *old(self),
                self.wf(),
                picks@.len() == needed,
                needed <= candidates@.len(),
                forall|j: int, j2: int|
                    0 <= j < j2 < candidates@.len() ==> candidates@[j] != candidates@[j2],
                forall|j: int|
                    0 <= j < candidates@.len() ==> self.spec_has_node(#[trigger] candidates@[j])
                        && !cur@.contains(candidates@[j]),
                forall|j: int| 0 <= j < picks@.len() ==> #[trigger] picks@[j] < candidates@.len(),
                forall|j: int, j2: int| 0 <= j < j2 < picks@.len() ==> picks@[j] != picks@[j2],
                sel@.len() == t,
                forall|j: int| 0 <= j < t ==> #[trigger] sel@[j] == candidates@[picks@[j] as int],
            decreases needed - t,
        {
            sel.push(candidates[picks[t]]);
            t = t + 1;
        }
        proof {
            assert(nodes_distinct(sel@)) by {
                assert forall|a: int, b: int| 0 <= a < b < sel@.len() implies sel@[a] != sel@[b] by {
                    let pa = picks@[a] as int;
                    let pb = picks@[b] as int;
                    if pa < pb {
                        assert(candidates@[pa] != candidates@[pb]);
                    } else {
                        assert(candidates@[pb] != candidates@[pa]);
                    }
                }
            }
            assert forall|j: int| 0 <= j < sel@.len() implies self.spec_has_node(
                #[trigger] sel@[j],
            ) && !cur@.contains(sel@[j]) by {
                assert(sel@[j] == candidates@[picks@[j] as int]);
            }
        }
        let ghost selv = sel@;
        let res = self.add_replicas(client_id, filename, sel);
        proof {
            if res is Ok {
                let post_ns = (cur@ + selv);
                assert(final(self).spec_locations_of(client_id, filename@) == Some(post_ns));
                assert(post_ns.take(cur@.len() as int) =~= cur@);
                assert(post_ns.skip(cur@.len() as int) =~= selv);
            }
        }
        res
    }

    /// Copies `filename`'s blob from the first listed replica onto
    /// `remaining_replications` further nodes drawn uniformly at random
    /// among every registered node except that source — a chain replication
    /// run iteratively with an explicit excluded set. The client's index,
    /// the deals and the ledger are untouched: replicas made this way are
    /// spare copies, not indexed placements. Every failure leaves the
    /// network unchanged; zero copies always succeed, and when every
    /// registered node other than the source can hold the blob the call
    /// succeeds whatever was drawn.
    #[verifier::rlimit(30)]
    pub fn replicate_file(
        &mut self,
        client_id: u64,
        filename: &String,
        remaining_replications: usize,
    ) -> (r: Result<(), StorageError>)
        requires
            old(self).wf(),
        ensures
            final(self).wf(),
            r is Err ==> *final(self) == *old(self),
            ({
                let checks = old(self).spec_replicate_checks(
                    client_id,
                    filename@,
                    remaining_replications as int,
                );
                &&& (checks is Some ==> r == Err::<(), StorageError>(checks.unwrap()))
                &&& (r is Err ==> checks == Some(r.unwrap_err()) || (checks is None && r == Err::<
                    (),
                    StorageError,
                >(StorageError::CapacityExceeded)))
            }),
            // zero copies always succeed, and so does any count when every
            // registered node other than the source can hold the blob
            old(self).spec_replicate_checks(
                client_id,
                filename@,
                remaining_replications as int,
            ) is None && remaining_replications == 0 ==> r is Ok,
            old(self).spec_replicate_checks(
                client_id,
                filename@,
                remaining_replications as int,
            ) is None && (forall|i: int|
                0 <= i < old(self).storage_nodes@.len() && (#[trigger] old(self).storage_nodes@[i]).peer_id
                    != old(self).spec_locations_of(client_id, filename@).unwrap()[0] ==> old(self).spec_node_of(
                old(self).spec_locations_of(client_id, filename@).unwrap()[0],
            ).spec_file_of(filename@).unwrap().len() <= old(self).storage_nodes@[i].available_space)
                ==> r is Ok,
            r is Ok ==> ({
                let cur = old(self).spec_locations_of(client_id, filename@).unwrap();
                let data = old(self).spec_node_of(cur[0]).spec_file_of(filename@).unwrap();
                exists|sel: Seq<u64>|
                    {
                        &&& sel.len() == remaining_replications
                        &&& nodes_distinct(sel)
                        &&& forall|j: int|
                            0 <= j < sel.len() ==> old(self).spec_has_node(#[trigger] sel[j])
                                && sel[j] != cur[0]
                        &&& forall|j: int|
                            0 <= j < sel.len() ==> {
                                let b = old(self).spec_node_of(#[trigger] sel[j]);
                                let a = final(self).spec_node_of(sel[j]);
                                &&& a.spec_file_of(filename@) == Some(data)
                                &&& a.available_space == b.available_space + b.spec_stored_size(
                                    filename@,
                                ) - data.len()
                                &&& a.peer_id == b.peer_id
                                &&& a.reserved_space == b.reserved_space
                                &&& a.reputation == b.reputation
                                &&& a.price_per_gb == b.price_per_gb
                                &&& forall|n: Seq<char>|
                                    n != filename@ ==> a.spec_file_of(n) == b.spec_file_of(n)
                            }
                        &&& forall|id: u64|
                            !sel.contains(id) ==> (old(self).spec_has_node(id) ==> final(self).spec_node_of(id) == old(self).spec_node_of(id))
                    }
            }),
            forall|id: u64| final(self).spec_has_node(id) == old(self).spec_has_node(id),
            final(self).clients@ == old(self).clients@,
            final(self).deals@ == old(self).deals@,
            final(self).marketplace@ == old(self).marketplace@,
            final(self).token == old(self).token,
            final(self).bids@ == old(self).bids@,
            final(self).debug_level == old(self).debug_level,
    {
        let k = remaining_replications;
        let ci = match self.find_client_index(client_id) {
            Some(i) => i,
            None => {
                return Err(StorageError::ClientNotFound);
            },
        };
        proof {
            lemma_client_at(self.clients@, ci as int);
        }
        let cur = match self.clients[ci].get_file_locations(filename) {
            Some(v) => clone_ids(v),
            None => {
                return Err(StorageError::FileNotFound);
            },
        };
        if cur.len() == 0 {
            return Err(StorageError::FileNotFound);
        }
        let source = cur[0];
        let si = match self.find_node_index(source) {
            Some(i) => i,
            None => {
                return Err(StorageError::NodeNotFound);
            },
        };
        proof {
            lemma_node_at(self.storage_nodes@, si as int);
        }
        let data = match self.storage_nodes[si].get_file(filename) {
            Some(d) => clone_bytes(d),
            None => {
                return Err(StorageError::FileNotFound);
            },
        };
        let size = data.len();
        proof {
            assert(old(self).spec_has_client(client_id));
            assert(old(self).spec_locations_of(client_id, filename@) == Some(cur@));
            assert(cur@.len() > 0);
            assert(old(self).spec_has_node(source));
            assert(old(self).spec_node_of(source).spec_file_of(filename@) == Some(data@));
        }
        // Candidates: every registered node except the source.
        let n = self.storage_nodes.len();
        let ghost excl: Seq<u64> = seq![source];
        let mut candidates: Vec<u64> = Vec::new();
        let mut i: usize = 0;
        while i < n
            invariant
                i <= n,
                n == self.storage_nodes@.len(),
                *self == *old(self),
                self.wf(),
                excl == seq![source],
                candidates@.len() == spec_candidates_outside(
                    self.storage_nodes@.take(i as int),
                    excl,
                ),
                forall|j: int, j2: int|
                    0 <= j < j2 < candidates@.len() ==> candidates@[j] != candidates@[j2],
                forall|j: int|
                    0 <= j < candidates@.len() ==> self.spec_has_node(#[trigger] candidates@[j])
                        && candidates@[j] != source,
                forall|j: int|
                    0 <= j < candidates@.len() ==> exists|i2: int|
                        0 <= i2 < i && #[trigger] candidates@[j]
                            == self.storage_nodes@[i2].peer_id,
            decreases n - i,
        {
            let id = self.storage_nodes[i].peer_id;
            proof {
                assert(self.storage_nodes@.take(i as int + 1).drop_last()
                    =~= self.storage_nodes@.take(i as int));
                assert(self.storage_nodes@.take(i as int + 1).last()
                    == self.storage_nodes@[i as int]);
                lemma_node_at(self.storage_nodes@, i as int);
                assert(excl.contains(id) <==> id == source) by {
                    if excl.contains(id) {
                        let w = choose|w: int| 0 <= w < excl.len() && excl[w] == id;
                        assert(w == 0);
                    }
                    if id == source {
                        assert(excl[0] == id);
                    }
                }
            }
            if id != source {
                proof {
                    assert forall|j: int| 0 <= j < candidates@.len() implies candidates@[j]
                        != id by {
                        let i2 = choose|i2: int|
                            0 <= i2 < i && candidates@[j] == self.storage_nodes@[i2].peer_id;
                        assert(self.storage_nodes@[i2].peer_id
                            != self.storage_nodes@[i as int].peer_id);
                    }
                }
                let ghost oldc = candidates@;
                candidates.push(id);
                proof {
                    assert forall|j: int| 0 <= j < candidates@.len() implies exists|i2: int|
                        0 <= i2 < i + 1 && #[trigger] candidates@[j]
                            == self.storage_nodes@[i2].peer_id by {
                        if j < oldc.len() {
                            let i2 = choose|i2: int|
                                0 <= i2 < i && oldc[j] == self.storage_nodes@[i2].peer_id;
                            assert(candidates@[j] == self.storage_nodes@[i2].peer_id);
                        } else {
                            assert(candidates@[j] == self.storage_nodes@[i as int].peer_id);
                        }
                    }
                }
            }
            i = i + 1;
        }
        proof {
            assert(self.storage_nodes@.take(n as int) =~= self.storage_nodes@);
        }
        if candidates.len() < k {
            return Err(StorageError::InsufficientAdditionalNodes);
        }
        // Draw the targets; what follows is verified for any draw.
        let picks = crate::rng::sample_distinct_indices(candidates.len(), k);
        let mut sel: Vec<u64> = Vec::new();
        let mut t: usize = 0;
        while t < k
            invariant
                t <= k,
                *self == *old(self),
                self.wf(),
                picks@.len() == k,
                k <= candidates@.len(),
                forall|j: int, j2: int|
                    0 <= j < j2 < candidates@.len() ==> candidates@[j] != candidates@[j2],
                forall|j: int|
                    0 <= j < candidates@.len() ==> self.spec_has_node(#[trigger] candidates@[j])
                        && candidates@[j] != source,
                forall|j: int| 0 <= j < picks@.len() ==> #[trigger] picks@[j] < candidates@.len(),
                forall|j: int, j2: int| 0 <= j < j2 < picks@.len() ==> picks@[j] != picks@[j2],
                sel@.len() == t,
                forall|j: int| 0 <= j < t ==> #[trigger] sel@[j] == candidates@[picks@[j] as int],
            decreases k - t,
        {
            sel.push(candidates[picks[t]]);
            t = t + 1;
        }
        proof {
            assert(nodes_distinct(sel@)) by {
                assert forall|a: int, b: int| 0 <= a < b < sel@.len() implies sel@[a] != sel@[b] by {
                    let pa = picks@[a] as int;
                    let pb = picks@[b] as int;
                    if pa < pb {
                        assert(candidates@[pa] != candidates@[pb]);
                    } else {
                        assert(candidates@[pb] != candidates@[pa]);
                    }
                }
            }
            assert forall|j: int| 0 <= j < sel@.len() implies self.spec_has_node(#[trigger] sel@[j])
                && sel@[j] != source by {
                assert(sel@[j] == candidates@[picks@[j] as int]);
            }
        }
        // Resolve indexes and pre-validate capacity: all-or-nothing.
        let mut idxs: Vec<usize> = Vec::new();
        let mut t: usize = 0;
        while t < k
            invariant
                t <= k,
                k == sel@.len(),
                *self == *old(self),
                self.wf(),
                forall|j: int| 0 <= j < sel@.len() ==> self.spec_has_node(#[trigger] sel@[j]),
                idxs@.len() == t,
                forall|j: int|
                    0 <= j < t ==> #[trigger] idxs@[j] < self.storage_nodes@.len()
                        && self.storage_nodes@[idxs@[j] as int].peer_id == sel@[j],
            decreases k - t,
        {
            match self.find_node_index(sel[t]) {
                Some(i) => {
                    idxs.push(i);
                },
                None => {
                    proof {
                        assert(self.spec_has_node(sel@[t as int]));
                        assert(false);
                    }
                    return Err(StorageError::NodeNotFound);
                },
            }
            t = t + 1;
        }
        let mut j: usize = 0;
        while j < k
            invariant
                j <= k,
                k == sel@.len(),
                k == remaining_replications,
                *self == *old(self),
                self.wf(),
                old(self).spec_has_client(client_id),
                old(self).spec_locations_of(client_id, filename@) == Some(cur@),
                cur@.len() > 0,
                cur@[0] == source,
                old(self).spec_has_node(source),
                old(self).spec_node_of(source).spec_file_of(filename@) == Some(data@),
                spec_candidates_outside(old(self).storage_nodes@, seq![source]) >= k,
                size == data@.len(),
                idxs@.len() == k,
                forall|jj: int|
                    0 <= jj < k ==> #[trigger] idxs@[jj] < self.storage_nodes@.len()
                        && self.storage_nodes@[idxs@[jj] as int].peer_id == sel@[jj],
                forall|jj: int| 0 <= jj < k ==> #[trigger] sel@[jj] != source,
                forall|jj: int|
                    0 <= jj < j ==> data@.len() <= (#[trigger] self.spec_node_of(
                        sel@[jj],
                    )).available_space,
            decreases k - j,
        {
            let i = idxs[j];
            proof {
                lemma_node_at(self.storage_nodes@, i as int);
            }
            if size > self.storage_nodes[i].available_space {
                proof {
                    let curo = old(self).spec_locations_of(client_id, filename@);
                    assert(curo.unwrap() == cur@);
                    assert(curo.unwrap()[0] == source);
                    assert(seq![curo.unwrap()[0]] =~= seq![source]);
                    // the failing target witnesses that not every non-source
                    // node has room
                    assert(old(self).storage_nodes@[i as int].peer_id == sel@[j as int]);
                    assert(sel@[j as int] != source);
                    assert(data@.len() > old(self).storage_nodes@[i as int].available_space);
                }
                return Err(StorageError::CapacityExceeded);
            }
            j = j + 1;
        }
        // Commit: copy the blob onto each target.
        let ghost pre = *old(self);
        let ghost selv = sel@;
        let mut j: usize = 0;
        while j < k
            invariant
                j <= k,
                k == sel@.len(),
                selv == sel@,
                nodes_distinct(sel@),
                self.wf(),
                pre == *old(self),
                pre.wf(),
                size == data@.len(),
                self.storage_nodes@.len() == pre.storage_nodes@.len(),
                idxs@.len() == k,
                forall|jj: int|
                    0 <= jj < k ==> #[trigger] idxs@[jj] < pre.storage_nodes@.len()
                        && pre.storage_nodes@[idxs@[jj] as int].peer_id == sel@[jj],
                forall|i: int|
                    0 <= i < self.storage_nodes@.len() ==> (#[trigger] self.storage_nodes@[i]).peer_id
                        == pre.storage_nodes@[i].peer_id,
                forall|i: int|
                    0 <= i < self.storage_nodes@.len() && (forall|jj: int|
                        0 <= jj < j ==> idxs@[jj] != i) ==> #[trigger] self.storage_nodes@[i]
                        == pre.storage_nodes@[i],
                forall|jj: int|
                    0 <= jj < j ==> {
                        let i = #[trigger] idxs@[jj] as int;
                        let b = pre.storage_nodes@[i];
                        let a = self.storage_nodes@[i];
                        &&& a.spec_file_of(filename@) == Some(data@)
                        &&& a.available_space == b.available_space + b.spec_stored_size(filename@)
                            - data@.len()
                        &&& a.peer_id == b.peer_id
                        &&& a.reserved_space == b.reserved_space
                        &&& a.reputation == b.reputation
                        &&& a.price_per_gb == b.price_per_gb
                        &&& forall|n: Seq<char>|
                            n != filename@ ==> a.spec_file_of(n) == b.spec_file_of(n)
                    },
                forall|jj: int|
                    0 <= jj < k ==> data@.len() <= (#[trigger] pre.spec_node_of(
                        sel@[jj],
                    )).available_space,
                self.clients@ == pre.clients@,
                self.deals@ == pre.deals@,
                self.marketplace@ == pre.marketplace@,
                self.token == pre.token,
                self.bids@ == pre.bids@,
                self.debug_level == pre.debug_level,
            decreases k - j,
        {
            let i = idxs[j];
            proof {
                assert forall|jj: int| 0 <= jj < j implies idxs@[jj] != i by {
                    if idxs@[jj] == i {
                        assert(pre.storage_nodes@[idxs@[jj] as int].peer_id == sel@[jj]);
                        assert(pre.storage_nodes@[idxs@[j as int] as int].peer_id
                            == sel@[j as int]);
                        assert(sel@[jj] == sel@[j as int]);
                    }
                }
                assert(self.storage_nodes@[i as int] == pre.storage_nodes@[i as int]);
                lemma_node_at(pre.storage_nodes@, i as int);
                assert(pre.spec_node_of(sel@[j as int]) == pre.storage_nodes@[i as int]);
                assert(data@.len() <= pre.spec_node_of(sel@[j as int]).available_space);
            }
            let mut node = StorageNode::new(0, 0);
            let ghost before_vec = self.storage_nodes@;
            self.storage_nodes.set_and_swap(i, &mut node);
            let res = node.store_file(filename.clone(), clone_bytes(&data));
            proof {
                assert(res is Ok);
            }
            self.storage_nodes.set_and_swap(i, &mut node);
            proof {
                assert(self.storage_nodes@ =~= before_vec.update(
                    i as int,
                    self.storage_nodes@[i as int],
                ));
            }
            j = j + 1;
        }
        proof {
            let post = *self;
            assert forall|j2: int| 0 <= j2 < selv.len() implies {
                let b = pre.spec_node_of(#[trigger] selv[j2]);
                let a = post.spec_node_of(selv[j2]);
                &&& a.spec_file_of(filename@) == Some(data@)
                &&& a.available_space == b.available_space + b.spec_stored_size(filename@)
                    - data@.len()
                &&& a.peer_id == b.peer_id
                &&& a.reserved_space == b.reserved_space
                &&& a.reputation == b.reputation
                &&& a.price_per_gb == b.price_per_gb
                &&& forall|n: Seq<char>| n != filename@ ==> a.spec_file_of(n) == b.spec_file_of(n)
            } by {
                let i = idxs@[j2] as int;
                lemma_node_at(pre.storage_nodes@, i);
                lemma_node_at(post.storage_nodes@, i);
            }
            assert forall|id: u64| !selv.contains(id) && pre.spec_has_node(id) implies
                post.spec_node_of(id) == pre.spec_node_of(id) by {
                let i = choose|i: int|
                    0 <= i < pre.storage_nodes@.len() && pre.storage_nodes@[i].peer_id == id;
                lemma_node_at(pre.storage_nodes@, i);
                assert forall|jj: int| 0 <= jj < k implies idxs@[jj] != i by {
                    if idxs@[jj] == i {
                        assert(selv[jj] == id);
                        assert(selv.contains(id));
                    }
                }
                assert(post.storage_nodes@[i] == pre.storage_nodes@[i]);
                lemma_node_at(post.storage_nodes@, i);
            }
            assert forall|id: u64| post.spec_has_node(id) == pre.spec_has_node(id) by {
                if pre.spec_has_node(id) {
                    let i = choose|i: int|
                        0 <= i < pre.storage_nodes@.len() && pre.storage_nodes@[i].peer_id == id;
                    assert(post.storage_nodes@[i].peer_id == id);
                } else {
                    if post.spec_has_node(id) {
                        let i = choose|i: int|
                            0 <= i < post.storage_nodes@.len() && post.storage_nodes@[i].peer_id
                                == id;
                        assert(pre.storage_nodes@[i].peer_id == id);
                    }
                }
            }
        }
        Ok(())
    }

    /// A read-only snapshot of the whole network: per-node free space and
    /// stored names, per-client index, the full deal list and the
    /// marketplace queue, each in its stored order.
    pub fn get_network_status(&self) -> (r: NetworkStatus)
        requires
            self.wf(),
        ensures
            r.storage_nodes@.len() == self.storage_nodes@.len(),
            forall|i: int|
                0 <= i < r.storage_nodes@.len() ==> (#[trigger] r.storage_nodes@[i]).0
                    == self.storage_nodes@[i].peer_id && node_status_matches(
                    r.storage_nodes@[i].1,
                    self.storage_nodes@[i],
                ),
            r.clients@.len() == self.clients@.len(),
            forall|i: int|
                0 <= i < r.clients@.len() ==> (#[trigger] r.clients@[i]).0
                    == self.clients@[i].peer_id && client_status_matches(
                    r.clients@[i].1,
                    self.clients@[i],
                ),
            r.deals@ == self.deals@,
            r.marketplace@ == self.marketplace@,
    {
        let n = self.storage_nodes.len();
        let mut nodes: Vec<(u64, StorageNodeStatus)> = Vec::new();
        let mut i: usize = 0;
        while i < n
            invariant
                i <= n,
                n == self.storage_nodes@.len(),
                nodes@.len() == i,
                forall|i2: int|
                    0 <= i2 < i ==> (#[trigger] nodes@[i2]).0 == self.storage_nodes@[i2].peer_id
                        && node_status_matches(nodes@[i2].1, self.storage_nodes@[i2]),
            decreases n - i,
        {
            let node = &self.storage_nodes[i];
            let m = node.stored_files.len();
            let mut names: Vec<String> = Vec::new();
            let mut j: usize = 0;
            while j < m
                invariant
                    j <= m,
                    i < self.storage_nodes@.len(),
                    node == &self.storage_nodes[i as int],
                    m == node.stored_files@.len(),
                    names@.len() == j,
                    forall|j2: int|
                        0 <= j2 < j ==> (#[trigger] names@[j2])@ == node.stored_files@[j2].0@,
                decreases m - j,
            {
                names.push(node.stored_files[j].0.clone());
                j = j + 1;
            }
            nodes.push(
                (node.peer_id, StorageNodeStatus { available_space: node.available_space, stored_files: names }),
            );
            i = i + 1;
        }
        let nc = self.clients.len();
        let mut clients: Vec<(u64, ClientStatus)> = Vec::new();
        let mut i: usize = 0;
        while i < nc
            invariant
                i <= nc,
                nc == self.clients@.len(),
                clients@.len() == i,
                forall|i2: int|
                    0 <= i2 < i ==> (#[trigger] clients@[i2]).0 == self.clients@[i2].peer_id
                        && client_status_matches(clients@[i2].1, self.clients@[i2]),
            decreases nc - i,
        {
            let client = &self.clients[i];
            let m = client.files.len();
            let mut files: Vec<(String, Vec<u64>)> = Vec::new();
            let mut j: usize = 0;
            while j < m
                invariant
                    j <= m,
                    i < self.clients@.len(),
                    client == &self.clients[i as int],
                    m == client.files@.len(),
                    files@.len() == j,
                    forall|j2: int|
                        0 <= j2 < j ==> (#[trigger] files@[j2]).0@ == client.files@[j2].0@
                            && files@[j2].1@ == client.files@[j2].1@,
                decreases m - j,
            {
                files.push((client.files[j].0.clone(), clone_ids(&client.files[j].1)));
                j = j + 1;
            }
            clients.push((client.peer_id, ClientStatus { files }));
            i = i + 1;
        }
        let nd = self.deals.len();
        let mut deals: Vec<Deal> = Vec::new();
        let mut i: usize = 0;
        while i < nd
            invariant
                i <= nd,
                nd == self.deals@.len(),
                deals@ =~= self.deals@.take(i as int),
            decreases nd - i,
        {
            let d = &self.deals[i];
            deals.push(
                Deal {
                    client_id: d.client_id,
                    storage_node_id: d.storage_node_id,
                    filename: d.filename.clone(),
                    start_time: d.start_time,
                    duration: d.duration,
                },
            );
            proof {
                assert(deals@ =~= self.deals@.take(i as int + 1));
            }
            i = i + 1;
        }
        let nm = self.marketplace.len();
        let mut offers: Vec<StorageOffer> = Vec::new();
        let mut i: usize = 0;
        while i < nm
            invariant
                i <= nm,
                nm == self.marketplace@.len(),
                offers@ =~= self.marketplace@.take(i as int),
            decreases nm - i,
        {
            offers.push(self.marketplace[i]);
            proof {
                assert(offers@ =~= self.marketplace@.take(i as int + 1));
            }
            i = i + 1;
        }
        proof {
            assert(deals@ =~= self.deals@);
            assert(offers@ =~= self.marketplace@);
        }
        NetworkStatus { storage_nodes: nodes, clients, deals, marketplace: offers }
    }
}

} // verus!
