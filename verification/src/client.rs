//! A client: identity, a local token balance, and the index mapping each of
//! the client's filenames to its current replica set.
//!
//! The index is an association list with pairwise-distinct filenames; each
//! replica set is an ordered list of storage-node identities without
//! duplicates.

use vstd::prelude::*;

use crate::errors::StorageError;

verus! {

/// The index entries hold pairwise-distinct filenames.
pub open spec fn index_keys_distinct(s: Seq<(String, Vec<u64>)>) -> bool {
    forall|i: int, j: int| 0 <= i < j < s.len() ==> s[i].0@ != s[j].0@
}

/// Some entry carries this filename.
pub open spec fn has_index_entry(s: Seq<(String, Vec<u64>)>, name: Seq<char>) -> bool {
    exists|i: int| 0 <= i < s.len() && s[i].0@ == name
}

/// The replica set an index assigns to `name`, if any.
pub open spec fn spec_locations(s: Seq<(String, Vec<u64>)>, name: Seq<char>) -> Option<Seq<u64>> {
    if has_index_entry(s, name) {
        let i = choose|i: int| 0 <= i < s.len() && s[i].0@ == name;
        Some(s[i].1@)
    } else {
        None
    }
}

/// A replica set holds pairwise-distinct node identities.
pub open spec fn nodes_distinct(ns: Seq<u64>) -> bool {
    forall|i: int, j: int| 0 <= i < j < ns.len() ==> ns[i] != ns[j]
}

/// With distinct names, the replica set under the name at index `i` is the
/// value at index `i`.
pub proof fn lemma_index_at(s: Seq<(String, Vec<u64>)>, i: int)
    requires
        index_keys_distinct(s),
        0 <= i < s.len(),
    ensures
        has_index_entry(s, s[i].0@),
        spec_locations(s, s[i].0@) == Some(s[i].1@),
{
    assert(has_index_entry(s, s[i].0@));
    let j = choose|j: int| 0 <= j < s.len() && s[j].0@ == s[i].0@;
    if i < j {
        assert(s[i].0@ != s[j].0@);
    } else if j < i {
        assert(s[j].0@ != s[i].0@);
    }
}

/// An update that keeps the name at its index preserves name distinctness
/// and every other name's replica set.
pub proof fn lemma_index_update_same_key(
    s: Seq<(String, Vec<u64>)>,
    t: Seq<(String, Vec<u64>)>,
    i: int,
)
    requires
        index_keys_distinct(s),
        0 <= i < s.len(),
        t == s.update(i, t[i]),
        t[i].0@ == s[i].0@,
    ensures
        index_keys_distinct(t),
        spec_locations(t, s[i].0@) == Some(t[i].1@),
        forall|n: Seq<char>| n != s[i].0@ ==> spec_locations(t, n) == spec_locations(s, n),
{
    assert(forall|k: int| 0 <= k < t.len() ==> t[k].0@ == s[k].0@);
    lemma_index_at(t, i);
    assert forall|n: Seq<char>| n != s[i].0@ implies spec_locations(t, n) == spec_locations(s, n) by {
        lemma_other_entries_agree(s, t, n);
    }
}

/// Pushing an entry whose name is absent preserves distinctness, indexes the
/// pushed replica set under that name, and keeps every other entry.
pub proof fn lemma_index_push_new_key(s: Seq<(String, Vec<u64>)>, t: Seq<(String, Vec<u64>)>)
    requires
        index_keys_distinct(s),
        t.len() == s.len() + 1,
        !has_index_entry(s, t.last().0@),
        t == s.push(t.last()),
    ensures
        index_keys_distinct(t),
        spec_locations(t, t.last().0@) == Some(t.last().1@),
        forall|n: Seq<char>| n != t.last().0@ ==> spec_locations(t, n) == spec_locations(s, n),
{
    assert(forall|k: int| 0 <= k < s.len() ==> t[k] == s[k]);
    assert(index_keys_distinct(t)) by {
        assert forall|i: int, j: int| 0 <= i < j < t.len() implies t[i].0@ != t[j].0@ by {
            if j == t.len() - 1 {
                if s[i].0@ == t.last().0@ {
                    assert(has_index_entry(s, t.last().0@));
                }
            }
        }
    }
    lemma_index_at(t, t.len() - 1);
    assert forall|n: Seq<char>| n != t.last().0@ implies spec_locations(t, n) == spec_locations(
        s,
        n,
    ) by {
        lemma_other_entries_agree(s, t, n);
    }
}

/// Removing the entry at index `i` drops its name and keeps every other
/// entry.
pub proof fn lemma_index_remove_key(s: Seq<(String, Vec<u64>)>, i: int)
    requires
        index_keys_distinct(s),
        0 <= i < s.len(),
    ensures
        index_keys_distinct(s.remove(i)),
        !has_index_entry(s.remove(i), s[i].0@),
        forall|n: Seq<char>| n != s[i].0@ ==> spec_locations(s.remove(i), n) == spec_locations(s, n),
{
    let t = s.remove(i);
    assert(forall|k: int| 0 <= k < i ==> t[k] == s[k]);
    assert(forall|k: int| i <= k < t.len() ==> t[k] == s[k + 1]);
    assert(index_keys_distinct(t));
    assert(!has_index_entry(t, s[i].0@)) by {
        if has_index_entry(t, s[i].0@) {
            let k = choose|k: int| 0 <= k < t.len() && t[k].0@ == s[i].0@;
            if k < i {
                assert(s[k].0@ != s[i].0@);
            } else {
                assert(s[i].0@ != s[k + 1].0@);
            }
        }
    }
    assert forall|n: Seq<char>| n != s[i].0@ implies spec_locations(t, n) == spec_locations(s, n) by {
        if has_index_entry(s, n) {
            let k = choose|k: int| 0 <= k < s.len() && s[k].0@ == n;
            lemma_index_at(s, k);
            if k < i {
                lemma_index_at(t, k);
            } else {
                assert(k != i);
                assert(t[k - 1] == s[k]);
                lemma_index_at(t, k - 1);
            }
        } else {
            if has_index_entry(t, n) {
                let k = choose|k: int| 0 <= k < t.len() && t[k].0@ == n;
                if k < i {
                    assert(s[k].0@ == n);
                } else {
                    assert(s[k + 1].0@ == n);
                }
                assert(has_index_entry(s, n));
            }
        }
    }
}

/// Two indexes that agree on every entry carrying name `n` assign `n` the
/// same replica set. Both must have distinct names.
proof fn lemma_other_entries_agree(
    s: Seq<(String, Vec<u64>)>,
    t: Seq<(String, Vec<u64>)>,
    n: Seq<char>,
)
    requires
        index_keys_distinct(s),
        index_keys_distinct(t),
        forall|i: int| 0 <= i < s.len() && s[i].0@ == n ==> 0 <= i < t.len() && t[i] == s[i],
        forall|i: int| 0 <= i < t.len() && t[i].0@ == n ==> 0 <= i < s.len() && s[i] == t[i],
    ensures
        spec_locations(t, n) == spec_locations(s, n),
{
    if has_index_entry(s, n) {
        let i = choose|i: int| 0 <= i < s.len() && s[i].0@ == n;
        lemma_index_at(s, i);
        assert(t[i] == s[i]);
        lemma_index_at(t, i);
    } else if has_index_entry(t, n) {
        let i = choose|i: int| 0 <= i < t.len() && t[i].0@ == n;
        assert(s[i] == t[i]);
        assert(has_index_entry(s, n));
    }
}

/// A client of the storage network.
pub struct Client {
    pub peer_id: u64,
    pub balance: u64,
    pub files: Vec<(String, Vec<u64>)>,
}

impl Client {
    /// Well-formedness: distinct filenames, and no replica set lists the
    /// same node twice.
    pub open spec fn wf(self) -> bool {
        &&& index_keys_distinct(self.files@)
        &&& forall|i: int| 0 <= i < self.files@.len() ==> nodes_distinct(#[trigger] self.files@[i].1@)
    }

    /// The replica set this client's index assigns to `name`, if any.
    pub open spec fn spec_locations_of(self, name: Seq<char>) -> Option<Seq<u64>> {
        spec_locations(self.files@, name)
    }

    /// Creates a client with an empty index and a starting local balance.
    pub fn new(peer_id: u64) -> (r: Client)
        ensures
            r.wf(),
            r.peer_id == peer_id,
            r.balance == 100_000,
            r.files@ =~= Seq::<(String, Vec<u64>)>::empty(),
    {
        Client { peer_id, balance: 100_000, files: Vec::new() }
    }

    /// Reads the client's identity.
    pub fn peer_id(&self) -> (r: u64)
        ensures
            r == self.peer_id,
    {
        self.peer_id
    }

    /// Reads the local balance.
    pub fn balance(&self) -> (r: u64)
        ensures
            r == self.balance,
    {
        self.balance
    }

    /// Credits the local balance; the caller keeps it in range.
    pub fn add_balance(&mut self, amount: u64)
        requires
            old(self).balance + amount <= u64::MAX,
        ensures
            *final(self) == (Client { balance: (old(self).balance + amount) as u64, ..*old(self) }),
    {
        self.balance = self.balance + amount;
    }

    /// Debits the local balance when it covers `amount`; reports whether the
    /// debit happened. An uncovered debit changes nothing.
    pub fn subtract_balance(&mut self, amount: u64) -> (r: bool)
        ensures
            r == (old(self).balance >= amount),
            r ==> *final(self) == (Client {
                balance: (old(self).balance - amount) as u64,
                ..*old(self)
            }),
            !r ==> *final(self) == *old(self),
    {
        if self.balance >= amount {
            self.balance = self.balance - amount;
            true
        } else {
            false
        }
    }

    /// Index of the entry carrying `filename`, if any.
    fn find_entry(&self, filename: &String) -> (r: Option<usize>)
        ensures
            match r {
                Some(i) => i < self.files@.len() && self.files@[i as int].0@ == filename@,
                None => forall|i: int|
                    0 <= i < self.files@.len() ==> self.files@[i].0@ != filename@,
            },
    {
        let n = self.files.len();
        let mut i: usize = 0;
        while i < n
            invariant
                i <= n,
                n == self.files@.len(),
                forall|j: int| 0 <= j < i ==> self.files@[j].0@ != filename@,
            decreases n - i,
        {
            if self.files[i].0 == *filename {
                return Some(i);
            }
            i = i + 1;
        }
        None
    }

    /// Sets `filename`'s replica set, replacing any prior entry.
    pub fn add_file(&mut self, filename: String, storage_nodes: Vec<u64>)
        requires
            old(self).wf(),
            nodes_distinct(storage_nodes@),
        ensures
            final(self).wf(),
            final(self).spec_locations_of(filename@) == Some(storage_nodes@),
            forall|n: Seq<char>|
                n != filename@ ==> final(self).spec_locations_of(n) == old(
                    self,
                ).spec_locations_of(n),
            final(self).peer_id == old(self).peer_id,
            final(self).balance == old(self).balance,
    {
        match self.find_entry(&filename) {
            Some(i) => {
                let ghost before = self.files@;
                self.files.set(i, (filename, storage_nodes));
                proof {
                    lemma_index_update_same_key(before, self.files@, i as int);
                }
            },
            None => {
                let ghost before = self.files@;
                self.files.push((filename, storage_nodes));
                proof {
                    lemma_index_push_new_key(before, self.files@);
                }
            },
        }
    }

    /// Reads `filename`'s current replica set, if the index lists one.
    pub fn get_file_locations(&self, filename: &String) -> (r: Option<&Vec<u64>>)
        requires
            self.wf(),
        ensures
            match r {
                Some(ns) => self.spec_locations_of(filename@) == Some(ns@),
                None => self.spec_locations_of(filename@) is None,
            },
    {
        match self.find_entry(filename) {
            Some(i) => {
                proof {
                    lemma_index_at(self.files@, i as int);
                }
                Some(&self.files[i].1)
            },
            None => None,
        }
    }

    /// Position of `storage_node` in a replica set, if it is listed.
    fn find_node(ns: &Vec<u64>, storage_node: u64) -> (r: Option<usize>)
        ensures
            match r {
                Some(k) => k < ns@.len() && ns@[k as int] == storage_node && (forall|j: int|
                    0 <= j < k ==> ns@[j] != storage_node),
                None => !ns@.contains(storage_node),
            },
    {
        let m = ns.len();
        let mut k: usize = 0;
        while k < m
            invariant
                k <= m,
                m == ns@.len(),
                forall|j: int| 0 <= j < k ==> ns@[j] != storage_node,
            decreases m - k,
        {
            if ns[k] == storage_node {
                return Some(k);
            }
            k = k + 1;
        }
        proof {
            if ns@.contains(storage_node) {
                let c = choose|c: int| 0 <= c < ns@.len() && ns@[c] == storage_node;
                assert(ns@[c] != storage_node);
            }
        }
        None
    }

    /// Removes one node from `filename`'s replica set, dropping the whole
    /// entry when that node was the last one. Reports whether the node was
    /// listed; nothing changes when it was not.
    pub fn remove_file(&mut self, filename: &String, storage_node: u64) -> (r: bool)
        requires
            old(self).wf(),
        ensures
            final(self).wf(),
            r == match old(self).spec_locations_of(filename@) {
                Some(ns) => ns.contains(storage_node),
                None => false,
            },
            !r ==> *final(self) == *old(self),
            r ==> {
                let ns = old(self).spec_locations_of(filename@).unwrap();
                let k = choose|k: int| 0 <= k < ns.len() && ns[k] == storage_node;
                if ns.len() == 1 {
                    final(self).spec_locations_of(filename@) is None
                } else {
                    final(self).spec_locations_of(filename@) == Some(ns.remove(k))
                }
            },
            forall|n: Seq<char>|
                n != filename@ ==> final(self).spec_locations_of(n) == old(self).spec_locations_of(
                    n,
                ),
            final(self).peer_id == old(self).peer_id,
            final(self).balance == old(self).balance,
    {
        let ei = match self.find_entry(filename) {
            Some(i) => i,
            None => {
                return false;
            },
        };
        proof {
            lemma_index_at(self.files@, ei as int);
        }
        // Locate the node inside the entry's replica set.
        let ghost ns = self.files@[ei as int].1@;
        let m = self.files[ei].1.len();
        let k = match Self::find_node(&self.files[ei].1, storage_node) {
            Some(k) => k,
            None => {
                return false;
            },
        };
        proof {
            assert(ns.contains(storage_node));
            let c = choose|c: int| 0 <= c < ns.len() && ns[c] == storage_node;
            if c < k {
                assert(ns[c] != storage_node);
            } else if (k as int) < c {
                assert(ns[k as int] != ns[c]);
            }
            assert(c == k as int);
        }
        if m == 1 {
            proof {
                lemma_index_remove_key(self.files@, ei as int);
            }
            self.files.remove(ei);
        } else {
            // Take the entry out, shrink its replica set, and put it back.
            let mut entry: (String, Vec<u64>) = (String::new(), Vec::new());
            self.files.set_and_swap(ei, &mut entry);
            entry.1.remove(k);
            let ghost mid = self.files@;
            let ghost shrunk = entry.1@;
            self.files.set_and_swap(ei, &mut entry);
            proof {
                assert(self.files@ =~= old(self).files@.update(ei as int, self.files@[ei as int]));
                assert(self.files@[ei as int].1@ == shrunk);
                lemma_index_update_same_key(old(self).files@, self.files@, ei as int);
                assert(nodes_distinct(shrunk)) by {
                    assert(forall|a: int| 0 <= a < k ==> shrunk[a] == ns[a]);
                    assert(forall|a: int| k <= a < shrunk.len() ==> shrunk[a] == ns[a + 1]);
                }
            }
        }
        true
    }

    /// Drops `filename`'s whole index entry, whatever it lists. Reports
    /// whether an entry existed; nothing changes when none did.
    pub fn clear_file(&mut self, filename: &String) -> (r: bool)
        requires
            old(self).wf(),
        ensures
            final(self).wf(),
            r == old(self).spec_locations_of(filename@) is Some,
            final(self).spec_locations_of(filename@) is None,
            forall|n: Seq<char>|
                n != filename@ ==> final(self).spec_locations_of(n) == old(self).spec_locations_of(
                    n,
                ),
            final(self).peer_id == old(self).peer_id,
            final(self).balance == old(self).balance,
    {
        match self.find_entry(filename) {
            Some(i) => {
                proof {
                    lemma_index_at(self.files@, i as int);
                    lemma_index_remove_key(self.files@, i as int);
                }
                self.files.remove(i);
                true
            },
            None => false,
        }
    }

    /// Read-only view of the whole index.
    pub fn list_files(&self) -> (r: &Vec<(String, Vec<u64>)>)
        ensures
            r == &self.files,
    {
        &self.files
    }

    /// Records that `storage_node` holds `filename`: appends the node to the
    /// entry's replica set (creating the entry if needed) unless it is
    /// already listed. The bytes themselves are the network's business; the
    /// client only tracks placement.
    pub fn upload_file(
        &mut self,
        filename: String,
        _data: Vec<u8>,
        storage_node: u64,
    ) -> (r: Result<(), StorageError>)
        requires
            old(self).wf(),
        ensures
            final(self).wf(),
            r is Ok,
            final(self).spec_locations_of(filename@) == match old(self).spec_locations_of(
                filename@,
            ) {
                Some(ns) => if ns.contains(storage_node) {
                    Some(ns)
                } else {
                    Some(ns.push(storage_node))
                },
                None => Some(seq![storage_node]),
            },
            forall|n: Seq<char>|
                n != filename@ ==> final(self).spec_locations_of(n) == old(
                    self,
                ).spec_locations_of(n),
            final(self).peer_id == old(self).peer_id,
            final(self).balance == old(self).balance,
    {
        let ei = match self.find_entry(&filename) {
            Some(i) => i,
            None => {
                let mut ns: Vec<u64> = Vec::new();
                ns.push(storage_node);
                let ghost before = self.files@;
                self.files.push((filename, ns));
                proof {
                    lemma_index_push_new_key(before, self.files@);
                    assert(self.files@.last().1@ =~= seq![storage_node]);
                }
                return Ok(());
            },
        };
        proof {
            lemma_index_at(self.files@, ei as int);
        }
        let ghost ns = self.files@[ei as int].1@;
        // Nothing to do when the node is already listed.
        if let Some(_k) = Self::find_node(&self.files[ei].1, storage_node) {
            proof {
                assert(ns.contains(storage_node));
            }
            return Ok(());
        }
        let mut entry: (String, Vec<u64>) = (String::new(), Vec::new());
        self.files.set_and_swap(ei, &mut entry);
        entry.1.push(storage_node);
        let ghost grown = entry.1@;
        self.files.set_and_swap(ei, &mut entry);
        proof {
            assert(self.files@ =~= old(self).files@.update(ei as int, self.files@[ei as int]));
            assert(self.files@[ei as int].1@ == grown);
            lemma_index_update_same_key(old(self).files@, self.files@, ei as int);
            assert(nodes_distinct(grown)) by {
                assert(forall|a: int| 0 <= a < ns.len() ==> grown[a] == ns[a]);
            }
        }
        Ok(())
    }

    /// Reads `filename`'s replica set; the bytes live on the listed nodes.
    pub fn download_file(&self, filename: &String) -> (r: Option<&Vec<u64>>)
        requires
            self.wf(),
        ensures
            match r {
                Some(ns) => self.spec_locations_of(filename@) == Some(ns@),
                None => self.spec_locations_of(filename@) is None,
            },
    {
        self.get_file_locations(filename)
    }
}

} // verus!
