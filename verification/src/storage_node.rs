//! A storage node: priced blob storage with exact capacity accounting and a
//! non-negative reputation score.
//!
//! Blobs are kept as an association list from filename to bytes, with
//! pairwise-distinct names. The accounting invariant is that free space,
//! space reserved through the marketplace, and the bytes of every stored
//! blob always add up to the node's fixed capacity.

use vstd::prelude::*;

use crate::errors::StorageError;

verus! {

/// Fixed capacity of every storage node, in bytes.
pub const MAX_STORAGE: usize = 1_000_000_000;

/// The blob entries hold pairwise-distinct filenames.
pub open spec fn file_keys_distinct(s: Seq<(String, Vec<u8>)>) -> bool {
    forall|i: int, j: int| 0 <= i < j < s.len() ==> s[i].0@ != s[j].0@
}

/// Some entry carries this filename.
pub open spec fn has_file(s: Seq<(String, Vec<u8>)>, name: Seq<char>) -> bool {
    exists|i: int| 0 <= i < s.len() && s[i].0@ == name
}

/// The bytes an entry list stores under `name`, if any.
pub open spec fn spec_file(s: Seq<(String, Vec<u8>)>, name: Seq<char>) -> Option<Seq<u8>> {
    if has_file(s, name) {
        let i = choose|i: int| 0 <= i < s.len() && s[i].0@ == name;
        Some(s[i].1@)
    } else {
        None
    }
}

/// Total number of blob bytes held in the list.
pub open spec fn sum_sizes(s: Seq<(String, Vec<u8>)>) -> int
    decreases s.len(),
{
    if s.len() == 0 {
        0
    } else {
        sum_sizes(s.drop_last()) + s.last().1@.len()
    }
}

/// With distinct names, the blob under the name at index `i` is the value at
/// index `i`.
pub proof fn lemma_file_at_index(s: Seq<(String, Vec<u8>)>, i: int)
    requires
        file_keys_distinct(s),
        0 <= i < s.len(),
    ensures
        has_file(s, s[i].0@),
        spec_file(s, s[i].0@) == Some(s[i].1@),
{
    assert(has_file(s, s[i].0@));
    let j = choose|j: int| 0 <= j < s.len() && s[j].0@ == s[i].0@;
    if i < j {
        assert(s[i].0@ != s[j].0@);
    } else if j < i {
        assert(s[j].0@ != s[i].0@);
    }
}

/// Replacing the entry at index `i` changes the byte total by the difference
/// of the new and old blob sizes.
pub proof fn lemma_sizes_update(s: Seq<(String, Vec<u8>)>, i: int, e: (String, Vec<u8>))
    requires
        0 <= i < s.len(),
    ensures
        sum_sizes(s.update(i, e)) == sum_sizes(s) - s[i].1@.len() + e.1@.len(),
    decreases s.len(),
{
    let t = s.update(i, e);
    if i == s.len() - 1 {
        assert(t.drop_last() =~= s.drop_last());
    } else {
        assert(t.drop_last() =~= s.drop_last().update(i, e));
        lemma_sizes_update(s.drop_last(), i, e);
    }
}

/// Appending an entry adds its blob size to the byte total.
pub proof fn lemma_sizes_push(s: Seq<(String, Vec<u8>)>, e: (String, Vec<u8>))
    ensures
        sum_sizes(s.push(e)) == sum_sizes(s) + e.1@.len(),
{
    assert(s.push(e).drop_last() =~= s);
}

/// Removing the entry at index `i` subtracts its blob size from the byte
/// total.
pub proof fn lemma_sizes_remove(s: Seq<(String, Vec<u8>)>, i: int)
    requires
        0 <= i < s.len(),
    ensures
        sum_sizes(s.remove(i)) == sum_sizes(s) - s[i].1@.len(),
    decreases s.len(),
{
    let t = s.remove(i);
    if i == s.len() - 1 {
        assert(t =~= s.drop_last());
    } else {
        assert(t.drop_last() =~= s.drop_last().remove(i));
        lemma_sizes_remove(s.drop_last(), i);
        assert(t.last() == s.last());
    }
}

/// Every single blob's size is bounded by the byte total.
pub proof fn lemma_size_le_sum(s: Seq<(String, Vec<u8>)>, i: int)
    requires
        0 <= i < s.len(),
    ensures
        s[i].1@.len() <= sum_sizes(s),
    decreases s.len(),
{
    if i == s.len() - 1 {
        lemma_sizes_nonnegative(s.drop_last());
    } else {
        lemma_size_le_sum(s.drop_last(), i);
    }
}

/// A total of blob sizes is never negative.
pub proof fn lemma_sizes_nonnegative(s: Seq<(String, Vec<u8>)>)
    ensures
        sum_sizes(s) >= 0,
    decreases s.len(),
{
    if s.len() > 0 {
        lemma_sizes_nonnegative(s.drop_last());
    }
}

/// An update that keeps the name at its index preserves name distinctness
/// and every other name's blob.
pub proof fn lemma_file_update_same_key(s: Seq<(String, Vec<u8>)>, t: Seq<(String, Vec<u8>)>, i: int)
    requires
        file_keys_distinct(s),
        0 <= i < s.len(),
        t == s.update(i, t[i]),
        t[i].0@ == s[i].0@,
    ensures
        file_keys_distinct(t),
        spec_file(t, s[i].0@) == Some(t[i].1@),
        forall|n: Seq<char>| n != s[i].0@ ==> spec_file(t, n) == spec_file(s, n),
{
    assert(forall|k: int| 0 <= k < t.len() ==> t[k].0@ == s[k].0@);
    lemma_file_at_index(t, i);
    assert forall|n: Seq<char>| n != s[i].0@ implies spec_file(t, n) == spec_file(s, n) by {
        lemma_other_files_agree(s, t, n);
    }
}

/// Pushing an entry whose name is absent preserves distinctness, stores the
/// pushed blob under that name, and keeps every other name's blob.
pub proof fn lemma_file_push_new_key(s: Seq<(String, Vec<u8>)>, t: Seq<(String, Vec<u8>)>)
    requires
        file_keys_distinct(s),
        t.len() == s.len() + 1,
        !has_file(s, t.last().0@),
        t == s.push(t.last()),
    ensures
        file_keys_distinct(t),
        spec_file(t, t.last().0@) == Some(t.last().1@),
        forall|n: Seq<char>| n != t.last().0@ ==> spec_file(t, n) == spec_file(s, n),
{
    assert(forall|k: int| 0 <= k < s.len() ==> t[k] == s[k]);
    assert(file_keys_distinct(t)) by {
        assert forall|i: int, j: int| 0 <= i < j < t.len() implies t[i].0@ != t[j].0@ by {
            if j == t.len() - 1 {
                if s[i].0@ == t.last().0@ {
                    assert(has_file(s, t.last().0@));
                }
            }
        }
    }
    lemma_file_at_index(t, t.len() - 1);
    assert forall|n: Seq<char>| n != t.last().0@ implies spec_file(t, n) == spec_file(s, n) by {
        lemma_other_files_agree(s, t, n);
    }
}

/// Removing the entry at index `i` drops its name and keeps every other
/// name's blob.
pub proof fn lemma_file_remove_key(s: Seq<(String, Vec<u8>)>, i: int)
    requires
        file_keys_distinct(s),
        0 <= i < s.len(),
    ensures
        file_keys_distinct(s.remove(i)),
        !has_file(s.remove(i), s[i].0@),
        forall|n: Seq<char>| n != s[i].0@ ==> spec_file(s.remove(i), n) == spec_file(s, n),
{
    let t = s.remove(i);
    assert(forall|k: int| 0 <= k < i ==> t[k] == s[k]);
    assert(forall|k: int| i <= k < t.len() ==> t[k] == s[k + 1]);
    assert(file_keys_distinct(t));
    assert(!has_file(t, s[i].0@)) by {
        if has_file(t, s[i].0@) {
            let k = choose|k: int| 0 <= k < t.len() && t[k].0@ == s[i].0@;
            if k < i {
                assert(s[k].0@ != s[i].0@);
            } else {
                assert(s[i].0@ != s[k + 1].0@);
            }
        }
    }
    assert forall|n: Seq<char>| n != s[i].0@ implies spec_file(t, n) == spec_file(s, n) by {
        if has_file(s, n) {
            let k = choose|k: int| 0 <= k < s.len() && s[k].0@ == n;
            lemma_file_at_index(s, k);
            if k < i {
                lemma_file_at_index(t, k);
            } else {
                assert(k != i);
                assert(t[k - 1] == s[k]);
                lemma_file_at_index(t, k - 1);
            }
        } else {
            if has_file(t, n) {
                let k = choose|k: int| 0 <= k < t.len() && t[k].0@ == n;
                if k < i {
                    assert(s[k].0@ == n);
                } else {
                    assert(s[k + 1].0@ == n);
                }
                assert(has_file(s, n));
            }
        }
    }
}

/// Two lists that agree on every entry carrying name `n` store the same blob
/// under `n`. Both lists must have distinct names.
proof fn lemma_other_files_agree(s: Seq<(String, Vec<u8>)>, t: Seq<(String, Vec<u8>)>, n: Seq<char>)
    requires
        file_keys_distinct(s),
        file_keys_distinct(t),
        forall|i: int| 0 <= i < s.len() && s[i].0@ == n ==> 0 <= i < t.len() && t[i] == s[i],
        forall|i: int| 0 <= i < t.len() && t[i].0@ == n ==> 0 <= i < s.len() && s[i] == t[i],
    ensures
        spec_file(t, n) == spec_file(s, n),
{
    if has_file(s, n) {
        let i = choose|i: int| 0 <= i < s.len() && s[i].0@ == n;
        lemma_file_at_index(s, i);
        assert(t[i] == s[i]);
        lemma_file_at_index(t, i);
    } else if has_file(t, n) {
        let i = choose|i: int| 0 <= i < t.len() && t[i].0@ == n;
        assert(s[i] == t[i]);
        assert(has_file(s, n));
    }
}

/// A storage node: identity, per-GiB price, capacity accounting, the stored
/// blobs, and a reputation score.
pub struct StorageNode {
    pub peer_id: u64,
    pub stored_files: Vec<(String, Vec<u8>)>,
    pub available_space: usize,
    pub reserved_space: usize,
    pub reputation: u64,
    pub price_per_gb: u64,
}

impl StorageNode {
    /// Well-formedness: distinct blob names, and free, reserved and stored
    /// bytes account exactly for the fixed capacity.
    pub open spec fn wf(self) -> bool {
        &&& file_keys_distinct(self.stored_files@)
        &&& self.available_space + self.reserved_space + sum_sizes(self.stored_files@)
            == MAX_STORAGE
    }

    /// The bytes this node stores under `name`, if any.
    pub open spec fn spec_file_of(self, name: Seq<char>) -> Option<Seq<u8>> {
        spec_file(self.stored_files@, name)
    }

    /// Whether this node stores a blob under `name`.
    pub open spec fn spec_stores(self, name: Seq<char>) -> bool {
        has_file(self.stored_files@, name)
    }

    /// Size of the blob under `name`, zero when absent. Used to state the
    /// replace-adjusting-by-the-delta overwrite policy.
    pub open spec fn spec_stored_size(self, name: Seq<char>) -> nat {
        match self.spec_file_of(name) {
            Some(d) => d.len(),
            None => 0,
        }
    }

    /// Creates an empty node with the full fixed capacity, a base reputation
    /// of 100, and the given price.
    pub fn new(peer_id: u64, price_per_gb: u64) -> (r: StorageNode)
        ensures
            r.wf(),
            r.peer_id == peer_id,
            r.price_per_gb == price_per_gb,
            r.stored_files@ =~= Seq::<(String, Vec<u8>)>::empty(),
            r.available_space == MAX_STORAGE,
            r.reserved_space == 0,
            r.reputation == 100,
    {
        StorageNode {
            peer_id,
            stored_files: Vec::new(),
            available_space: MAX_STORAGE,
            reserved_space: 0,
            reputation: 100,
            price_per_gb,
        }
    }

    /// Reads the per-GiB price.
    pub fn price_per_gb(&self) -> (r: u64)
        ensures
            r == self.price_per_gb,
    {
        self.price_per_gb
    }

    /// Reads the reputation score.
    pub fn reputation(&self) -> (r: u64)
        ensures
            r == self.reputation,
    {
        self.reputation
    }

    /// Raises the reputation; the caller keeps the score in range.
    pub fn increase_reputation(&mut self, amount: u64)
        requires
            old(self).reputation + amount <= u64::MAX,
        ensures
            *final(self) == (StorageNode {
                reputation: (old(self).reputation + amount) as u64,
                ..*old(self)
            }),
    {
        self.reputation = self.reputation + amount;
    }

    /// Lowers the reputation, saturating at zero.
    pub fn decrease_reputation(&mut self, amount: u64)
        ensures
            *final(self) == (StorageNode {
                reputation: if amount > old(self).reputation {
                    0u64
                } else {
                    (old(self).reputation - amount) as u64
                },
                ..*old(self)
            }),
    {
        if amount > self.reputation {
            self.reputation = 0;
        } else {
            self.reputation = self.reputation - amount;
        }
    }

    /// Reads the node's identity.
    pub fn peer_id(&self) -> (r: u64)
        ensures
            r == self.peer_id,
    {
        self.peer_id
    }

    /// Index of the entry stored under `filename`, if any.
    fn find_file(&self, filename: &String) -> (r: Option<usize>)
        ensures
            match r {
                Some(i) => i < self.stored_files@.len() && self.stored_files@[i as int].0@
                    == filename@,
                None => forall|i: int|
                    0 <= i < self.stored_files@.len() ==> self.stored_files@[i].0@ != filename@,
            },
    {
        let n = self.stored_files.len();
        let mut i: usize = 0;
        while i < n
            invariant
                i <= n,
                n == self.stored_files@.len(),
                forall|j: int| 0 <= j < i ==> self.stored_files@[j].0@ != filename@,
            decreases n - i,
        {
            if self.stored_files[i].0 == *filename {
                return Some(i);
            }
            i = i + 1;
        }
        None
    }

    /// Stores `data` under `filename`. Admission goes by the free space
    /// alone — the store fails with `CapacityExceeded`, leaving the node
    /// unchanged, exactly when the bytes exceed `available_space`, also on
    /// an overwrite. A blob already stored under the same name is then
    /// replaced, and the space accounting adjusts by the size delta, so an
    /// admitted overwrite can end with more free space than it started.
    pub fn store_file(&mut self, filename: String, data: Vec<u8>) -> (r: Result<(), StorageError>)
        requires
            old(self).wf(),
        ensures
            final(self).wf(),
            r is Ok <==> data@.len() <= old(self).available_space,
            r is Err ==> *final(self) == *old(self) && r == Err::<(), StorageError>(
                StorageError::CapacityExceeded,
            ),
            r is Ok ==> {
                &&& final(self).spec_file_of(filename@) == Some(data@)
                &&& forall|n: Seq<char>|
                    n != filename@ ==> final(self).spec_file_of(n) == old(self).spec_file_of(n)
                &&& final(self).available_space == old(self).available_space + old(
                    self,
                ).spec_stored_size(filename@) - data@.len()
            },
            final(self).peer_id == old(self).peer_id,
            final(self).reserved_space == old(self).reserved_space,
            final(self).reputation == old(self).reputation,
            final(self).price_per_gb == old(self).price_per_gb,
    {
        let n = data.len();
        match self.find_file(&filename) {
            Some(i) => {
                let old_len = self.stored_files[i].1.len();
                proof {
                    lemma_file_at_index(self.stored_files@, i as int);
                    lemma_size_le_sum(self.stored_files@, i as int);
                    lemma_sizes_nonnegative(self.stored_files@);
                }
                if n > self.available_space {
                    return Err(StorageError::CapacityExceeded);
                }
                let ghost before = self.stored_files@;
                proof {
                    lemma_sizes_update(self.stored_files@, i as int, (filename, data));
                }
                let new_space = self.available_space + old_len - n;
                self.stored_files.set(i, (filename, data));
                proof {
                    lemma_file_update_same_key(before, self.stored_files@, i as int);
                }
                self.available_space = new_space;
                Ok(())
            },
            None => {
                if n > self.available_space {
                    return Err(StorageError::CapacityExceeded);
                }
                let ghost before = self.stored_files@;
                proof {
                    lemma_sizes_push(self.stored_files@, (filename, data));
                }
                self.stored_files.push((filename, data));
                proof {
                    lemma_file_push_new_key(before, self.stored_files@);
                }
                self.available_space = self.available_space - n;
                Ok(())
            },
        }
    }

    /// Reads the blob stored under `filename`, if any.
    pub fn get_file(&self, filename: &String) -> (r: Option<&Vec<u8>>)
        requires
            self.wf(),
        ensures
            match r {
                Some(d) => self.spec_file_of(filename@) == Some(d@),
                None => self.spec_file_of(filename@) is None,
            },
    {
        match self.find_file(filename) {
            Some(i) => {
                proof {
                    lemma_file_at_index(self.stored_files@, i as int);
                }
                Some(&self.stored_files[i].1)
            },
            None => None,
        }
    }

    /// Deletes the blob stored under `filename` and frees its bytes. Fails
    /// with `FileNotFound`, leaving the node unchanged, exactly when no such
    /// blob is stored.
    pub fn remove_file(&mut self, filename: &String) -> (r: Result<(), StorageError>)
        requires
            old(self).wf(),
        ensures
            final(self).wf(),
            r is Ok <==> old(self).spec_stores(filename@),
            r is Err ==> *final(self) == *old(self) && r == Err::<(), StorageError>(
                StorageError::FileNotFound,
            ),
            r is Ok ==> {
                &&& final(self).spec_file_of(filename@) is None
                &&& forall|n: Seq<char>|
                    n != filename@ ==> final(self).spec_file_of(n) == old(self).spec_file_of(n)
                &&& final(self).available_space == old(self).available_space + old(
                    self,
                ).spec_stored_size(filename@)
            },
            final(self).peer_id == old(self).peer_id,
            final(self).reserved_space == old(self).reserved_space,
            final(self).reputation == old(self).reputation,
            final(self).price_per_gb == old(self).price_per_gb,
    {
        match self.find_file(filename) {
            Some(i) => {
                let size = self.stored_files[i].1.len();
                proof {
                    lemma_file_at_index(self.stored_files@, i as int);
                    lemma_size_le_sum(self.stored_files@, i as int);
                    lemma_sizes_remove(self.stored_files@, i as int);
                    lemma_file_remove_key(self.stored_files@, i as int);
                }
                self.stored_files.remove(i);
                self.available_space = self.available_space + size;
                Ok(())
            },
            None => Err(StorageError::FileNotFound),
        }
    }

    /// Reads the free space.
    pub fn available_space(&self) -> (r: usize)
        ensures
            r == self.available_space,
    {
        self.available_space
    }

    /// Read-only view of every stored blob.
    pub fn stored_files(&self) -> (r: &Vec<(String, Vec<u8>)>)
        ensures
            r == &self.stored_files,
    {
        &self.stored_files
    }

    /// Sets bytes aside without storing content; the marketplace uses this
    /// when an offer is accepted. Reserved bytes stay accounted for until a
    /// caller stores into or releases them — this node does not auto-release.
    /// Fails with `CapacityExceeded`, leaving the node unchanged, exactly
    /// when `size` exceeds the free space.
    pub fn reserve_space(&mut self, size: usize) -> (r: Result<(), StorageError>)
        requires
            old(self).wf(),
        ensures
            final(self).wf(),
            r is Ok <==> size <= old(self).available_space,
            r is Err ==> *final(self) == *old(self) && r == Err::<(), StorageError>(
                StorageError::CapacityExceeded,
            ),
            r is Ok ==> *final(self) == (StorageNode {
                available_space: (old(self).available_space - size) as usize,
                reserved_space: (old(self).reserved_space + size) as usize,
                ..*old(self)
            }),
    {
        if size > self.available_space {
            Err(StorageError::CapacityExceeded)
        } else {
            proof {
                lemma_sizes_nonnegative(self.stored_files@);
            }
            self.available_space = self.available_space - size;
            self.reserved_space = self.reserved_space + size;
            Ok(())
        }
    }

    /// Reads the per-GiB price.
    pub fn get_price_per_gb(&self) -> (r: u64)
        ensures
            r == self.price_per_gb,
    {
        self.price_per_gb
    }

    /// Sets the per-GiB price.
    pub fn set_price_per_gb(&mut self, price: u64)
        ensures
            *final(self) == (StorageNode { price_per_gb: price, ..*old(self) }),
    {
        self.price_per_gb = price;
    }
}

/// On a well-formed node, any one stored blob is bounded by the byte total,
/// which itself fits the fixed capacity.
pub proof fn lemma_stored_size_le_sum(node: StorageNode, name: Seq<char>)
    requires
        node.wf(),
    ensures
        node.spec_stored_size(name) <= sum_sizes(node.stored_files@),
        sum_sizes(node.stored_files@) <= MAX_STORAGE,
{
    lemma_sizes_nonnegative(node.stored_files@);
    if has_file(node.stored_files@, name) {
        let i = choose|i: int|
            0 <= i < node.stored_files@.len() && node.stored_files@[i].0@ == name;
        lemma_size_le_sum(node.stored_files@, i);
    }
}

/// Capacity accounting invariant: free space, reserved space and stored
/// bytes always add up to the fixed capacity; in particular, while no space
/// is reserved, free space plus stored bytes equals the capacity exactly.
pub proof fn lemma_space_accounting(node: StorageNode)
    requires
        node.wf(),
    ensures
        node.available_space + node.reserved_space + sum_sizes(node.stored_files@) == MAX_STORAGE,
        node.reserved_space == 0 ==> node.available_space + sum_sizes(node.stored_files@)
            == MAX_STORAGE,
{
}

} // verus!
