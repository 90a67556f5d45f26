//! Fungible-token ledger: account balances, allowances, mint/burn/transfer.
//!
//! Accounts are addressed by plain `u64` identities. Balances are kept as an
//! association list with pairwise-distinct keys; an account that is absent
//! from the list holds a balance of zero. The ledger maintains the invariant
//! that the sum of all balances never exceeds the recorded total supply,
//! which is what makes every credit provably free of overflow.

use vstd::prelude::*;

use crate::errors::StorageError;

verus! {

/// The balance entries hold pairwise-distinct account ids.
pub open spec fn balance_keys_distinct(s: Seq<(u64, u64)>) -> bool {
    forall|i: int, j: int| 0 <= i < j < s.len() ==> s[i].0 != s[j].0
}

/// Some entry carries this account id.
pub open spec fn has_account(s: Seq<(u64, u64)>, id: u64) -> bool {
    exists|i: int| 0 <= i < s.len() && s[i].0 == id
}

/// The balance an entry list assigns to `id`: the entry's value if one
/// exists, zero otherwise.
pub open spec fn spec_balance(s: Seq<(u64, u64)>, id: u64) -> u64 {
    if has_account(s, id) {
        let i = choose|i: int| 0 <= i < s.len() && s[i].0 == id;
        s[i].1
    } else {
        0
    }
}

/// Sum of every balance held in the list.
pub open spec fn sum_balances(s: Seq<(u64, u64)>) -> int
    decreases s.len(),
{
    if s.len() == 0 {
        0
    } else {
        sum_balances(s.drop_last()) + s.last().1
    }
}

/// With distinct keys, the balance of the key at index `i` is the value at
/// index `i`.
pub proof fn lemma_balance_at_index(s: Seq<(u64, u64)>, i: int)
    requires
        balance_keys_distinct(s),
        0 <= i < s.len(),
    ensures
        has_account(s, s[i].0),
        spec_balance(s, s[i].0) == s[i].1,
{
    assert(has_account(s, s[i].0));
    let j = choose|j: int| 0 <= j < s.len() && s[j].0 == s[i].0;
    if i < j {
        assert(s[i].0 != s[j].0);
    } else if j < i {
        assert(s[j].0 != s[i].0);
    }
}

/// Replacing the value at index `i` changes the sum by the difference of the
/// new and old values, whatever key the new entry carries.
pub proof fn lemma_sum_update(s: Seq<(u64, u64)>, i: int, e: (u64, u64))
    requires
        0 <= i < s.len(),
    ensures
        sum_balances(s.update(i, e)) == sum_balances(s) - s[i].1 + e.1,
    decreases s.len(),
{
    let t = s.update(i, e);
    if i == s.len() - 1 {
        assert(t.drop_last() =~= s.drop_last());
    } else {
        assert(t.drop_last() =~= s.drop_last().update(i, e));
        lemma_sum_update(s.drop_last(), i, e);
    }
}

/// Appending an entry adds its value to the sum.
pub proof fn lemma_sum_push(s: Seq<(u64, u64)>, e: (u64, u64))
    ensures
        sum_balances(s.push(e)) == sum_balances(s) + e.1,
{
    assert(s.push(e).drop_last() =~= s);
}

/// Every single balance is bounded by the sum of all balances.
pub proof fn lemma_entry_le_sum(s: Seq<(u64, u64)>, i: int)
    requires
        0 <= i < s.len(),
    ensures
        s[i].1 <= sum_balances(s),
    decreases s.len(),
{
    if i == s.len() - 1 {
        lemma_sum_nonnegative(s.drop_last());
    } else {
        lemma_entry_le_sum(s.drop_last(), i);
    }
}

/// A sum of unsigned balances is never negative.
pub proof fn lemma_sum_nonnegative(s: Seq<(u64, u64)>)
    ensures
        sum_balances(s) >= 0,
    decreases s.len(),
{
    if s.len() > 0 {
        lemma_sum_nonnegative(s.drop_last());
    }
}

/// The allowance entries hold pairwise-distinct (owner, spender) pairs.
pub open spec fn allowance_keys_distinct(s: Seq<(u64, u64, u64)>) -> bool {
    forall|i: int, j: int|
        0 <= i < j < s.len() ==> (s[i].0 != s[j].0 || s[i].1 != s[j].1)
}

/// Some entry carries this (owner, spender) pair.
pub open spec fn has_allowance(s: Seq<(u64, u64, u64)>, owner: u64, spender: u64) -> bool {
    exists|i: int| 0 <= i < s.len() && s[i].0 == owner && s[i].1 == spender
}

/// The amount a spender may move out of an owner's account; zero when no
/// approval was recorded.
pub open spec fn spec_allowance_in(s: Seq<(u64, u64, u64)>, owner: u64, spender: u64) -> u64 {
    if has_allowance(s, owner, spender) {
        let i = choose|i: int| 0 <= i < s.len() && s[i].0 == owner && s[i].1 == spender;
        s[i].2
    } else {
        0
    }
}

/// With distinct pairs, the allowance of the pair at index `i` is the value
/// at index `i`.
pub proof fn lemma_allowance_at_index(s: Seq<(u64, u64, u64)>, i: int)
    requires
        allowance_keys_distinct(s),
        0 <= i < s.len(),
    ensures
        has_allowance(s, s[i].0, s[i].1),
        spec_allowance_in(s, s[i].0, s[i].1) == s[i].2,
{
    assert(has_allowance(s, s[i].0, s[i].1));
    let j = choose|j: int| 0 <= j < s.len() && s[j].0 == s[i].0 && s[j].1 == s[i].1;
    if i < j {
        assert(s[i].0 != s[j].0 || s[i].1 != s[j].1);
    } else if j < i {
        assert(s[j].0 != s[i].0 || s[j].1 != s[i].1);
    }
}

/// The token ledger. `balances` and `allowances` are association lists with
/// distinct keys; missing entries mean zero.
pub struct ERC20 {
    pub name: String,
    pub symbol: String,
    pub total_supply: u64,
    pub balances: Vec<(u64, u64)>,
    pub allowances: Vec<(u64, u64, u64)>,
    pub debug: bool,
}

impl ERC20 {
    /// Well-formedness: distinct keys, and the balances sum to no more than
    /// the total supply, so a credit of a checked amount cannot overflow.
    pub open spec fn wf(self) -> bool {
        &&& balance_keys_distinct(self.balances@)
        &&& sum_balances(self.balances@) <= self.total_supply
        &&& allowance_keys_distinct(self.allowances@)
    }

    /// Balance this ledger assigns to `account`.
    pub open spec fn spec_balance_of(self, account: u64) -> u64 {
        spec_balance(self.balances@, account)
    }

    /// Allowance this ledger grants `spender` over `owner`'s funds.
    pub open spec fn spec_allowance(self, owner: u64, spender: u64) -> u64 {
        spec_allowance_in(self.allowances@, owner, spender)
    }

    /// Creates an empty ledger. No account holds tokens yet; the recorded
    /// total supply starts at `initial_supply`.
    pub fn new(name: String, symbol: String, initial_supply: u64) -> (r: ERC20)
        ensures
            r.wf(),
            r.name == name,
            r.symbol == symbol,
            r.total_supply == initial_supply,
            r.balances@ =~= Seq::<(u64, u64)>::empty(),
            r.allowances@ =~= Seq::<(u64, u64, u64)>::empty(),
            forall|a: u64| r.spec_balance_of(a) == 0,
            r.debug == false,
    {
        ERC20 {
            name,
            symbol,
            total_supply: initial_supply,
            balances: Vec::new(),
            allowances: Vec::new(),
            debug: false,
        }
    }

    /// Switches verbose accounting on or off; no balance changes.
    pub fn set_debug(&mut self, debug: bool)
        ensures
            *final(self) == (ERC20 { debug, ..*old(self) }),
    {
        self.debug = debug;
    }

    /// Index of the entry holding `account`, if any.
    fn find_account(&self, account: u64) -> (r: Option<usize>)
        ensures
            match r {
                Some(i) => i < self.balances@.len() && self.balances@[i as int].0 == account,
                None => forall|i: int|
                    0 <= i < self.balances@.len() ==> self.balances@[i].0 != account,
            },
    {
        let n = self.balances.len();
        let mut i: usize = 0;
        while i < n
            invariant
                i <= n,
                n == self.balances@.len(),
                forall|j: int| 0 <= j < i ==> self.balances@[j].0 != account,
            decreases n - i,
        {
            if self.balances[i].0 == account {
                return Some(i);
            }
            i = i + 1;
        }
        None
    }

    /// Reads an account's balance; unknown accounts hold zero.
    pub fn balance_of(&self, account: u64) -> (r: u64)
        requires
            self.wf(),
        ensures
            r == self.spec_balance_of(account),
    {
        match self.find_account(account) {
            Some(i) => {
                proof {
                    lemma_balance_at_index(self.balances@, i as int);
                }
                self.balances[i].1
            },
            None => 0,
        }
    }

    /// Credits `account` with `amount` fresh tokens and grows the supply.
    /// The caller keeps the supply within the machine range, which bounds
    /// every balance as well.
    pub fn mint(&mut self, to: u64, amount: u64)
        requires
            old(self).wf(),
            old(self).total_supply + amount <= u64::MAX,
        ensures
            final(self).wf(),
            final(self).total_supply == old(self).total_supply + amount,
            final(self).spec_balance_of(to) == old(self).spec_balance_of(to) + amount,
            forall|a: u64|
                a != to ==> final(self).spec_balance_of(a) == old(self).spec_balance_of(a),
            final(self).allowances@ == old(self).allowances@,
            final(self).name == old(self).name,
            final(self).symbol == old(self).symbol,
            final(self).debug == old(self).debug,
    {
        proof {
            lemma_sum_nonnegative(self.balances@);
        }
        match self.find_account(to) {
            Some(i) => {
                let bal = self.balances[i].1;
                proof {
                    lemma_balance_at_index(self.balances@, i as int);
                    lemma_entry_le_sum(self.balances@, i as int);
                    lemma_sum_update(self.balances@, i as int, (to, (bal + amount) as u64));
                }
                self.balances.set(i, (to, bal + amount));
                proof {
                    lemma_update_same_key(old(self).balances@, self.balances@, i as int);
                }
            },
            None => {
                proof {
                    lemma_sum_push(self.balances@, (to, amount));
                }
                self.balances.push((to, amount));
                proof {
                    lemma_push_new_key(old(self).balances@, self.balances@, to);
                }
            },
        }
        self.total_supply = self.total_supply + amount;
    }

    /// Debits `amount` from `from` and shrinks the supply; fails with
    /// `InsufficientBalance`, leaving the ledger unchanged, exactly when the
    /// account holds less than `amount`.
    pub fn burn(&mut self, from: u64, amount: u64) -> (r: Result<(), StorageError>)
        requires
            old(self).wf(),
        ensures
            final(self).wf(),
            r is Ok <==> old(self).spec_balance_of(from) >= amount,
            r is Err ==> *final(self) == *old(self) && r == Err::<(), StorageError>(
                StorageError::InsufficientBalance,
            ),
            r is Ok ==> {
                &&& final(self).total_supply == old(self).total_supply - amount
                &&& final(self).spec_balance_of(from) == old(self).spec_balance_of(from) - amount
                &&& forall|a: u64|
                    a != from ==> final(self).spec_balance_of(a) == old(self).spec_balance_of(a)
            },
            final(self).allowances@ == old(self).allowances@,
            final(self).name == old(self).name,
            final(self).symbol == old(self).symbol,
            final(self).debug == old(self).debug,
    {
        match self.find_account(from) {
            Some(i) => {
                let bal = self.balances[i].1;
                proof {
                    lemma_balance_at_index(self.balances@, i as int);
                }
                if bal < amount {
                    return Err(StorageError::InsufficientBalance);
                }
                proof {
                    lemma_entry_le_sum(self.balances@, i as int);
                    lemma_sum_update(self.balances@, i as int, (from, (bal - amount) as u64));
                }
                self.balances.set(i, (from, bal - amount));
                proof {
                    lemma_update_same_key(old(self).balances@, self.balances@, i as int);
                }
                self.total_supply = self.total_supply - amount;
                Ok(())
            },
            None => {
                if amount == 0 {
                    self.total_supply = self.total_supply - 0;
                    Ok(())
                } else {
                    Err(StorageError::InsufficientBalance)
                }
            },
        }
    }

    /// Moves `amount` from `from` to `to`; fails with `InsufficientBalance`,
    /// leaving the ledger unchanged, exactly when `from` holds less than
    /// `amount`. No partial state is ever observable.
    pub fn transfer(&mut self, from: u64, to: u64, amount: u64) -> (r: Result<(), StorageError>)
        requires
            old(self).wf(),
        ensures
            final(self).wf(),
            r is Ok <==> old(self).spec_balance_of(from) >= amount,
            r is Err ==> *final(self) == *old(self) && r == Err::<(), StorageError>(
                StorageError::InsufficientBalance,
            ),
            r is Ok && from != to ==> {
                &&& final(self).spec_balance_of(from) == old(self).spec_balance_of(from) - amount
                &&& final(self).spec_balance_of(to) == old(self).spec_balance_of(to) + amount
            },
            r is Ok && from == to ==> final(self).spec_balance_of(from) == old(
                self,
            ).spec_balance_of(from),
            forall|a: u64|
                a != from && a != to ==> final(self).spec_balance_of(a) == old(
                    self,
                ).spec_balance_of(a),
            final(self).total_supply == old(self).total_supply,
            final(self).allowances@ == old(self).allowances@,
            final(self).name == old(self).name,
            final(self).symbol == old(self).symbol,
            final(self).debug == old(self).debug,
    {
        self.move_balance(from, to, amount)
    }

    /// Shared balance movement of `transfer` and `transfer_from`.
    fn move_balance(&mut self, from: u64, to: u64, amount: u64) -> (r: Result<(), StorageError>)
        requires
            old(self).wf(),
        ensures
            final(self).wf(),
            r is Ok <==> old(self).spec_balance_of(from) >= amount,
            r is Err ==> *final(self) == *old(self) && r == Err::<(), StorageError>(
                StorageError::InsufficientBalance,
            ),
            r is Ok && from != to ==> {
                &&& final(self).spec_balance_of(from) == old(self).spec_balance_of(from) - amount
                &&& final(self).spec_balance_of(to) == old(self).spec_balance_of(to) + amount
            },
            r is Ok && from == to ==> final(self).spec_balance_of(from) == old(
                self,
            ).spec_balance_of(from),
            forall|a: u64|
                a != from && a != to ==> final(self).spec_balance_of(a) == old(
                    self,
                ).spec_balance_of(a),
            final(self).total_supply == old(self).total_supply,
            final(self).allowances@ == old(self).allowances@,
            final(self).name == old(self).name,
            final(self).symbol == old(self).symbol,
            final(self).debug == old(self).debug,
    {
        let fbal = self.balance_of(from);
        if fbal < amount {
            return Err(StorageError::InsufficientBalance);
        }
        if from == to || amount == 0 {
            return Ok(());
        }
        // Debit `from`: the account exists because its balance covers a
        // non-zero amount.
        let fi = match self.find_account(from) {
            Some(i) => i,
            None => {
                proof {
                    assert(!has_account(self.balances@, from));
                }
                return Err(StorageError::InsufficientBalance);
            },
        };
        proof {
            lemma_balance_at_index(self.balances@, fi as int);
            lemma_entry_le_sum(self.balances@, fi as int);
            lemma_sum_update(self.balances@, fi as int, (from, (fbal - amount) as u64));
        }
        let ghost before = self.balances@;
        self.balances.set(fi, (from, fbal - amount));
        proof {
            lemma_update_same_key(before, self.balances@, fi as int);
        }
        // Credit `to`; the sum bound proves the addition fits.
        let ghost mid = self.balances@;
        match self.find_account(to) {
            Some(ti) => {
                let tbal = self.balances[ti].1;
                proof {
                    lemma_balance_at_index(self.balances@, ti as int);
                    lemma_entry_le_sum(self.balances@, ti as int);
                    lemma_sum_nonnegative(self.balances@);
                    lemma_sum_update(self.balances@, ti as int, (to, (tbal + amount) as u64));
                }
                self.balances.set(ti, (to, tbal + amount));
                proof {
                    lemma_update_same_key(mid, self.balances@, ti as int);
                }
            },
            None => {
                proof {
                    lemma_sum_push(self.balances@, (to, amount));
                }
                self.balances.push((to, amount));
                proof {
                    lemma_push_new_key(mid, self.balances@, to);
                }
            },
        }
        Ok(())
    }

    /// Index of the entry holding the (owner, spender) pair, if any.
    fn find_allowance(&self, owner: u64, spender: u64) -> (r: Option<usize>)
        ensures
            match r {
                Some(i) => i < self.allowances@.len() && self.allowances@[i as int].0 == owner
                    && self.allowances@[i as int].1 == spender,
                None => forall|i: int|
                    0 <= i < self.allowances@.len() ==> !(self.allowances@[i].0 == owner
                        && self.allowances@[i].1 == spender),
            },
    {
        let n = self.allowances.len();
        let mut i: usize = 0;
        while i < n
            invariant
                i <= n,
                n == self.allowances@.len(),
                forall|j: int|
                    0 <= j < i ==> !(self.allowances@[j].0 == owner && self.allowances@[j].1
                        == spender),
            decreases n - i,
        {
            let e = self.allowances[i];
            if e.0 == owner && e.1 == spender {
                return Some(i);
            }
            i = i + 1;
        }
        None
    }

    /// Sets (overwriting any prior value) how much `spender` may move out of
    /// `owner`'s account. Always succeeds.
    pub fn approve(&mut self, owner: u64, spender: u64, amount: u64) -> (r: bool)
        requires
            old(self).wf(),
        ensures
            r == true,
            final(self).wf(),
            final(self).spec_allowance(owner, spender) == amount,
            forall|o: u64, s: u64|
                !(o == owner && s == spender) ==> final(self).spec_allowance(o, s) == old(
                    self,
                ).spec_allowance(o, s),
            final(self).balances@ == old(self).balances@,
            final(self).total_supply == old(self).total_supply,
            final(self).name == old(self).name,
            final(self).symbol == old(self).symbol,
            final(self).debug == old(self).debug,
    {
        match self.find_allowance(owner, spender) {
            Some(i) => {
                let ghost before = self.allowances@;
                self.allowances.set(i, (owner, spender, amount));
                proof {
                    lemma_allowance_update_same_key(before, self.allowances@, i as int);
                }
            },
            None => {
                let ghost before = self.allowances@;
                self.allowances.push((owner, spender, amount));
                proof {
                    lemma_allowance_push_new_key(before, self.allowances@, owner, spender);
                }
            },
        }
        true
    }

    /// Reads the allowance `owner` granted `spender`; zero if none was set.
    pub fn allowance(&self, owner: u64, spender: u64) -> (r: u64)
        requires
            self.wf(),
        ensures
            r == self.spec_allowance(owner, spender),
    {
        match self.find_allowance(owner, spender) {
            Some(i) => {
                proof {
                    lemma_allowance_at_index(self.allowances@, i as int);
                }
                self.allowances[i].2
            },
            None => 0,
        }
    }

    /// Spends from an allowance: fails `InsufficientAllowance` when the
    /// allowance is smaller than `amount`, then `InsufficientBalance` when
    /// `from` holds less than `amount`; on success decrements the allowance
    /// and moves the funds. Failures leave the ledger unchanged.
    pub fn transfer_from(
        &mut self,
        spender: u64,
        from: u64,
        to: u64,
        amount: u64,
    ) -> (r: Result<(), StorageError>)
        requires
            old(self).wf(),
        ensures
            final(self).wf(),
            r is Ok <==> (old(self).spec_allowance(from, spender) >= amount && old(
                self,
            ).spec_balance_of(from) >= amount),
            r is Err ==> *final(self) == *old(self),
            old(self).spec_allowance(from, spender) < amount ==> r == Err::<(), StorageError>(
                StorageError::InsufficientAllowance,
            ),
            old(self).spec_allowance(from, spender) >= amount && old(self).spec_balance_of(from)
                < amount ==> r == Err::<(), StorageError>(StorageError::InsufficientBalance),
            r is Ok ==> {
                &&& final(self).spec_allowance(from, spender) == old(self).spec_allowance(
                    from,
                    spender,
                ) - amount
                &&& forall|o: u64, s: u64|
                    !(o == from && s == spender) ==> final(self).spec_allowance(o, s) == old(
                        self,
                    ).spec_allowance(o, s)
            },
            r is Ok && from != to ==> {
                &&& final(self).spec_balance_of(from) == old(self).spec_balance_of(from) - amount
                &&& final(self).spec_balance_of(to) == old(self).spec_balance_of(to) + amount
            },
            r is Ok && from == to ==> final(self).spec_balance_of(from) == old(
                self,
            ).spec_balance_of(from),
            forall|a: u64|
                a != from && a != to ==> final(self).spec_balance_of(a) == old(
                    self,
                ).spec_balance_of(a),
            final(self).total_supply == old(self).total_supply,
            final(self).name == old(self).name,
            final(self).symbol == old(self).symbol,
            final(self).debug == old(self).debug,
    {
        let allowed = self.allowance(from, spender);
        if allowed < amount {
            return Err(StorageError::InsufficientAllowance);
        }
        let bal = self.balance_of(from);
        if bal < amount {
            return Err(StorageError::InsufficientBalance);
        }
        // Decrement the allowance first; the checks above make both steps
        // infallible, so no partial state can be observed.
        if amount > 0 {
            let ai = match self.find_allowance(from, spender) {
                Some(i) => i,
                None => {
                    proof {
                        assert(!has_allowance(self.allowances@, from, spender));
                    }
                    return Err(StorageError::InsufficientAllowance);
                },
            };
            proof {
                lemma_allowance_at_index(self.allowances@, ai as int);
            }
            let ghost before = self.allowances@;
            self.allowances.set(ai, (from, spender, allowed - amount));
            proof {
                lemma_allowance_update_same_key(before, self.allowances@, ai as int);
            }
        }
        let r = self.move_balance(from, to, amount);
        proof {
            assert(r is Ok);
        }
        r
    }
}

/// An update that keeps the key at its index preserves key distinctness and
/// every other key's balance.
pub proof fn lemma_update_same_key(s: Seq<(u64, u64)>, t: Seq<(u64, u64)>, i: int)
    requires
        balance_keys_distinct(s),
        0 <= i < s.len(),
        t == s.update(i, (s[i].0, t[i].1)),
    ensures
        balance_keys_distinct(t),
        spec_balance(t, s[i].0) == t[i].1,
        forall|a: u64| a != s[i].0 ==> spec_balance(t, a) == spec_balance(s, a),
{
    assert(forall|k: int| 0 <= k < t.len() ==> t[k].0 == s[k].0);
    lemma_balance_at_index(t, i);
    assert forall|a: u64| a != s[i].0 implies spec_balance(t, a) == spec_balance(s, a) by {
        lemma_other_keys_agree(s, t, a);
    }
}

/// Pushing an entry whose key is absent preserves distinctness, gives that
/// key the pushed value, and keeps every other key's balance.
pub proof fn lemma_push_new_key(s: Seq<(u64, u64)>, t: Seq<(u64, u64)>, id: u64)
    requires
        balance_keys_distinct(s),
        !has_account(s, id),
        t == s.push((id, t.last().1)),
    ensures
        balance_keys_distinct(t),
        spec_balance(t, id) == t.last().1,
        forall|a: u64| a != id ==> spec_balance(t, a) == spec_balance(s, a),
{
    assert(forall|k: int| 0 <= k < s.len() ==> t[k] == s[k]);
    assert(balance_keys_distinct(t)) by {
        assert forall|i: int, j: int| 0 <= i < j < t.len() implies t[i].0 != t[j].0 by {
            if j == t.len() - 1 {
                assert(s[i].0 == t[i].0);
                assert(!(0 <= i < s.len() && s[i].0 == id)) by {
                    if s[i].0 == id {
                        assert(has_account(s, id));
                    }
                }
            }
        }
    }
    lemma_balance_at_index(t, t.len() - 1);
    assert forall|a: u64| a != id implies spec_balance(t, a) == spec_balance(s, a) by {
        lemma_other_keys_agree(s, t, a);
    }
}

/// Two lists that agree on every entry carrying key `a` assign `a` the same
/// balance. The lists must each have distinct keys.
proof fn lemma_other_keys_agree(s: Seq<(u64, u64)>, t: Seq<(u64, u64)>, a: u64)
    requires
        balance_keys_distinct(s),
        balance_keys_distinct(t),
        forall|i: int| 0 <= i < s.len() && s[i].0 == a ==> 0 <= i < t.len() && t[i] == s[i],
        forall|i: int| 0 <= i < t.len() && t[i].0 == a ==> 0 <= i < s.len() && s[i] == t[i],
    ensures
        spec_balance(t, a) == spec_balance(s, a),
{
    if has_account(s, a) {
        let i = choose|i: int| 0 <= i < s.len() && s[i].0 == a;
        lemma_balance_at_index(s, i);
        assert(t[i] == s[i]);
        lemma_balance_at_index(t, i);
    } else if has_account(t, a) {
        let i = choose|i: int| 0 <= i < t.len() && t[i].0 == a;
        assert(s[i] == t[i]);
        assert(has_account(s, a));
    }
}

/// Allowance counterpart of `lemma_update_same_key`.
pub proof fn lemma_allowance_update_same_key(s: Seq<(u64, u64, u64)>, t: Seq<(u64, u64, u64)>, i: int)
    requires
        allowance_keys_distinct(s),
        0 <= i < s.len(),
        t == s.update(i, (s[i].0, s[i].1, t[i].2)),
    ensures
        allowance_keys_distinct(t),
        spec_allowance_in(t, s[i].0, s[i].1) == t[i].2,
        forall|o: u64, p: u64|
            !(o == s[i].0 && p == s[i].1) ==> spec_allowance_in(t, o, p) == spec_allowance_in(
                s,
                o,
                p,
            ),
{
    assert(forall|k: int| 0 <= k < t.len() ==> t[k].0 == s[k].0 && t[k].1 == s[k].1);
    lemma_allowance_at_index(t, i);
    assert forall|o: u64, p: u64| !(o == s[i].0 && p == s[i].1) implies spec_allowance_in(t, o, p)
        == spec_allowance_in(s, o, p) by {
        lemma_other_allowances_agree(s, t, o, p);
    }
}

/// Allowance counterpart of `lemma_push_new_key`.
pub proof fn lemma_allowance_push_new_key(
    s: Seq<(u64, u64, u64)>,
    t: Seq<(u64, u64, u64)>,
    owner: u64,
    spender: u64,
)
    requires
        allowance_keys_distinct(s),
        !has_allowance(s, owner, spender),
        t == s.push((owner, spender, t.last().2)),
    ensures
        allowance_keys_distinct(t),
        spec_allowance_in(t, owner, spender) == t.last().2,
        forall|o: u64, p: u64|
            !(o == owner && p == spender) ==> spec_allowance_in(t, o, p) == spec_allowance_in(
                s,
                o,
                p,
            ),
{
    assert(forall|k: int| 0 <= k < s.len() ==> t[k] == s[k]);
    assert(allowance_keys_distinct(t)) by {
        assert forall|i: int, j: int| 0 <= i < j < t.len() implies (t[i].0 != t[j].0 || t[i].1
            != t[j].1) by {
            if j == t.len() - 1 {
                if s[i].0 == owner && s[i].1 == spender {
                    assert(has_allowance(s, owner, spender));
                }
            }
        }
    }
    lemma_allowance_at_index(t, t.len() - 1);
    assert forall|o: u64, p: u64| !(o == owner && p == spender) implies spec_allowance_in(t, o, p)
        == spec_allowance_in(s, o, p) by {
        lemma_other_allowances_agree(s, t, o, p);
    }
}

/// Allowance counterpart of `lemma_other_keys_agree`.
proof fn lemma_other_allowances_agree(
    s: Seq<(u64, u64, u64)>,
    t: Seq<(u64, u64, u64)>,
    o: u64,
    p: u64,
)
    requires
        allowance_keys_distinct(s),
        allowance_keys_distinct(t),
        forall|i: int|
            0 <= i < s.len() && s[i].0 == o && s[i].1 == p ==> 0 <= i < t.len() && t[i] == s[i],
        forall|i: int|
            0 <= i < t.len() && t[i].0 == o && t[i].1 == p ==> 0 <= i < s.len() && s[i] == t[i],
    ensures
        spec_allowance_in(t, o, p) == spec_allowance_in(s, o, p),
{
    if has_allowance(s, o, p) {
        let i = choose|i: int| 0 <= i < s.len() && s[i].0 == o && s[i].1 == p;
        lemma_allowance_at_index(s, i);
        assert(t[i] == s[i]);
        lemma_allowance_at_index(t, i);
    } else if has_allowance(t, o, p) {
        let i = choose|i: int| 0 <= i < t.len() && t[i].0 == o && t[i].1 == p;
        assert(s[i] == t[i]);
        assert(has_allowance(s, o, p));
    }
}

/// Balances are unsigned, so every account's balance is non-negative in
/// every ledger state.
pub proof fn lemma_balances_nonnegative(ledger: ERC20)
    ensures
        forall|a: u64| ledger.spec_balance_of(a) >= 0,
{
}

} // verus!
