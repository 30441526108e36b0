//! Balance ledger: free and reserved funds per account.
//!
//! The ledger is the bond ledger of the selection system and the funding
//! source of block rewards. Each account has funds at its own disposal
//! (`free`) and funds held against its candidacy (`reserved`). Reserving
//! moves funds from free to reserved, releasing moves them back, and a
//! transfer moves free funds between two accounts while the payer keeps at
//! least the ledger's existential minimum. Fee income from outside the
//! system enters through [`Ledger::deposit`].

use vstd::prelude::*;

use crate::AccountId;
use crate::Balance;

verus! {

/// One account as the ledger records it.
#[derive(Clone, Copy, PartialEq, Eq, Structural, Debug)]
pub struct BalanceRecord {
    /// Account identifier.
    pub who: AccountId,
    /// Funds at the owner's disposal.
    pub free: Balance,
    /// Funds held as a candidacy bond.
    pub reserved: Balance,
}

/// Sum of all funds, free and reserved, in `s`.
pub open spec fn total_of(s: Seq<BalanceRecord>) -> int
    decreases s.len(),
{
    if s.len() == 0 {
        0
    } else {
        total_of(s.drop_last()) + s.last().free + s.last().reserved
    }
}

/// Sum of the reserved funds alone in `s`.
pub open spec fn reserved_total_of(s: Seq<BalanceRecord>) -> int
    decreases s.len(),
{
    if s.len() == 0 {
        0
    } else {
        reserved_total_of(s.drop_last()) + s.last().reserved
    }
}

/// No account occurs in two records of `s`.
pub open spec fn unique_accounts(s: Seq<BalanceRecord>) -> bool {
    forall|i: int, j: int|
        #![trigger s[i], s[j]]
        0 <= i < j < s.len() ==> s[i].who != s[j].who
}

/// There is a record for `who` in `s`.
pub open spec fn has_account(s: Seq<BalanceRecord>, who: AccountId) -> bool {
    exists|i: int| 0 <= i < s.len() && (#[trigger] s[i]).who == who
}

/// Index of the record for `who` (meaningful only when `has_account`).
pub open spec fn index_of(s: Seq<BalanceRecord>, who: AccountId) -> int {
    choose|i: int| 0 <= i < s.len() && (#[trigger] s[i]).who == who
}

/// Free funds of `who` in `s`; an absent account holds nothing.
pub open spec fn free_in(s: Seq<BalanceRecord>, who: AccountId) -> Balance {
    if has_account(s, who) {
        s[index_of(s, who)].free
    } else {
        0
    }
}

/// Reserved funds of `who` in `s`; an absent account holds nothing.
pub open spec fn reserved_in(s: Seq<BalanceRecord>, who: AccountId) -> Balance {
    if has_account(s, who) {
        s[index_of(s, who)].reserved
    } else {
        0
    }
}

/// The balance ledger.
pub struct Ledger {
    /// Existential minimum a paying account must retain in a transfer.
    pub minimum: Balance,
    /// One record per account that ever held funds.
    pub accounts: Vec<BalanceRecord>,
}

impl Ledger {
    /// There is a record for `who`.
    pub open spec fn spec_has(self, who: AccountId) -> bool {
        has_account(self.accounts@, who)
    }

    /// Free funds of `who`; an absent account holds nothing.
    pub open spec fn spec_free_of(self, who: AccountId) -> Balance {
        free_in(self.accounts@, who)
    }

    /// Reserved funds of `who`; an absent account holds nothing.
    pub open spec fn spec_reserved_of(self, who: AccountId) -> Balance {
        reserved_in(self.accounts@, who)
    }

    /// Sum of all funds in the ledger.
    pub open spec fn spec_total(self) -> int {
        total_of(self.accounts@)
    }

    /// Sum of all reserved funds in the ledger.
    pub open spec fn spec_reserved_total(self) -> int {
        reserved_total_of(self.accounts@)
    }

    /// Well-formed: one record per account, and the issuance fits the
    /// balance type, so moving funds can never overflow.
    pub open spec fn wf(self) -> bool {
        &&& unique_accounts(self.accounts@)
        &&& self.spec_total() <= u128::MAX
    }
}

/// The total is a sum of non-negative amounts.
proof fn lemma_total_nonneg(s: Seq<BalanceRecord>)
    ensures
        total_of(s) >= 0,
    decreases s.len(),
{
    if s.len() > 0 {
        lemma_total_nonneg(s.drop_last());
    }
}

/// Appending a record adds its funds to the total.
proof fn lemma_total_push(s: Seq<BalanceRecord>, e: BalanceRecord)
    ensures
        total_of(s.push(e)) == total_of(s) + e.free + e.reserved,
{
    assert(s.push(e).drop_last() =~= s);
}

/// Replacing one record changes the total by the difference of its funds.
proof fn lemma_total_update(s: Seq<BalanceRecord>, i: int, e: BalanceRecord)
    requires
        0 <= i < s.len(),
    ensures
        total_of(s.update(i, e)) == total_of(s) - s[i].free - s[i].reserved + e.free + e.reserved,
    decreases s.len(),
{
    let t = s.update(i, e);
    if i == s.len() - 1 {
        assert(t.drop_last() =~= s.drop_last());
    } else {
        assert(t.drop_last() =~= s.drop_last().update(i, e));
        lemma_total_update(s.drop_last(), i, e);
    }
}

/// No single record holds more than the total.
proof fn lemma_total_entry(s: Seq<BalanceRecord>, i: int)
    requires
        0 <= i < s.len(),
    ensures
        s[i].free + s[i].reserved <= total_of(s),
    decreases s.len(),
{
    if i == s.len() - 1 {
        lemma_total_nonneg(s.drop_last());
    } else {
        lemma_total_entry(s.drop_last(), i);
    }
}

/// A ledger in which nothing is reserved has a zero reserve total.
pub proof fn lemma_reserved_total_zero(s: Seq<BalanceRecord>)
    requires
        forall|j: int| 0 <= j < s.len() ==> (#[trigger] s[j]).reserved == 0,
    ensures
        reserved_total_of(s) == 0,
    decreases s.len(),
{
    if s.len() > 0 {
        lemma_reserved_total_zero(s.drop_last());
    }
}

/// Replacing one record changes the reserve total by the difference of
/// its reserved funds.
pub proof fn lemma_reserved_total_update(s: Seq<BalanceRecord>, i: int, e: BalanceRecord)
    requires
        0 <= i < s.len(),
    ensures
        reserved_total_of(s.update(i, e)) == reserved_total_of(s) - s[i].reserved + e.reserved,
    decreases s.len(),
{
    let t = s.update(i, e);
    if i == s.len() - 1 {
        assert(t.drop_last() =~= s.drop_last());
    } else {
        assert(t.drop_last() =~= s.drop_last().update(i, e));
        lemma_reserved_total_update(s.drop_last(), i, e);
    }
}

/// In a sequence without duplicate accounts, the record at index `i` is the
/// one that `index_of` finds for its account.
pub proof fn lemma_at_index(s: Seq<BalanceRecord>, i: int)
    requires
        unique_accounts(s),
        0 <= i < s.len(),
    ensures
        has_account(s, s[i].who),
        index_of(s, s[i].who) == i,
{
    let who = s[i].who;
    assert(0 <= i < s.len() && s[i].who == who);
    assert(has_account(s, who));
    let j = index_of(s, who);
    if j != i {
        assert(s[i].who != s[j].who);
        assert(false);
    }
}

/// How every lookup reads after one record is replaced in place.
pub proof fn lemma_update_lookup(s: Seq<BalanceRecord>, i: int, e: BalanceRecord)
    requires
        unique_accounts(s),
        0 <= i < s.len(),
        e.who == s[i].who,
    ensures
        unique_accounts(s.update(i, e)),
        forall|k: AccountId|
            #[trigger] has_account(s.update(i, e), k) == has_account(s, k),
        free_in(s.update(i, e), e.who) == e.free,
        reserved_in(s.update(i, e), e.who) == e.reserved,
        forall|k: AccountId| k != e.who ==> #[trigger] free_in(s.update(i, e), k) == free_in(s, k),
        forall|k: AccountId|
            k != e.who ==> #[trigger] reserved_in(s.update(i, e), k) == reserved_in(s, k),
{
    let t = s.update(i, e);
    assert forall|m: int| 0 <= m < t.len() implies (#[trigger] t[m]).who == s[m].who by {}
    assert forall|k: AccountId| #[trigger] has_account(t, k) == has_account(s, k) by {
        if has_account(s, k) {
            let m = index_of(s, k);
            assert(t[m].who == k);
            assert(has_account(t, k));
        }
        if has_account(t, k) {
            let m = index_of(t, k);
            assert(s[m].who == k);
            assert(has_account(s, k));
        }
    }
    lemma_at_index(t, i);
    assert forall|k: AccountId| k != e.who implies #[trigger] free_in(t, k) == free_in(s, k) by {
        if has_account(s, k) {
            let m = index_of(s, k);
            lemma_at_index(s, m);
            lemma_at_index(t, m);
            assert(m != i);
        }
    }
    assert forall|k: AccountId|
        k != e.who implies #[trigger] reserved_in(t, k) == reserved_in(s, k) by {
        if has_account(s, k) {
            let m = index_of(s, k);
            lemma_at_index(s, m);
            lemma_at_index(t, m);
            assert(m != i);
        }
    }
}

/// How every lookup reads after a record for a fresh account is appended.
proof fn lemma_push_lookup(s: Seq<BalanceRecord>, e: BalanceRecord)
    requires
        unique_accounts(s),
        !has_account(s, e.who),
    ensures
        unique_accounts(s.push(e)),
        has_account(s.push(e), e.who),
        free_in(s.push(e), e.who) == e.free,
        reserved_in(s.push(e), e.who) == e.reserved,
        forall|k: AccountId|
            k != e.who ==> #[trigger] has_account(s.push(e), k) == has_account(s, k),
        forall|k: AccountId| k != e.who ==> #[trigger] free_in(s.push(e), k) == free_in(s, k),
        forall|k: AccountId|
            k != e.who ==> #[trigger] reserved_in(s.push(e), k) == reserved_in(s, k),
{
    let t = s.push(e);
    let n = s.len() as int;
    assert forall|i: int, j: int|
        #![trigger t[i], t[j]]
        0 <= i < j < t.len() implies t[i].who != t[j].who by {
        if j < n {
            assert(s[i].who != s[j].who);
        } else {
            assert(t[i] == s[i]);
            if s[i].who == e.who {
                assert(has_account(s, e.who));
            }
        }
    }
    assert(t[n].who == e.who);
    lemma_at_index(t, n);
    assert forall|k: AccountId|
        k != e.who implies #[trigger] has_account(t, k) == has_account(s, k) by {
        if has_account(s, k) {
            let m = index_of(s, k);
            assert(t[m].who == k);
            assert(has_account(t, k));
        }
        if has_account(t, k) {
            let m = index_of(t, k);
            assert(m != n);
            assert(s[m].who == k);
            assert(has_account(s, k));
        }
    }
    assert forall|k: AccountId| k != e.who implies #[trigger] free_in(t, k) == free_in(s, k) by {
        if has_account(s, k) {
            let m = index_of(s, k);
            lemma_at_index(s, m);
            lemma_at_index(t, m);
        }
    }
    assert forall|k: AccountId|
        k != e.who implies #[trigger] reserved_in(t, k) == reserved_in(s, k) by {
        if has_account(s, k) {
            let m = index_of(s, k);
            lemma_at_index(s, m);
            lemma_at_index(t, m);
        }
    }
}

impl Ledger {
    /// An empty ledger with the given existential minimum.
    pub fn new(minimum: Balance) -> (r: Ledger)
        ensures
            r.wf(),
            r.minimum == minimum,
            r.spec_total() == 0,
            forall|k: AccountId| !r.spec_has(k),
    {
        Ledger { minimum, accounts: Vec::new() }
    }

    /// Index of the record for `who`, if there is one.
    fn find_account(&self, who: AccountId) -> (r: Option<usize>)
        requires
            unique_accounts(self.accounts@),
        ensures
            match r {
                Some(i) => self.spec_has(who) && i < self.accounts@.len() && i as int == index_of(
                    self.accounts@,
                    who,
                ) && self.accounts@[i as int].who == who,
                None => !self.spec_has(who),
            },
    {
        let n = self.accounts.len();
        let mut i: usize = 0;
        while i < n
            invariant
                unique_accounts(self.accounts@),
                n == self.accounts@.len(),
                i <= n,
                forall|j: int| 0 <= j < i ==> (#[trigger] self.accounts@[j]).who != who,
            decreases n - i,
        {
            if self.accounts[i].who == who {
                proof {
                    lemma_at_index(self.accounts@, i as int);
                }
                return Some(i);
            }
            i += 1;
        }
        proof {
            if self.spec_has(who) {
                let m = index_of(self.accounts@, who);
                assert(self.accounts@[m].who == who);
                assert(false);
            }
        }
        None
    }

    /// Free funds of `who`.
    pub fn free_balance(&self, who: AccountId) -> (r: Balance)
        requires
            self.wf(),
        ensures
            r == self.spec_free_of(who),
    {
        match self.find_account(who) {
            Some(i) => self.accounts[i].free,
            None => 0,
        }
    }

    /// Reserved funds of `who`.
    pub fn reserved_balance(&self, who: AccountId) -> (r: Balance)
        requires
            self.wf(),
        ensures
            r == self.spec_reserved_of(who),
    {
        match self.find_account(who) {
            Some(i) => self.accounts[i].reserved,
            None => 0,
        }
    }

    /// Credit `amount` of new free funds to `who`. This is the boundary
    /// through which outside income (the fee split that funds the pot)
    /// enters the ledger; the caller answers for the issuance still
    /// fitting the balance type.
    pub fn deposit(&mut self, who: AccountId, amount: Balance)
        requires
            old(self).wf(),
            old(self).spec_total() + amount <= u128::MAX,
        ensures
            final(self).wf(),
            final(self).minimum == old(self).minimum,
            final(self).spec_total() == old(self).spec_total() + amount,
            final(self).spec_free_of(who) == old(self).spec_free_of(who) + amount,
            final(self).spec_reserved_of(who) == old(self).spec_reserved_of(who),
            forall|k: AccountId| #[trigger] final(self).spec_has(k) || !old(self).spec_has(k),
            forall|k: AccountId|
                k != who ==> #[trigger] final(self).spec_free_of(k) == old(self).spec_free_of(k),
            forall|k: AccountId|
                k != who ==> #[trigger] final(self).spec_reserved_of(k)
                    == old(self).spec_reserved_of(k),
    {
        match self.find_account(who) {
            Some(i) => {
                proof {
                    lemma_total_entry(self.accounts@, i as int);
                }
                let mut rec = self.accounts[i];
                rec.free = rec.free + amount;
                proof {
                    lemma_total_update(self.accounts@, i as int, rec);
                    lemma_update_lookup(self.accounts@, i as int, rec);
                }
                self.accounts[i] = rec;
            },
            None => {
                let rec = BalanceRecord { who, free: amount, reserved: 0 };
                proof {
                    lemma_total_push(self.accounts@, rec);
                    lemma_push_lookup(self.accounts@, rec);
                }
                self.accounts.push(rec);
            },
        }
    }

    /// Move `amount` of `who`'s free funds into reserve. Succeeds exactly
    /// when the free funds cover the amount; on failure nothing changes.
    pub fn reserve(&mut self, who: AccountId, amount: Balance) -> (ok: bool)
        requires
            old(self).wf(),
        ensures
            final(self).wf(),
            final(self).minimum == old(self).minimum,
            final(self).spec_total() == old(self).spec_total(),
            ok == (old(self).spec_free_of(who) >= amount),
            ok ==> final(self).spec_free_of(who) == old(self).spec_free_of(who) - amount
                && final(self).spec_reserved_of(who) == old(self).spec_reserved_of(who) + amount,
            !ok ==> *final(self) == *old(self),
            forall|k: AccountId|
                k != who ==> #[trigger] final(self).spec_free_of(k) == old(self).spec_free_of(k),
            forall|k: AccountId|
                k != who ==> #[trigger] final(self).spec_reserved_of(k)
                    == old(self).spec_reserved_of(k),
    {
        match self.find_account(who) {
            Some(i) => {
                let mut rec = self.accounts[i];
                if rec.free >= amount {
                    proof {
                        lemma_total_entry(self.accounts@, i as int);
                    }
                    rec.free = rec.free - amount;
                    rec.reserved = rec.reserved + amount;
                    proof {
                        lemma_total_update(self.accounts@, i as int, rec);
                        lemma_update_lookup(self.accounts@, i as int, rec);
                    }
                    self.accounts[i] = rec;
                    true
                } else {
                    false
                }
            },
            None => amount == 0,
        }
    }

    /// Move up to `amount` of `who`'s reserved funds back to free, and
    /// return how much of the request could not be released.
    pub fn unreserve(&mut self, who: AccountId, amount: Balance) -> (remaining: Balance)
        requires
            old(self).wf(),
        ensures
            final(self).wf(),
            final(self).minimum == old(self).minimum,
            final(self).spec_total() == old(self).spec_total(),
            remaining == if old(self).spec_reserved_of(who) >= amount {
                0int
            } else {
                amount - old(self).spec_reserved_of(who)
            },
            final(self).spec_reserved_of(who) == old(self).spec_reserved_of(who) - (amount
                - remaining),
            final(self).spec_free_of(who) == old(self).spec_free_of(who) + (amount - remaining),
            forall|k: AccountId|
                k != who ==> #[trigger] final(self).spec_free_of(k) == old(self).spec_free_of(k),
            forall|k: AccountId|
                k != who ==> #[trigger] final(self).spec_reserved_of(k)
                    == old(self).spec_reserved_of(k),
    {
        match self.find_account(who) {
            Some(i) => {
                let mut rec = self.accounts[i];
                let moved = if rec.reserved >= amount {
                    amount
                } else {
                    rec.reserved
                };
                proof {
                    lemma_total_entry(self.accounts@, i as int);
                }
                rec.reserved = rec.reserved - moved;
                rec.free = rec.free + moved;
                proof {
                    lemma_total_update(self.accounts@, i as int, rec);
                    lemma_update_lookup(self.accounts@, i as int, rec);
                }
                self.accounts[i] = rec;
                amount - moved
            },
            None => amount,
        }
    }

    /// Move `amount` of free funds from `from` to `to`. The payer must be
    /// able to spare the amount and still retain the existential minimum.
    /// Moving nothing, or moving within one account, succeeds without any
    /// effect; on failure nothing changes.
    pub fn transfer_keep_alive(&mut self, from: AccountId, to: AccountId, amount: Balance) -> (ok:
        bool)
        requires
            old(self).wf(),
        ensures
            final(self).wf(),
            final(self).minimum == old(self).minimum,
            final(self).spec_total() == old(self).spec_total(),
            ok == (amount == 0 || from == to || (old(self).spec_free_of(from) >= amount && old(
                self,
            ).spec_free_of(from) - amount >= old(self).minimum)),
            (amount == 0 || from == to || !ok) ==> *final(self) == *old(self),
            (ok && amount > 0 && from != to) ==> final(self).spec_free_of(from) == old(
                self,
            ).spec_free_of(from) - amount && final(self).spec_free_of(to) == old(
                self,
            ).spec_free_of(to) + amount,
            forall|k: AccountId|
                #[trigger] final(self).spec_reserved_of(k) == old(self).spec_reserved_of(k),
            forall|k: AccountId|
                k != from && k != to ==> #[trigger] final(self).spec_free_of(k) == old(
                    self,
                ).spec_free_of(k),
    {
        if amount == 0 || from == to {
            return true;
        }
        match self.find_account(from) {
            Some(i) => {
                let mut rec = self.accounts[i];
                if rec.free >= amount && rec.free - amount >= self.minimum {
                    rec.free = rec.free - amount;
                    proof {
                        lemma_total_update(self.accounts@, i as int, rec);
                        lemma_update_lookup(self.accounts@, i as int, rec);
                    }
                    self.accounts[i] = rec;
                    match self.find_account(to) {
                        Some(j) => {
                            proof {
                                lemma_total_entry(self.accounts@, j as int);
                            }
                            let mut dest = self.accounts[j];
                            dest.free = dest.free + amount;
                            proof {
                                lemma_total_update(self.accounts@, j as int, dest);
                                lemma_update_lookup(self.accounts@, j as int, dest);
                            }
                            self.accounts[j] = dest;
                        },
                        None => {
                            let dest = BalanceRecord { who: to, free: amount, reserved: 0 };
                            proof {
                                lemma_total_push(self.accounts@, dest);
                                lemma_push_lookup(self.accounts@, dest);
                            }
                            self.accounts.push(dest);
                        },
                    }
                    true
                } else {
                    false
                }
            },
            None => false,
        }
    }
}

} // verus!
