//! A reservable-balance ledger: each account holds a free balance and a
//! reserved balance. Reserving moves currency from free to reserved and
//! fails when the free balance cannot cover the amount; unreserving moves
//! it back. The total held by an account never changes through either.

use vstd::prelude::*;

verus! {

/// One account's balances.
#[derive(Clone, Copy, Debug, PartialEq, Eq, Structural)]
pub struct AccountRecord {
    pub account: u64,
    pub free: u64,
    pub reserved: u64,
}

/// The free balance of `a` in `rs`: the sum over `a`'s records, which with
/// distinct accounts is the value of `a`'s single record, and 0 when `a`
/// has none.
pub open spec fn free_in(rs: Seq<AccountRecord>, a: u64) -> int
    decreases rs.len(),
{
    if rs.len() == 0 {
        0
    } else {
        free_in(rs.drop_last(), a) + if rs.last().account == a {
            rs.last().free as int
        } else {
            0
        }
    }
}

/// The reserved balance of `a` in `rs`, as `free_in`.
pub open spec fn reserved_in(rs: Seq<AccountRecord>, a: u64) -> int
    decreases rs.len(),
{
    if rs.len() == 0 {
        0
    } else {
        reserved_in(rs.drop_last(), a) + if rs.last().account == a {
            rs.last().reserved as int
        } else {
            0
        }
    }
}

/// No account appears twice.
pub open spec fn bal_distinct(rs: Seq<AccountRecord>) -> bool {
    forall|i: int, j: int| 0 <= i < j < rs.len() ==> rs[i].account != rs[j].account
}

pub proof fn lemma_bal_absent(rs: Seq<AccountRecord>, a: u64)
    requires
        !exists|i: int| 0 <= i < rs.len() && rs[i].account == a,
    ensures
        free_in(rs, a) == 0,
        reserved_in(rs, a) == 0,
    decreases rs.len(),
{
    if rs.len() > 0 {
        assert(forall|i: int| 0 <= i < rs.len() - 1 ==> rs.drop_last()[i] == rs[i]);
        lemma_bal_absent(rs.drop_last(), a);
    }
}

/// With distinct accounts, the totals for `a` are the fields of the one
/// record that carries `a`.
pub proof fn lemma_bal_at(rs: Seq<AccountRecord>, a: u64, i: int)
    requires
        bal_distinct(rs),
        0 <= i < rs.len(),
        rs[i].account == a,
    ensures
        free_in(rs, a) == rs[i].free,
        reserved_in(rs, a) == rs[i].reserved,
    decreases rs.len(),
{
    if i == rs.len() - 1 {
        assert(!exists|j: int| 0 <= j < rs.len() - 1 && rs.drop_last()[j].account == a) by {
            assert(forall|j: int| 0 <= j < rs.len() - 1 ==> rs.drop_last()[j] == rs[j]);
        }
        lemma_bal_absent(rs.drop_last(), a);
    } else {
        assert(forall|j: int| 0 <= j < rs.len() - 1 ==> rs.drop_last()[j] == rs[j]);
        lemma_bal_at(rs.drop_last(), a, i);
    }
}

pub proof fn lemma_bal_push(rs: Seq<AccountRecord>, e: AccountRecord, a: u64)
    ensures
        free_in(rs.push(e), a) == free_in(rs, a) + if e.account == a {
            e.free as int
        } else {
            0
        },
        reserved_in(rs.push(e), a) == reserved_in(rs, a) + if e.account == a {
            e.reserved as int
        } else {
            0
        },
{
    assert(rs.push(e).drop_last() =~= rs);
}

pub proof fn lemma_bal_update(rs: Seq<AccountRecord>, i: int, e: AccountRecord, a: u64)
    requires
        0 <= i < rs.len(),
    ensures
        free_in(rs.update(i, e), a) == free_in(rs, a) - (if rs[i].account == a {
            rs[i].free as int
        } else {
            0
        }) + (if e.account == a {
            e.free as int
        } else {
            0
        }),
        reserved_in(rs.update(i, e), a) == reserved_in(rs, a) - (if rs[i].account == a {
            rs[i].reserved as int
        } else {
            0
        }) + (if e.account == a {
            e.reserved as int
        } else {
            0
        }),
    decreases rs.len(),
{
    if i == rs.len() - 1 {
        assert(rs.update(i, e).drop_last() =~= rs.drop_last());
    } else {
        assert(rs.update(i, e).drop_last() =~= rs.drop_last().update(i, e));
        lemma_bal_update(rs.drop_last(), i, e, a);
    }
}

/// The reservable-balance ledger.
#[derive(Clone, Debug, PartialEq, Eq)]
pub struct Balances {
    pub records: Vec<AccountRecord>,
}

impl Balances {
    /// Accounts are distinct, and each account's total (free plus reserved)
    /// fits in the balance type, so moving currency between the two buckets
    /// can never overflow.
    pub open spec fn wf(self) -> bool {
        &&& bal_distinct(self.records@)
        &&& forall|i: int|
            0 <= i < self.records@.len() ==> #[trigger] self.records@[i].free as int
                + self.records@[i].reserved as int <= u64::MAX
    }

    /// The free balance of `a`; 0 for an account with no record.
    pub open spec fn free_of(self, a: u64) -> int {
        free_in(self.records@, a)
    }

    /// The reserved balance of `a`; 0 for an account with no record.
    pub open spec fn reserved_of(self, a: u64) -> int {
        reserved_in(self.records@, a)
    }

    pub fn new() -> (r: Balances)
        ensures
            r.wf(),
            forall|a: u64| r.free_of(a) == 0 && r.reserved_of(a) == 0,
    {
        Balances { records: Vec::new() }
    }

    fn find(&self, a: u64) -> (r: Option<usize>)
        ensures
            match r {
                Some(i) => i < self.records@.len() && self.records@[i as int].account == a,
                None => !exists|i: int|
                    0 <= i < self.records@.len() && self.records@[i as int].account == a,
            },
    {
        let mut i: usize = 0;
        while i < self.records.len()
            invariant
                i <= self.records@.len(),
                forall|j: int| 0 <= j < i ==> self.records@[j].account != a,
            decreases self.records@.len() - i,
        {
            if self.records[i].account == a {
                return Some(i);
            }
            i = i + 1;
        }
        None
    }

    pub fn free_balance(&self, a: u64) -> (r: u64)
        requires
            self.wf(),
        ensures
            r == self.free_of(a),
    {
        match self.find(a) {
            Some(i) => {
                proof {
                    lemma_bal_at(self.records@, a, i as int);
                }
                self.records[i].free
            },
            None => {
                proof {
                    lemma_bal_absent(self.records@, a);
                }
                0
            },
        }
    }

    pub fn reserved_balance(&self, a: u64) -> (r: u64)
        requires
            self.wf(),
        ensures
            r == self.reserved_of(a),
    {
        match self.find(a) {
            Some(i) => {
                proof {
                    lemma_bal_at(self.records@, a, i as int);
                }
                self.records[i].reserved
            },
            None => {
                proof {
                    lemma_bal_absent(self.records@, a);
                }
                0
            },
        }
    }

    /// Add `amount` to `a`'s free balance, creating the record when `a` has
    /// none. This is how accounts are endowed at genesis.
    pub fn deposit(&mut self, a: u64, amount: u64)
        requires
            old(self).wf(),
            old(self).free_of(a) + old(self).reserved_of(a) + amount <= u64::MAX,
        ensures
            final(self).wf(),
            final(self).free_of(a) == old(self).free_of(a) + amount,
            final(self).reserved_of(a) == old(self).reserved_of(a),
            forall|x: u64| x != a ==> final(self).free_of(x) == old(self).free_of(x),
            forall|x: u64| x != a ==> final(self).reserved_of(x) == old(self).reserved_of(x),
    {
        let ghost before = self.records@;
        match self.find(a) {
            Some(i) => {
                proof {
                    lemma_bal_at(before, a, i as int);
                }
                let e = AccountRecord {
                    account: a,
                    free: self.records[i].free + amount,
                    reserved: self.records[i].reserved,
                };
                self.records[i] = e;
                proof {
                    lemma_bal_update(before, i as int, e, a);
                    assert forall|x: u64|
                        x != a implies free_in(self.records@, x) == free_in(before, x)
                        && reserved_in(self.records@, x) == reserved_in(before, x) by {
                        lemma_bal_update(before, i as int, e, x);
                    }
                }
            },
            None => {
                proof {
                    lemma_bal_absent(before, a);
                }
                let e = AccountRecord { account: a, free: amount, reserved: 0 };
                self.records.push(e);
                proof {
                    lemma_bal_push(before, e, a);
                    assert forall|x: u64|
                        x != a implies free_in(self.records@, x) == free_in(before, x)
                        && reserved_in(self.records@, x) == reserved_in(before, x) by {
                        lemma_bal_push(before, e, x);
                    }
                    assert(bal_distinct(self.records@)) by {
                        assert(forall|j: int| 0 <= j < before.len() ==> self.records@[j] == before[j]);
                    }
                }
            },
        }
    }

    /// Move `amount` from `a`'s free balance to its reserved balance.
    /// Succeeds exactly when the free balance covers the amount; on failure
    /// nothing changes.
    pub fn reserve(&mut self, a: u64, amount: u64) -> (ok: bool)
        requires
            old(self).wf(),
        ensures
            final(self).wf(),
            ok == (amount as int <= old(self).free_of(a)),
            ok ==> final(self).free_of(a) == old(self).free_of(a) - amount && final(self).reserved_of(a) == old(self).reserved_of(a) + amount,
            !ok ==> *final(self) == *old(self),
            forall|x: u64| x != a ==> final(self).free_of(x) == old(self).free_of(x),
            forall|x: u64| x != a ==> final(self).reserved_of(x) == old(self).reserved_of(x),
    {
        let ghost before = self.records@;
        match self.find(a) {
            Some(i) => {
                proof {
                    lemma_bal_at(before, a, i as int);
                }
                let rec = self.records[i];
                if amount <= rec.free {
                    let e = AccountRecord {
                        account: a,
                        free: rec.free - amount,
                        reserved: rec.reserved + amount,
                    };
                    self.records[i] = e;
                    proof {
                        assert forall|x: u64| true implies free_in(self.records@, x) == free_in(
                            before,
                            x,
                        ) - (if x == a {
                            amount as int
                        } else {
                            0int
                        }) && reserved_in(self.records@, x) == reserved_in(before, x) + (if x == a {
                            amount as int
                        } else {
                            0int
                        }) by {
                            lemma_bal_update(before, i as int, e, x);
                        }
                    }
                    true
                } else {
                    false
                }
            },
            None => {
                proof {
                    lemma_bal_absent(before, a);
                }
                amount == 0
            },
        }
    }

    /// Move back to `a`'s free balance as much of `amount` as is actually
    /// reserved, and return how much was released.
    pub fn unreserve(&mut self, a: u64, amount: u64) -> (released: u64)
        requires
            old(self).wf(),
        ensures
            final(self).wf(),
            released == if amount as int <= old(self).reserved_of(a) {
                amount as int
            } else {
                old(self).reserved_of(a)
            },
            final(self).free_of(a) == old(self).free_of(a) + released,
            final(self).reserved_of(a) == old(self).reserved_of(a) - released,
            forall|x: u64| x != a ==> final(self).free_of(x) == old(self).free_of(x),
            forall|x: u64| x != a ==> final(self).reserved_of(x) == old(self).reserved_of(x),
    {
        let ghost before = self.records@;
        match self.find(a) {
            Some(i) => {
                proof {
                    lemma_bal_at(before, a, i as int);
                }
                let rec = self.records[i];
                let released = if amount <= rec.reserved {
                    amount
                } else {
                    rec.reserved
                };
                let e = AccountRecord {
                    account: a,
                    free: rec.free + released,
                    reserved: rec.reserved - released,
                };
                self.records[i] = e;
                proof {
                    assert forall|x: u64| true implies free_in(self.records@, x) == free_in(
                        before,
                        x,
                    ) + (if x == a {
                        released as int
                    } else {
                        0int
                    }) && reserved_in(self.records@, x) == reserved_in(before, x) - (if x == a {
                        released as int
                    } else {
                        0int
                    }) by {
                        lemma_bal_update(before, i as int, e, x);
                    }
                }
                released
            },
            None => {
                proof {
                    lemma_bal_absent(before, a);
                }
                0
            },
        }
    }
}

/// A well-formed ledger keeps every account's totals within the balance type.
pub proof fn lemma_bal_bounds(b: Balances, a: u64)
    requires
        b.wf(),
    ensures
        0 <= b.free_of(a),
        0 <= b.reserved_of(a),
        b.free_of(a) + b.reserved_of(a) <= u64::MAX,
{
    if exists|i: int| 0 <= i < b.records@.len() && b.records@[i].account == a {
        let i = choose|i: int| 0 <= i < b.records@.len() && b.records@[i].account == a;
        lemma_bal_at(b.records@, a, i);
    } else {
        lemma_bal_absent(b.records@, a);
    }
}

} // verus!
