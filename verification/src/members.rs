//! The membership ledger of one tree: which accounts belong to it and how
//! much each has bonded against it. An entry's existence, not its value,
//! denotes membership; bonds of zero are possible.

use vstd::prelude::*;

verus! {

/// One ledger entry: `account` has `bonded` currency reserved against the
/// tree this ledger belongs to.
#[derive(Clone, Copy, Debug, PartialEq, Eq, Structural)]
pub struct MemberEntry {
    pub account: u64,
    pub bonded: u64,
}

/// Whether `a` has an entry in the ledger `ms`.
pub open spec fn mem_has(ms: Seq<MemberEntry>, a: u64) -> bool {
    exists|i: int| 0 <= i < ms.len() && ms[i].account == a
}

/// The total bonded by `a` in the ledger `ms`. With distinct accounts this
/// is the value of `a`'s single entry, and 0 when `a` has none.
pub open spec fn mem_bonds(ms: Seq<MemberEntry>, a: u64) -> int
    decreases ms.len(),
{
    if ms.len() == 0 {
        0
    } else {
        mem_bonds(ms.drop_last(), a) + if ms.last().account == a {
            ms.last().bonded as int
        } else {
            0
        }
    }
}

/// No account appears twice in the ledger.
pub open spec fn mem_distinct(ms: Seq<MemberEntry>) -> bool {
    forall|i: int, j: int| 0 <= i < j < ms.len() ==> ms[i].account != ms[j].account
}

pub proof fn lemma_mem_bonds_nonneg(ms: Seq<MemberEntry>, a: u64)
    ensures
        mem_bonds(ms, a) >= 0,
    decreases ms.len(),
{
    if ms.len() > 0 {
        lemma_mem_bonds_nonneg(ms.drop_last(), a);
    }
}

pub proof fn lemma_mem_bonds_absent(ms: Seq<MemberEntry>, a: u64)
    requires
        !mem_has(ms, a),
    ensures
        mem_bonds(ms, a) == 0,
    decreases ms.len(),
{
    if ms.len() > 0 {
        assert(forall|i: int| 0 <= i < ms.len() - 1 ==> ms.drop_last()[i] == ms[i]);
        lemma_mem_bonds_absent(ms.drop_last(), a);
    }
}

/// With distinct accounts, the ledger total for `a` is the value of the one
/// entry that carries `a`.
pub proof fn lemma_mem_bonds_at(ms: Seq<MemberEntry>, a: u64, i: int)
    requires
        mem_distinct(ms),
        0 <= i < ms.len(),
        ms[i].account == a,
    ensures
        mem_bonds(ms, a) == ms[i].bonded,
    decreases ms.len(),
{
    if i == ms.len() - 1 {
        assert(!mem_has(ms.drop_last(), a)) by {
            assert(forall|j: int| 0 <= j < ms.len() - 1 ==> ms.drop_last()[j] == ms[j]);
        }
        lemma_mem_bonds_absent(ms.drop_last(), a);
    } else {
        assert(forall|j: int| 0 <= j < ms.len() - 1 ==> ms.drop_last()[j] == ms[j]);
        lemma_mem_bonds_at(ms.drop_last(), a, i);
    }
}

pub proof fn lemma_mem_bonds_push(ms: Seq<MemberEntry>, e: MemberEntry, a: u64)
    ensures
        mem_bonds(ms.push(e), a) == mem_bonds(ms, a) + if e.account == a {
            e.bonded as int
        } else {
            0
        },
{
    assert(ms.push(e).drop_last() =~= ms);
}

pub proof fn lemma_mem_bonds_update(ms: Seq<MemberEntry>, i: int, e: MemberEntry, a: u64)
    requires
        0 <= i < ms.len(),
    ensures
        mem_bonds(ms.update(i, e), a) == mem_bonds(ms, a) - (if ms[i].account == a {
            ms[i].bonded as int
        } else {
            0
        }) + (if e.account == a {
            e.bonded as int
        } else {
            0
        }),
    decreases ms.len(),
{
    if i == ms.len() - 1 {
        assert(ms.update(i, e).drop_last() =~= ms.drop_last());
    } else {
        assert(ms.update(i, e).drop_last() =~= ms.drop_last().update(i, e));
        lemma_mem_bonds_update(ms.drop_last(), i, e, a);
    }
}

pub proof fn lemma_mem_bonds_remove(ms: Seq<MemberEntry>, i: int, a: u64)
    requires
        0 <= i < ms.len(),
    ensures
        mem_bonds(ms.remove(i), a) == mem_bonds(ms, a) - if ms[i].account == a {
            ms[i].bonded as int
        } else {
            0
        },
    decreases ms.len(),
{
    if i == ms.len() - 1 {
        assert(ms.remove(i) =~= ms.drop_last());
    } else {
        assert(ms.remove(i).drop_last() =~= ms.drop_last().remove(i));
        assert(ms.remove(i).last() == ms.last());
        lemma_mem_bonds_remove(ms.drop_last(), i, a);
    }
}

/// Find the index of `a`'s entry.
pub fn mem_find(ms: &Vec<MemberEntry>, a: u64) -> (r: Option<usize>)
    ensures
        match r {
            Some(i) => i < ms@.len() && ms@[i as int].account == a,
            None => !mem_has(ms@, a),
        },
{
    let mut i: usize = 0;
    while i < ms.len()
        invariant
            i <= ms@.len(),
            forall|j: int| 0 <= j < i ==> ms@[j].account != a,
        decreases ms@.len() - i,
    {
        if ms[i].account == a {
            return Some(i);
        }
        i = i + 1;
    }
    None
}

/// Whether `a` is a member.
pub fn mem_contains(ms: &Vec<MemberEntry>, a: u64) -> (r: bool)
    ensures
        r == mem_has(ms@, a),
{
    mem_find(ms, a).is_some()
}

/// Add `amt` to `a`'s bonded total, creating the entry when `a` has none.
/// Returns whether a new entry was created.
pub fn mem_accumulate(ms: &mut Vec<MemberEntry>, a: u64, amt: u64) -> (created: bool)
    requires
        mem_distinct(old(ms)@),
        mem_bonds(old(ms)@, a) + amt <= u64::MAX,
        old(ms)@.len() < u64::MAX,
    ensures
        mem_distinct(final(ms)@),
        created == !mem_has(old(ms)@, a),
        final(ms)@.len() == old(ms)@.len() + if created {
            1int
        } else {
            0int
        },
        forall|x: u64| mem_has(final(ms)@, x) == (mem_has(old(ms)@, x) || x == a),
        mem_bonds(final(ms)@, a) == mem_bonds(old(ms)@, a) + amt,
        forall|x: u64| x != a ==> mem_bonds(final(ms)@, x) == mem_bonds(old(ms)@, x),
{
    proof {
        lemma_mem_bonds_nonneg(ms@, a);
    }
    match mem_find(ms, a) {
        Some(i) => {
            proof {
                lemma_mem_bonds_at(ms@, a, i as int);
            }
            let e = MemberEntry { account: a, bonded: ms[i].bonded + amt };
            let ghost before = ms@;
            ms[i] = e;
            proof {
                assert forall|x: u64| true implies mem_bonds(ms@, x) == mem_bonds(
                    before,
                    x,
                ) + if x == a {
                    amt as int
                } else {
                    0int
                } by {
                    lemma_mem_bonds_update(before, i as int, e, x);
                }
                assert forall|x: u64|
                    mem_has(ms@, x) == (mem_has(before, x) || x == a) by {
                    if mem_has(before, x) {
                        let j = choose|j: int| 0 <= j < before.len() && before[j].account == x;
                        if j == i {
                            assert(ms@[i as int].account == x);
                        } else {
                            assert(ms@[j].account == x);
                        }
                    }
                    if mem_has(ms@, x) {
                        let j = choose|j: int|
                            0 <= j < ms@.len() && ms@[j].account == x;
                        if j == i {
                            assert(x == a);
                            assert(before[i as int].account == x);
                        } else {
                            assert(before[j].account == x);
                        }
                    }
                }
            }
            false
        },
        None => {
            proof {
                lemma_mem_bonds_absent(ms@, a);
            }
            let ghost before = ms@;
            let e = MemberEntry { account: a, bonded: amt };
            ms.push(e);
            proof {
                assert forall|x: u64| true implies mem_bonds(ms@, x) == mem_bonds(
                    before,
                    x,
                ) + if x == a {
                    amt as int
                } else {
                    0int
                } by {
                    lemma_mem_bonds_push(before, e, x);
                }
                assert forall|x: u64|
                    mem_has(ms@, x) == (mem_has(before, x) || x == a) by {
                    if mem_has(before, x) {
                        let j = choose|j: int| 0 <= j < before.len() && before[j].account == x;
                        assert(ms@[j].account == x);
                    }
                    if x == a {
                        assert(ms@[before.len() as int].account == a);
                    }
                    if mem_has(ms@, x) && x != a {
                        let j = choose|j: int|
                            0 <= j < ms@.len() && ms@[j].account == x;
                        assert(j < before.len());
                        assert(before[j].account == x);
                    }
                }
            }
            true
        },
    }
}

/// Insert `a` with a zero bond when absent; a no-op when `a` is already a
/// member. Returns whether an entry was created.
pub fn mem_insert_zero(ms: &mut Vec<MemberEntry>, a: u64) -> (created: bool)
    requires
        mem_distinct(old(ms)@),
        old(ms)@.len() < u64::MAX,
    ensures
        mem_distinct(final(ms)@),
        created == !mem_has(old(ms)@, a),
        final(ms)@.len() == old(ms)@.len() + if created {
            1int
        } else {
            0int
        },
        forall|x: u64| mem_has(final(ms)@, x) == (mem_has(old(ms)@, x) || x == a),
        forall|x: u64| mem_bonds(final(ms)@, x) == mem_bonds(old(ms)@, x),
{
    proof {
        lemma_mem_bonds_nonneg(ms@, a);
    }
    if mem_contains(ms, a) {
        false
    } else {
        let ghost before = ms@;
        let e = MemberEntry { account: a, bonded: 0 };
        ms.push(e);
        proof {
            assert forall|x: u64| true implies mem_bonds(ms@, x) == mem_bonds(
                before,
                x,
            ) by {
                lemma_mem_bonds_push(before, e, x);
            }
            assert forall|x: u64| mem_has(ms@, x) == (mem_has(before, x) || x == a) by {
                if mem_has(before, x) {
                    let j = choose|j: int| 0 <= j < before.len() && before[j].account == x;
                    assert(ms@[j].account == x);
                }
                if x == a {
                    assert(ms@[before.len() as int].account == a);
                }
                if mem_has(ms@, x) && x != a {
                    let j = choose|j: int|
                        0 <= j < ms@.len() && ms@[j].account == x;
                    assert(j < before.len());
                    assert(before[j].account == x);
                }
            }
        }
        true
    }
}

/// Remove `a`'s entry and return its bonded value; `None` when `a` has no
/// entry, leaving the ledger untouched.
pub fn mem_remove(ms: &mut Vec<MemberEntry>, a: u64) -> (r: Option<u64>)
    requires
        mem_distinct(old(ms)@),
    ensures
        mem_distinct(final(ms)@),
        match r {
            Some(b) => {
                &&& mem_has(old(ms)@, a)
                &&& b == mem_bonds(old(ms)@, a)
                &&& final(ms)@.len() == old(ms)@.len() - 1
            },
            None => {
                &&& !mem_has(old(ms)@, a)
                &&& final(ms)@ == old(ms)@
            },
        },
        forall|x: u64| mem_has(final(ms)@, x) == (mem_has(old(ms)@, x) && x != a),
        mem_bonds(final(ms)@, a) == 0,
        forall|x: u64| x != a ==> mem_bonds(final(ms)@, x) == mem_bonds(old(ms)@, x),
{
    match mem_find(ms, a) {
        Some(i) => {
            proof {
                lemma_mem_bonds_at(ms@, a, i as int);
            }
            let ghost before = ms@;
            let e = ms.remove(i);
            proof {
                assert(mem_distinct(ms@)) by {
                    assert(forall|j: int|
                        0 <= j < ms@.len() ==> ms@[j] == if j < i {
                            before[j]
                        } else {
                            before[j + 1]
                        });
                }
                assert forall|x: u64| true implies mem_bonds(ms@, x) == mem_bonds(
                    before,
                    x,
                ) - if x == a {
                    before[i as int].bonded as int
                } else {
                    0int
                } by {
                    lemma_mem_bonds_remove(before, i as int, x);
                }
                assert forall|x: u64|
                    mem_has(ms@, x) == (mem_has(before, x) && x != a) by {
                    if mem_has(ms@, x) {
                        let j = choose|j: int|
                            0 <= j < ms@.len() && ms@[j].account == x;
                        if j < i {
                            assert(before[j].account == x);
                        } else {
                            assert(before[j + 1].account == x);
                        }
                    }
                    if mem_has(before, x) && x != a {
                        let j = choose|j: int| 0 <= j < before.len() && before[j].account == x;
                        if j < i {
                            assert(ms@[j].account == x);
                        } else {
                            assert(j > i);
                            assert(ms@[j - 1].account == x);
                        }
                    }
                }
            }
            Some(e.bonded)
        },
        None => {
            proof {
                lemma_mem_bonds_absent(ms@, a);
            }
            None
        },
    }
}

/// Split the ledger total at the first entry.
pub proof fn lemma_mem_bonds_first(ms: Seq<MemberEntry>, a: u64)
    requires
        ms.len() > 0,
    ensures
        mem_bonds(ms, a) == (if ms[0].account == a {
            ms[0].bonded as int
        } else {
            0int
        }) + mem_bonds(ms.subrange(1, ms.len() as int), a),
    decreases ms.len(),
{
    if ms.len() == 1 {
        assert(ms.subrange(1, 1) =~= Seq::<MemberEntry>::empty());
        assert(mem_bonds(ms.subrange(1, ms.len() as int), a) == 0);
        assert(ms.drop_last() =~= Seq::<MemberEntry>::empty());
        assert(ms.last() == ms[0]);
        assert(mem_bonds(ms, a) == (if ms[0].account == a {
            ms[0].bonded as int
        } else {
            0int
        }));
    } else {
        let tail = ms.drop_last();
        assert(tail[0] == ms[0]);
        lemma_mem_bonds_first(tail, a);
        assert(ms.subrange(1, ms.len() as int).drop_last() =~= tail.subrange(
            1,
            tail.len() as int,
        ));
        assert(ms.subrange(1, ms.len() as int).last() == ms.last());
        assert(mem_bonds(ms.subrange(1, ms.len() as int), a) == mem_bonds(
            tail.subrange(1, tail.len() as int),
            a,
        ) + (if ms.last().account == a {
            ms.last().bonded as int
        } else {
            0int
        }));
        assert(mem_bonds(ms, a) == mem_bonds(tail, a) + (if ms.last().account == a {
            ms.last().bonded as int
        } else {
            0int
        }));
    }
}

} // verus!
