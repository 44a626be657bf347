//! The delegation module itself: the tree registry, the membership ledger,
//! the bond calculator and the five state-transition operations.

use vstd::prelude::*;

use crate::balances::Balances;
use crate::forest::{
    count_children, forest_bonds, is_child, lemma_child_counts, lemma_count_children_push, lemma_count_children_update, lemma_forest_bonds_nonneg,
    lemma_forest_bonds_push, lemma_forest_bonds_update, lemma_node_bonds_le_forest, node_bonds,
    parent_of, TreeNode, TreeState,
};
use crate::members::{
    lemma_mem_bonds_at, lemma_mem_bonds_nonneg, mem_accumulate, mem_bonds, mem_contains,
    mem_distinct, mem_has, mem_insert_zero, mem_remove, MemberEntry,
};
use crate::types::{Error, Event};

verus! {

/// Whether `x` occurs in the request list `s`.
pub open spec fn listed_in(s: Seq<u64>, x: u64) -> bool {
    exists|i: int| 0 <= i < s.len() && s[i] == x
}

/// How many accounts of the request list `s` are genuinely new to the
/// ledger `ms`: listed, not yet members, each counted once.
pub open spec fn count_fresh(s: Seq<u64>, ms: Seq<MemberEntry>) -> int
    decreases s.len(),
{
    if s.len() == 0 {
        0
    } else {
        count_fresh(s.drop_last(), ms) + if !mem_has(ms, s.last()) && !listed_in(
            s.drop_last(),
            s.last(),
        ) {
            1int
        } else {
            0int
        }
    }
}

/// How many entries of the ledger `ms` a removal request `s` takes out:
/// those listed, except the tree's bonded `owner`.
pub open spec fn count_removable(ms: Seq<MemberEntry>, s: Seq<u64>, owner: u64) -> int
    decreases ms.len(),
{
    if ms.len() == 0 {
        0
    } else {
        count_removable(ms.drop_last(), s, owner) + if listed_in(s, ms.last().account)
            && ms.last().account != owner {
            1int
        } else {
            0int
        }
    }
}

/// `base` raised to `e`, over the unbounded integers.
pub open spec fn pow_int(base: int, e: nat) -> int
    decreases e,
{
    if e == 0 {
        1
    } else {
        base * pow_int(base, (e - 1) as nat)
    }
}

pub proof fn lemma_pow_pos(base: int, e: nat)
    requires
        base >= 1,
    ensures
        pow_int(base, e) >= 1,
    decreases e,
{
    if e > 0 {
        lemma_pow_pos(base, (e - 1) as nat);
        assert(base * pow_int(base, (e - 1) as nat) >= 1) by (nonlinear_arith)
            requires
                base >= 1,
                pow_int(base, (e - 1) as nat) >= 1,
        ;
    }
}

pub proof fn lemma_pow_monotone(base: int, e1: nat, e2: nat)
    requires
        base >= 1,
        e1 <= e2,
    ensures
        pow_int(base, e1) <= pow_int(base, e2),
    decreases e2,
{
    if e1 < e2 {
        lemma_pow_monotone(base, e1, (e2 - 1) as nat);
        lemma_pow_pos(base, (e2 - 1) as nat);
        assert(pow_int(base, (e2 - 1) as nat) <= base * pow_int(base, (e2 - 1) as nat))
            by (nonlinear_arith)
            requires
                base >= 1,
                pow_int(base, (e2 - 1) as nat) >= 1,
        ;
    }
}

/// The delegation module: its fixed configuration, the tree registry, the
/// balance ledger it reserves bonds against, and the event log.
///
/// Tree ids equal registry slots and are handed out in order, never reused:
/// a destroyed tree leaves its slot empty forever, which keeps every id
/// unique for the whole life of the module.
#[derive(Clone, Debug, PartialEq, Eq)]
pub struct Module {
    /// Base deposit unit.
    pub bond: u64,
    /// Upper bound on every tree's member count.
    pub max_size: u32,
    /// Upper bound on every tree's height.
    pub max_depth: u32,
    /// Upper bound on every tree's direct child count.
    pub max_kids: u32,
    /// The tree registry: slot `i` holds the tree with id `i`.
    pub trees: Vec<Option<TreeNode>>,
    /// The reservable-balance ledger bonds are taken from.
    pub balances: Balances,
    /// Append-only log of the events the operations emitted.
    pub events: Vec<Event>,
}

/// Heights are coherent and bounded: a registered tree never stands deeper
/// than `max_depth`, and where its parent is registered too it stands
/// exactly one level below it. This is all the recursive teardown needs.
pub open spec fn heights_ok(ts: Seq<Option<TreeNode>>, max_depth: u32) -> bool {
    forall|i: int|
        #![trigger ts[i]]
        0 <= i < ts.len() && ts[i] is Some ==> {
            let n = ts[i]->Some_0;
            &&& n.state.height <= max_depth
            &&& match n.state.parent {
                None => true,
                Some(p) => 0 <= p < ts.len() && ts[p as int] is Some ==> n.state.height
                    == ts[p as int]->Some_0.state.height + 1,
            }
        }
}

/// Full structural well-formedness of the registry.
pub open spec fn trees_ok(ts: Seq<Option<TreeNode>>, max_depth: u32, max_kids: u32) -> bool {
    forall|i: int|
        #![trigger ts[i]]
        0 <= i < ts.len() && ts[i] is Some ==> {
            let n = ts[i]->Some_0;
            &&& n.state.id == i
            &&& mem_distinct(n.members@)
            &&& n.state.size == n.members@.len()
            &&& n.state.height <= max_depth
            &&& n.state.kids == count_children(ts, i as u64)
            &&& n.state.kids <= max_kids
            &&& match n.state.parent {
                None => n.state.height == 0,
                Some(p) => 0 <= p < ts.len() && ts[p as int] is Some && n.state.height == ts[
                    p as int
                ]->Some_0.state.height + 1,
            }
        }
}

impl Module {
    /// The free balance of `a`.
    pub open spec fn free_of(self, a: u64) -> int {
        self.balances.free_of(a)
    }

    /// The reserved balance of `a`.
    pub open spec fn reserved_of(self, a: u64) -> int {
        self.balances.reserved_of(a)
    }

    /// Whether a tree with id `id` is registered.
    pub open spec fn has_tree(self, id: u64) -> bool {
        id < self.trees@.len() && self.trees@[id as int] is Some
    }

    /// The registry node of tree `id` (meaningful when `has_tree(id)`).
    pub open spec fn node_of(self, id: u64) -> TreeNode {
        self.trees@[id as int]->Some_0
    }

    /// The registered state of tree `id` (meaningful when `has_tree(id)`).
    pub open spec fn state_of(self, id: u64) -> TreeState {
        self.node_of(id).state
    }

    /// Whether `a` has a membership entry in tree `id`.
    pub open spec fn is_member(self, id: u64, a: u64) -> bool {
        self.has_tree(id) && mem_has(self.node_of(id).members@, a)
    }

    /// What `a` has bonded against tree `id`.
    pub open spec fn member_bond(self, id: u64, a: u64) -> int {
        mem_bonds(self.node_of(id).members@, a)
    }

    /// The two configuration views agree.
    pub open spec fn same_config(self, other: Module) -> bool {
        &&& self.bond == other.bond
        &&& self.max_size == other.max_size
        &&& self.max_depth == other.max_depth
        &&& self.max_kids == other.max_kids
    }

    /// The module invariant: the registry is structurally well formed, the
    /// balance ledger is well formed, and every account's reserved balance
    /// equals exactly the total it has bonded across the forest.
    pub open spec fn wf(self) -> bool {
        &&& trees_ok(self.trees@, self.max_depth, self.max_kids)
        &&& self.balances.wf()
        &&& forall|a: u64| #[trigger] self.reserved_of(a) == forest_bonds(self.trees@, a)
    }

    /// A fresh module with the given configuration, an empty registry, an
    /// empty event log and no endowed accounts.
    pub fn new(bond: u64, max_size: u32, max_depth: u32, max_kids: u32) -> (m: Module)
        ensures
            m.wf(),
            m.bond == bond,
            m.max_size == max_size,
            m.max_depth == max_depth,
            m.max_kids == max_kids,
            m.trees@.len() == 0,
            m.events@.len() == 0,
            forall|a: u64| m.free_of(a) == 0 && m.reserved_of(a) == 0,
    {
        Module {
            bond,
            max_size,
            max_depth,
            max_kids,
            trees: Vec::new(),
            balances: Balances::new(),
            events: Vec::new(),
        }
    }

    /// Endow `a` with `amount` of free balance, as a genesis configuration
    /// does before the module starts operating.
    pub fn deposit(&mut self, a: u64, amount: u64)
        requires
            old(self).wf(),
            old(self).free_of(a) + old(self).reserved_of(a) + amount <= u64::MAX,
        ensures
            final(self).wf(),
            final(self).same_config(*old(self)),
            final(self).trees == old(self).trees,
            final(self).events == old(self).events,
            final(self).free_of(a) == old(self).free_of(a) + amount,
            final(self).reserved_of(a) == old(self).reserved_of(a),
            forall|x: u64| x != a ==> final(self).free_of(x) == old(self).free_of(x),
            forall|x: u64| x != a ==> final(self).reserved_of(x) == old(self).reserved_of(x),
    {
        self.balances.deposit(a, amount);
        proof {
            assert forall|x: u64| #[trigger] self.reserved_of(x) == forest_bonds(
                self.trees@,
                x,
            ) by {
                assert(old(self).reserved_of(x) == forest_bonds(old(self).trees@, x));
            }
        }
    }

    /// The free balance of `a`.
    pub fn free_balance(&self, a: u64) -> (r: u64)
        requires
            self.wf(),
        ensures
            r == self.free_of(a),
    {
        self.balances.free_balance(a)
    }

    /// The reserved balance of `a`.
    pub fn reserved_balance(&self, a: u64) -> (r: u64)
        requires
            self.wf(),
        ensures
            r == self.reserved_of(a),
    {
        self.balances.reserved_balance(a)
    }

    /// The registered state of tree `id`, when there is one.
    pub fn tree_state(&self, id: u64) -> (r: Option<TreeState>)
        ensures
            match r {
                Some(st) => self.has_tree(id) && st == self.state_of(id),
                None => !self.has_tree(id),
            },
    {
        if id < self.trees.len() as u64 {
            match &self.trees[id as usize] {
                Some(n) => Some(n.state),
                None => None,
            }
        } else {
            None
        }
    }

    /// Whether `a` has a membership entry in tree `id`.
    pub fn member_of(&self, id: u64, a: u64) -> (r: bool)
        ensures
            r == self.is_member(id, a),
    {
        if id < self.trees.len() as u64 {
            match &self.trees[id as usize] {
                Some(n) => mem_contains(&n.members, a),
                None => false,
            }
        } else {
            false
        }
    }

    /// What `a` has bonded against tree `id`; `None` when `a` has no entry
    /// there or the tree does not exist.
    pub fn member_balance(&self, id: u64, a: u64) -> (r: Option<u64>)
        requires
            self.wf(),
        ensures
            match r {
                Some(b) => self.is_member(id, a) && b == self.member_bond(id, a),
                None => !self.is_member(id, a),
            },
    {
        if id < self.trees.len() as u64 {
            match &self.trees[id as usize] {
                Some(n) => {
                    match crate::members::mem_find(&n.members, a) {
                        Some(i) => {
                            proof {
                                lemma_mem_bonds_at(n.members@, a, i as int);
                            }
                            Some(n.members[i].bonded)
                        },
                        None => None,
                    }
                },
                None => None,
            }
        } else {
            None
        }
    }

    /// Generate a unique tree id: the one the next registered tree gets.
    /// Ids count up from zero and are never reused, so this is the number
    /// of ids handed out so far.
    pub fn gen_uid(&self) -> (id: u64)
        ensures
            id == self.trees@.len(),
    {
        self.trees.len() as u64
    }

    /// Take tree `idx`'s node out of the registry, leaving the slot empty.
    fn take_node(&mut self, idx: usize) -> (n: TreeNode)
        requires
            idx < old(self).trees@.len(),
            old(self).trees@[idx as int] is Some,
        ensures
            n == old(self).trees@[idx as int]->Some_0,
            final(self).trees@ == old(self).trees@.update(idx as int, None::<TreeNode>),
            final(self).balances == old(self).balances,
            final(self).events == old(self).events,
            final(self).same_config(*old(self)),
    {
        let slot: &mut Option<TreeNode> = &mut self.trees[idx];
        let n = slot.take();
        n.unwrap()
    }

    /// Put a node back into slot `idx`.
    fn put_node(&mut self, idx: usize, n: TreeNode)
        requires
            idx < old(self).trees@.len(),
        ensures
            final(self).trees@ == old(self).trees@.update(idx as int, Some(n)),
            final(self).balances == old(self).balances,
            final(self).events == old(self).events,
            final(self).same_config(*old(self)),
    {
        self.trees[idx] = Some(n);
    }
}

/// A members-or-size-only change to one slot leaves the registry well
/// formed: ids, parents, heights and kid counts are untouched, and the
/// changed slot keeps its size equal to its ledger length.
pub proof fn lemma_trees_ok_members_update(
    ts1: Seq<Option<TreeNode>>,
    ts2: Seq<Option<TreeNode>>,
    i: int,
    max_depth: u32,
    max_kids: u32,
)
    requires
        trees_ok(ts1, max_depth, max_kids),
        0 <= i < ts1.len(),
        ts1[i] is Some,
        ts2[i] is Some,
        ts2 == ts1.update(i, ts2[i]),
        ts2[i]->Some_0.state.id == ts1[i]->Some_0.state.id,
        ts2[i]->Some_0.state.parent == ts1[i]->Some_0.state.parent,
        ts2[i]->Some_0.state.height == ts1[i]->Some_0.state.height,
        ts2[i]->Some_0.state.kids == ts1[i]->Some_0.state.kids,
        mem_distinct(ts2[i]->Some_0.members@),
        ts2[i]->Some_0.state.size == ts2[i]->Some_0.members@.len(),
    ensures
        trees_ok(ts2, max_depth, max_kids),
{
    assert forall|j: int| 0 <= j < ts2.len() && ts2[j] is Some implies {
        let n = ts2[j]->Some_0;
        &&& n.state.id == j
        &&& mem_distinct(n.members@)
        &&& n.state.size == n.members@.len()
        &&& n.state.height <= max_depth
        &&& n.state.kids == count_children(ts2, j as u64)
        &&& n.state.kids <= max_kids
        &&& match n.state.parent {
            None => n.state.height == 0,
            Some(p) => 0 <= p < ts2.len() && ts2[p as int] is Some && n.state.height == ts2[
                p as int
            ]->Some_0.state.height + 1,
        }
    } by {
        assert(ts1[j] is Some);
        lemma_count_children_update(ts1, i, ts2[i], j as u64);
        assert(is_child(ts2[i], j as u64) == is_child(ts1[i], j as u64));
    }
}

impl Module {
    /// The exponential bond a delegation resulting in `height` and `kids`
    /// costs: the base bond multiplied with itself `height + kids` times.
    pub open spec fn exp_amount(self, height: u32, kids: u32) -> int {
        pow_int(self.bond as int, (height + kids) as nat)
    }

    /// The linear bond a membership change resulting in `new_size` costs.
    pub open spec fn linear_amount(self, new_size: u32) -> int {
        self.bond * new_size
    }

    /// `base` raised to `e`, or `None` when the power exceeds the balance
    /// type, which no reservation could ever cover.
    fn checked_pow(base: u64, e: u64) -> (r: Option<u64>)
        ensures
            match r {
                Some(v) => v == pow_int(base as int, e as nat),
                None => pow_int(base as int, e as nat) > u64::MAX,
            },
    {
        let mut acc: u64 = 1;
        let mut i: u64 = 0;
        while i < e
            invariant
                i <= e,
                acc == pow_int(base as int, i as nat),
            decreases e - i,
        {
            match acc.checked_mul(base) {
                Some(next) => {
                    acc = next;
                    i = i + 1;
                    proof {
                        assert(acc == pow_int(base as int, i as nat)) by {
                            assert(pow_int(base as int, i as nat) == base as int * pow_int(
                                base as int,
                                (i - 1) as nat,
                            ));
                        }
                    }
                },
                None => {
                    proof {
                        assert(base >= 1);
                        assert(pow_int(base as int, (i + 1) as nat) == base as int * pow_int(
                            base as int,
                            i as nat,
                        ));
                        lemma_pow_monotone(base as int, (i + 1) as nat, e as nat);
                    }
                    return None;
                },
            }
        }
        Some(acc)
    }

    /// Reserve the exponential bond `bond ^ (height + kids)` from `account`
    /// and accumulate it into `account`'s membership entry of tree `tree`,
    /// creating that entry when `account` had none. A bond that does not
    /// fit the balance type is a reservation failure like any other.
    pub fn reserve_exponential_bond(
        &mut self,
        tree: u64,
        account: u64,
        height: u32,
        kids: u32,
    ) -> (r: Result<u64, Error>)
        requires
            old(self).wf(),
            old(self).has_tree(tree),
            old(self).is_member(tree, account) || old(self).state_of(tree).size < u32::MAX,
        ensures
            final(self).wf(),
            final(self).same_config(*old(self)),
            final(self).events == old(self).events,
            r is Ok <==> old(self).exp_amount(height, kids) <= old(self).free_of(account),
            r is Err ==> r == Err::<u64, Error>(Error::InsufficientBalance) && *final(self) == *old(self),
            r is Ok ==> r->Ok_0 == old(self).exp_amount(height, kids),
            r is Ok ==> final(self).free_of(account) == old(self).free_of(account) - old(self).exp_amount(height, kids) && final(self).reserved_of(account) == old(self).reserved_of(
                account,
            ) + old(self).exp_amount(height, kids),
            forall|x: u64| x != account ==> final(self).free_of(x) == old(self).free_of(x),
            forall|x: u64| x != account ==> final(self).reserved_of(x) == old(self).reserved_of(x),
            final(self).trees@.len() == old(self).trees@.len(),
            forall|j: int|
                0 <= j < old(self).trees@.len() && j != tree ==> final(self).trees@[j] == old(self).trees@[j],
            final(self).has_tree(tree),
            r is Ok ==> ({
                let pre = old(self).node_of(tree);
                let post = final(self).node_of(tree);
                &&& post.state.id == pre.state.id
                &&& post.state.parent == pre.state.parent
                &&& post.state.bonded == pre.state.bonded
                &&& post.state.height == pre.state.height
                &&& post.state.kids == pre.state.kids
                &&& post.state.size == pre.state.size + if old(self).is_member(tree, account) {
                    0int
                } else {
                    1int
                }
                &&& post.members@.len() == post.state.size
                &&& mem_distinct(post.members@)
                &&& (forall|x: u64|
                    mem_has(post.members@, x) == (mem_has(pre.members@, x) || x == account))
                &&& mem_bonds(post.members@, account) == mem_bonds(pre.members@, account) + old(self).exp_amount(height, kids)
                &&& (forall|x: u64|
                    x != account ==> mem_bonds(post.members@, x) == mem_bonds(pre.members@, x))
            }),
    {
        let e: u64 = height as u64 + kids as u64;
        let amt = match Self::checked_pow(self.bond, e) {
            Some(v) => v,
            None => {
                proof {
                    crate::balances::lemma_bal_bounds(self.balances, account);
                }
                return Err(Error::InsufficientBalance);
            },
        };
        if !self.balances.reserve(account, amt) {
            return Err(Error::InsufficientBalance);
        }
        proof {
            assert(old(self).reserved_of(account) == forest_bonds(old(self).trees@, account));
            assert forall|x: u64| x != account implies #[trigger] self.reserved_of(x)
                == forest_bonds(self.trees@, x) by {
                assert(old(self).reserved_of(x) == forest_bonds(old(self).trees@, x));
            }
        }
        self.bond_into_entry(tree, account, amt);
        Ok(amt)
    }

    /// Reserve the linear bond `bond * new_size` from `account` and
    /// accumulate it into `account`'s membership entry of tree `tree`,
    /// creating that entry when `account` had none.
    pub fn reserve_linear_bond(&mut self, tree: u64, account: u64, new_size: u32) -> (r: Result<
        u64,
        Error,
    >)
        requires
            old(self).wf(),
            old(self).has_tree(tree),
            old(self).is_member(tree, account) || old(self).state_of(tree).size < u32::MAX,
        ensures
            final(self).wf(),
            final(self).same_config(*old(self)),
            final(self).events == old(self).events,
            r is Ok <==> old(self).linear_amount(new_size) <= old(self).free_of(account),
            r is Err ==> r == Err::<u64, Error>(Error::InsufficientBalance) && *final(self) == *old(self),
            r is Ok ==> r->Ok_0 == old(self).linear_amount(new_size),
            r is Ok ==> final(self).free_of(account) == old(self).free_of(account) - old(self).linear_amount(new_size) && final(self).reserved_of(account) == old(self).reserved_of(
                account,
            ) + old(self).linear_amount(new_size),
            forall|x: u64| x != account ==> final(self).free_of(x) == old(self).free_of(x),
            forall|x: u64| x != account ==> final(self).reserved_of(x) == old(self).reserved_of(x),
            final(self).trees@.len() == old(self).trees@.len(),
            forall|j: int|
                0 <= j < old(self).trees@.len() && j != tree ==> final(self).trees@[j] == old(self).trees@[j],
            final(self).has_tree(tree),
            r is Ok ==> ({
                let pre = old(self).node_of(tree);
                let post = final(self).node_of(tree);
                &&& post.state.id == pre.state.id
                &&& post.state.parent == pre.state.parent
                &&& post.state.bonded == pre.state.bonded
                &&& post.state.height == pre.state.height
                &&& post.state.kids == pre.state.kids
                &&& post.state.size == pre.state.size + if old(self).is_member(tree, account) {
                    0int
                } else {
                    1int
                }
                &&& post.members@.len() == post.state.size
                &&& mem_distinct(post.members@)
                &&& (forall|x: u64|
                    mem_has(post.members@, x) == (mem_has(pre.members@, x) || x == account))
                &&& mem_bonds(post.members@, account) == mem_bonds(pre.members@, account) + old(self).linear_amount(new_size)
                &&& (forall|x: u64|
                    x != account ==> mem_bonds(post.members@, x) == mem_bonds(pre.members@, x))
            }),
    {
        let amt = match self.bond.checked_mul(new_size as u64) {
            Some(v) => v,
            None => {
                proof {
                    crate::balances::lemma_bal_bounds(self.balances, account);
                }
                return Err(Error::InsufficientBalance);
            },
        };
        if !self.balances.reserve(account, amt) {
            return Err(Error::InsufficientBalance);
        }
        proof {
            assert(old(self).reserved_of(account) == forest_bonds(old(self).trees@, account));
            assert forall|x: u64| x != account implies #[trigger] self.reserved_of(x)
                == forest_bonds(self.trees@, x) by {
                assert(old(self).reserved_of(x) == forest_bonds(old(self).trees@, x));
            }
        }
        self.bond_into_entry(tree, account, amt);
        Ok(amt)
    }

    /// Accumulate a just-reserved `amt` into `account`'s entry of `tree`.
    /// Expects the module as `reserve` left it: everything well formed but
    /// `account`'s reserved balance standing `amt` above its bonded total.
    fn bond_into_entry(&mut self, tree: u64, account: u64, amt: u64)
        requires
            old(self).has_tree(tree),
            trees_ok(old(self).trees@, old(self).max_depth, old(self).max_kids),
            old(self).balances.wf(),
            old(self).reserved_of(account) == forest_bonds(old(self).trees@, account) + amt,
            forall|x: u64|
                x != account ==> #[trigger] old(self).reserved_of(x) == forest_bonds(
                    old(self).trees@,
                    x,
                ),
            old(self).is_member(tree, account) || old(self).state_of(tree).size < u32::MAX,
        ensures
            final(self).wf(),
            final(self).same_config(*old(self)),
            final(self).events == old(self).events,
            final(self).balances == old(self).balances,
            final(self).trees@.len() == old(self).trees@.len(),
            forall|j: int|
                0 <= j < old(self).trees@.len() && j != tree ==> final(self).trees@[j] == old(self).trees@[j],
            final(self).has_tree(tree),
            ({
                let pre = old(self).node_of(tree);
                let post = final(self).node_of(tree);
                &&& post.state.id == pre.state.id
                &&& post.state.parent == pre.state.parent
                &&& post.state.bonded == pre.state.bonded
                &&& post.state.height == pre.state.height
                &&& post.state.kids == pre.state.kids
                &&& post.state.size == pre.state.size + if old(self).is_member(tree, account) {
                    0int
                } else {
                    1int
                }
                &&& post.members@.len() == post.state.size
                &&& mem_distinct(post.members@)
                &&& (forall|x: u64|
                    mem_has(post.members@, x) == (mem_has(pre.members@, x) || x == account))
                &&& mem_bonds(post.members@, account) == mem_bonds(pre.members@, account) + amt
                &&& (forall|x: u64|
                    x != account ==> mem_bonds(post.members@, x) == mem_bonds(pre.members@, x))
            }),
    {
        let ghost pre_trees = self.trees@;
        let n = self.trees.len();
        proof {
            assert(pre_trees.len() == n);
            assert(pre_trees[tree as int] is Some);
            assert(mem_distinct(pre_trees[tree as int]->Some_0.members@));
            lemma_node_bonds_le_forest(pre_trees, tree as int, account);
            lemma_forest_bonds_nonneg(pre_trees, account);
            crate::balances::lemma_bal_bounds(self.balances, account);
            lemma_mem_bonds_nonneg(self.node_of(tree).members@, account);
        }
        let idx = tree as usize;
        let mut node = self.take_node(idx);
        let created = mem_accumulate(&mut node.members, account, amt);
        if created {
            node.state.size = node.state.size + 1;
        }
        self.put_node(idx, node);
        proof {
            let post_trees = self.trees@;
            assert(post_trees =~= pre_trees.update(tree as int, post_trees[tree as int]));
            lemma_trees_ok_members_update(
                pre_trees,
                post_trees,
                tree as int,
                self.max_depth,
                self.max_kids,
            );
            assert forall|x: u64| #[trigger] self.reserved_of(x) == forest_bonds(
                post_trees,
                x,
            ) by {
                lemma_forest_bonds_update(pre_trees, tree as int, post_trees[tree as int], x);
                if x == account {
                    assert(old(self).reserved_of(x) == forest_bonds(pre_trees, x) + amt);
                    assert(node_bonds(post_trees[tree as int], x) == node_bonds(
                        pre_trees[tree as int],
                        x,
                    ) + amt);
                } else {
                    assert(old(self).reserved_of(x) == forest_bonds(pre_trees, x));
                    assert(node_bonds(post_trees[tree as int], x) == node_bonds(
                        pre_trees[tree as int],
                        x,
                    ));
                }
            }
        }
    }
}

pub proof fn lemma_listed_in_push(s: Seq<u64>, m: u64, x: u64)
    ensures
        listed_in(s.push(m), x) == (listed_in(s, x) || x == m),
{
    if listed_in(s.push(m), x) {
        let i = choose|i: int| 0 <= i < s.push(m).len() && s.push(m)[i] == x;
        if i < s.len() {
            assert(s[i] == x);
        }
    }
    if listed_in(s, x) {
        let i = choose|i: int| 0 <= i < s.len() && s[i] == x;
        assert(s.push(m)[i] == x);
    }
    if x == m {
        assert(s.push(m)[s.len() as int] == x);
    }
}

pub proof fn lemma_count_fresh_bounds(s: Seq<u64>, ms: Seq<MemberEntry>)
    ensures
        0 <= count_fresh(s, ms) <= s.len(),
    decreases s.len(),
{
    if s.len() > 0 {
        lemma_count_fresh_bounds(s.drop_last(), ms);
    }
}

/// A tree nothing points at has no children.
pub proof fn lemma_count_children_none(ts: Seq<Option<TreeNode>>, p: u64)
    requires
        forall|t: int| 0 <= t < ts.len() ==> !is_child(#[trigger] ts[t], p),
    ensures
        count_children(ts, p) == 0,
    decreases ts.len(),
{
    if ts.len() > 0 {
        assert(forall|t: int| 0 <= t < ts.len() - 1 ==> ts.drop_last()[t] == ts[t]);
        lemma_count_children_none(ts.drop_last(), p);
    }
}

impl Module {
    /// Insert every listed account that is not yet a member into tree
    /// `tree`'s ledger with a zero bond, each counted once, and set the
    /// tree's size to the resulting member count. Bonds, balances and the
    /// rest of the registry are untouched.
    pub fn add_mems(&mut self, tree: u64, mems: Vec<u64>)
        requires
            old(self).wf(),
            old(self).has_tree(tree),
            old(self).node_of(tree).members@.len() + count_fresh(
                mems@,
                old(self).node_of(tree).members@,
            ) <= u32::MAX,
        ensures
            final(self).wf(),
            final(self).same_config(*old(self)),
            final(self).events == old(self).events,
            final(self).balances == old(self).balances,
            final(self).trees@.len() == old(self).trees@.len(),
            forall|j: int|
                0 <= j < old(self).trees@.len() && j != tree ==> final(self).trees@[j] == old(self).trees@[j],
            final(self).has_tree(tree),
            ({
                let pre = old(self).node_of(tree);
                let post = final(self).node_of(tree);
                &&& post.state.id == pre.state.id
                &&& post.state.parent == pre.state.parent
                &&& post.state.bonded == pre.state.bonded
                &&& post.state.height == pre.state.height
                &&& post.state.kids == pre.state.kids
                &&& post.state.size == pre.state.size + count_fresh(mems@, pre.members@)
                &&& post.members@.len() == post.state.size
                &&& mem_distinct(post.members@)
                &&& (forall|x: u64|
                    #[trigger] mem_has(post.members@, x) == (mem_has(pre.members@, x) || listed_in(
                        mems@,
                        x,
                    )))
                &&& (forall|x: u64|
                    #[trigger] mem_bonds(post.members@, x) == mem_bonds(pre.members@, x))
            }),
    {
        let ghost pre_trees = self.trees@;
        let n = self.trees.len();
        proof {
            assert(pre_trees.len() == n);
            assert(pre_trees[tree as int] is Some);
        }
        let idx = tree as usize;
        let mut node = self.take_node(idx);
        let ghost pre_members = node.members@;
        let ghost pre_state = node.state;
        let mut k: usize = 0;
        while k < mems.len()
            invariant
                k <= mems@.len(),
                node.state == pre_state,
                mem_distinct(node.members@),
                pre_members.len() + count_fresh(mems@, pre_members) <= u32::MAX,
                node.members@.len() == pre_members.len() + count_fresh(
                    mems@.subrange(0, k as int),
                    pre_members,
                ),
                forall|x: u64|
                    #[trigger] mem_has(node.members@, x) == (mem_has(pre_members, x) || listed_in(
                        mems@.subrange(0, k as int),
                        x,
                    )),
                forall|x: u64| #[trigger] mem_bonds(node.members@, x) == mem_bonds(pre_members, x),
            decreases mems@.len() - k,
        {
            let ghost prefix = mems@.subrange(0, k as int);
            let ghost cur = node.members@;
            let m = mems[k];
            proof {
                lemma_count_fresh_bounds(prefix, pre_members);
                lemma_count_fresh_prefix(mems@, k as int, pre_members);
            }
            let created = mem_insert_zero(&mut node.members, m);
            proof {
                let prefix1 = mems@.subrange(0, (k + 1) as int);
                assert(prefix1.drop_last() =~= prefix);
                assert(prefix1.last() == m);
                assert(prefix1 =~= prefix.push(m));
                assert(mem_has(cur, m) == (mem_has(pre_members, m) || listed_in(prefix, m)));
                assert(created == !(mem_has(pre_members, m) || listed_in(prefix, m)));
                assert(count_fresh(prefix1, pre_members) == count_fresh(prefix, pre_members)
                    + if created {
                    1int
                } else {
                    0int
                });
                assert(node.members@.len() == pre_members.len() + count_fresh(
                    prefix1,
                    pre_members,
                ));
                assert forall|x: u64|
                    mem_has(node.members@, x) == (mem_has(pre_members, x) || listed_in(
                        prefix1,
                        x,
                    )) by {
                    lemma_listed_in_push(prefix, m, x);
                    assert(mem_has(node.members@, x) == (mem_has(cur, x) || x == m));
                    assert(mem_has(cur, x) == (mem_has(pre_members, x) || listed_in(prefix, x)));
                }
            }
            k = k + 1;
        }
        proof {
            assert(mems@.subrange(0, mems@.len() as int) =~= mems@);
            lemma_count_fresh_bounds(mems@, pre_members);
        }
        node.state.size = node.members.len() as u32;
        self.put_node(idx, node);
        proof {
            let post_trees = self.trees@;
            assert(post_trees =~= pre_trees.update(tree as int, post_trees[tree as int]));
            lemma_trees_ok_members_update(
                pre_trees,
                post_trees,
                tree as int,
                self.max_depth,
                self.max_kids,
            );
            assert forall|x: u64| #[trigger] self.reserved_of(x) == forest_bonds(
                post_trees,
                x,
            ) by {
                lemma_forest_bonds_update(pre_trees, tree as int, post_trees[tree as int], x);
                assert(old(self).reserved_of(x) == forest_bonds(pre_trees, x));
                assert(node_bonds(post_trees[tree as int], x) == node_bonds(
                    pre_trees[tree as int],
                    x,
                ));
            }
        }
    }

    /// Register a new root tree for `caller`: reserve the flat base bond,
    /// allocate the next id, record the tree with `caller` as its bonded
    /// owner and sole member, and emit `RegisterIdRoot`. Fails only when
    /// `caller`'s free balance cannot cover the bond, and then changes
    /// nothing.
    pub fn create_root(&mut self, caller: u64) -> (r: Result<(), Error>)
        requires
            old(self).wf(),
        ensures
            final(self).wf(),
            final(self).same_config(*old(self)),
            r is Ok <==> old(self).bond as int <= old(self).free_of(caller),
            r is Err ==> r == Err::<(), Error>(Error::InsufficientBalance) && *final(self) == *old(self),
            forall|x: u64| x != caller ==> final(self).free_of(x) == old(self).free_of(x),
            forall|x: u64| x != caller ==> final(self).reserved_of(x) == old(self).reserved_of(x),
            r is Ok ==> final(self).free_of(caller) == old(self).free_of(caller) - old(self).bond
                && final(self).reserved_of(caller) == old(self).reserved_of(caller) + old(self).bond,
            r is Ok ==> ({
                let id = old(self).trees@.len() as u64;
                &&& final(self).trees@.len() == old(self).trees@.len() + 1
                &&& (forall|j: int|
                    0 <= j < old(self).trees@.len() ==> final(self).trees@[j] == old(self).trees@[j])
                &&& final(self).has_tree(id)
                &&& final(self).state_of(id) == (TreeState {
                    id,
                    parent: None,
                    bonded: caller,
                    height: 0,
                    kids: 0,
                    size: 1,
                })
                &&& final(self).node_of(id).members@ == seq![
                    MemberEntry { account: caller, bonded: old(self).bond },
                ]
                &&& final(self).events@ == old(self).events@.push(
                    Event::RegisterIdRoot(id, caller, old(self).bond),
                )
            }),
    {
        let bond = self.bond;
        if !self.balances.reserve(caller, bond) {
            return Err(Error::InsufficientBalance);
        }
        let id = self.gen_uid();
        let ghost pre_trees = self.trees@;
        let mut members: Vec<MemberEntry> = Vec::new();
        members.push(MemberEntry { account: caller, bonded: bond });
        let state = TreeState { id, parent: None, bonded: caller, height: 0, kids: 0, size: 1 };
        let node = TreeNode { state, members };
        self.trees.push(Some(node));
        self.events.push(Event::RegisterIdRoot(id, caller, bond));
        proof {
            let post_trees = self.trees@;
            let nd = post_trees[pre_trees.len() as int];
            assert(nd->Some_0.members@ =~= seq![
                MemberEntry { account: caller, bonded: bond },
            ]);
            assert(mem_bonds(nd->Some_0.members@, caller) == bond && forall|x: u64|
                x != caller ==> mem_bonds(nd->Some_0.members@, x) == 0) by {
                assert forall|x: u64| true implies mem_bonds(nd->Some_0.members@, x)
                    == if x == caller {
                    bond as int
                } else {
                    0int
                } by {
                    crate::members::lemma_mem_bonds_push(
                        Seq::<MemberEntry>::empty(),
                        MemberEntry { account: caller, bonded: bond },
                        x,
                    );
                }
            }
            assert forall|j: int| 0 <= j < post_trees.len() && post_trees[j] is Some implies {
                let nj = post_trees[j]->Some_0;
                &&& nj.state.id == j
                &&& mem_distinct(nj.members@)
                &&& nj.state.size == nj.members@.len()
                &&& nj.state.height <= self.max_depth
                &&& nj.state.kids == count_children(post_trees, j as u64)
                &&& nj.state.kids <= self.max_kids
                &&& match nj.state.parent {
                    None => nj.state.height == 0,
                    Some(p) => 0 <= p < post_trees.len() && post_trees[p as int] is Some
                        && nj.state.height == post_trees[p as int]->Some_0.state.height + 1,
                }
            } by {
                lemma_count_children_push(pre_trees, post_trees.last(), j as u64);
                if j == pre_trees.len() {
                    assert forall|t: int|
                        0 <= t < post_trees.len() ==> !is_child(
                            #[trigger] post_trees[t],
                            j as u64,
                        ) by {
                        if 0 <= t < pre_trees.len() && pre_trees[t] is Some {
                            assert(pre_trees[t] is Some);
                        }
                    }
                    lemma_count_children_none(post_trees, j as u64);
                } else {
                    assert(pre_trees[j] is Some);
                }
            }
            assert forall|x: u64| #[trigger] self.reserved_of(x) == forest_bonds(
                post_trees,
                x,
            ) by {
                lemma_forest_bonds_push(pre_trees, post_trees.last(), x);
                assert(old(self).reserved_of(x) == forest_bonds(pre_trees, x));
            }
        }
        Ok(())
    }
}


/// Emptying slots of a height-coherent registry keeps it height-coherent.
pub proof fn lemma_heights_ok_sub(
    ts1: Seq<Option<TreeNode>>,
    ts2: Seq<Option<TreeNode>>,
    max_depth: u32,
)
    requires
        heights_ok(ts1, max_depth),
        ts1.len() == ts2.len(),
        forall|x: int| 0 <= x < ts2.len() && ts2[x] is Some ==> ts2[x] == ts1[x],
    ensures
        heights_ok(ts2, max_depth),
{
    assert forall|x: int| 0 <= x < ts2.len() && ts2[x] is Some implies {
        let n = ts2[x]->Some_0;
        &&& n.state.height <= max_depth
        &&& match n.state.parent {
            None => true,
            Some(p) => 0 <= p < ts2.len() && ts2[p as int] is Some ==> n.state.height == ts2[
                p as int
            ]->Some_0.state.height + 1,
        }
    } by {
        assert(ts2[x] == ts1[x]);
        assert(ts1[x] is Some);
        let n = ts2[x]->Some_0;
        match n.state.parent {
            None => {},
            Some(p) => {
                if 0 <= p < ts2.len() && ts2[p as int] is Some {
                    assert(ts2[p as int] == ts1[p as int]);
                }
            },
        }
    }
}

impl Module {
    /// Destroy the tree in slot `t` and, recursively, every tree below it:
    /// each destroyed tree's members get their bonds released back to their
    /// free balances, and the destroyed slots stay empty. Trees outside the
    /// subtree, the event log and the configuration are untouched. `h` is
    /// the destroyed tree's height; the recursion descends one level per
    /// call, so the depth bound caps its depth.
    fn teardown(&mut self, t: usize, h: u32)
        requires
            t < old(self).trees@.len(),
            old(self).trees@[t as int] is Some,
            old(self).trees@[t as int]->Some_0.state.height == h,
            heights_ok(old(self).trees@, old(self).max_depth),
            old(self).balances.wf(),
            forall|a: u64| #[trigger] old(self).reserved_of(a) == forest_bonds(
                old(self).trees@,
                a,
            ),
        ensures
            final(self).same_config(*old(self)),
            final(self).events == old(self).events,
            final(self).trees@.len() == old(self).trees@.len(),
            final(self).trees@[t as int] is None,
            forall|x: int|
                0 <= x < old(self).trees@.len() && final(self).trees@[x] is Some ==> final(self).trees@[x] == old(self).trees@[x],
            forall|x: int|
                0 <= x < old(self).trees@.len() && old(self).trees@[x] is None ==> final(self).trees@[x] is None,
            forall|x: int|
                0 <= x < old(self).trees@.len() && old(self).trees@[x] is Some && final(self).trees@[x] is None && x != t ==> (parent_of(old(self).trees@[x]) matches Some(p)
                    && 0 <= p < old(self).trees@.len() && final(self).trees@[p as int] is None),
            forall|x: int, p: int|
                #![trigger final(self).trees@[x], final(self).trees@[p]]
                0 <= x < old(self).trees@.len() && 0 <= p < old(self).trees@.len() && final(self).trees@[x] is Some && parent_of(final(self).trees@[x]) == Some(p as u64) && old(self).trees@[p] is Some ==> final(self).trees@[p] is Some,
            forall|x: int|
                0 <= x < old(self).trees@.len() && old(self).trees@[x] is Some && final(self).trees@[x] is None ==> old(self).trees@[x]->Some_0.state.height >= h,
            heights_ok(final(self).trees@, old(self).max_depth),
            final(self).balances.wf(),
            forall|a: u64| #[trigger]
                final(self).free_of(a) + final(self).reserved_of(a) == old(self).free_of(a) + old(self).reserved_of(a),
            forall|a: u64| #[trigger] final(self).reserved_of(a) == forest_bonds(
                final(self).trees@,
                a,
            ),
        decreases old(self).max_depth - h,
    {
        let ghost orig = *old(self);
        let ghost entry_trees = old(self).trees@;
        proof {
            assert(entry_trees[t as int] is Some);
        }
        let node = self.take_node(t);
        let ghost after_take = self.trees@;
        proof {
            assert(node.members@.subrange(0, node.members@.len() as int) =~= node.members@);
            assert forall|a: u64| #[trigger] self.reserved_of(a) == forest_bonds(after_take, a)
                + mem_bonds(node.members@, a) by {
                lemma_forest_bonds_update(entry_trees, t as int, None, a);
                assert(orig.reserved_of(a) == forest_bonds(entry_trees, a));
            }
        }
        let mut k: usize = 0;
        while k < node.members.len()
            invariant
                k <= node.members@.len(),
                self.trees@ == after_take,
                self.events == orig.events,
                self.same_config(orig),
                self.balances.wf(),
                forall|a: u64| #[trigger]
                    self.free_of(a) + self.reserved_of(a) == orig.free_of(a) + orig.reserved_of(
                        a,
                    ),
                forall|a: u64| #[trigger]
                    self.reserved_of(a) == forest_bonds(after_take, a) + mem_bonds(
                        node.members@.subrange(k as int, node.members@.len() as int),
                        a,
                    ),
            decreases node.members@.len() - k,
        {
            let e = node.members[k];
            let ghost rest = node.members@.subrange(k as int, node.members@.len() as int);
            let ghost bb = self.balances;
            proof {
                assert(rest[0] == e);
                crate::members::lemma_mem_bonds_first(rest, e.account);
                crate::members::lemma_mem_bonds_nonneg(
                    rest.subrange(1, rest.len() as int),
                    e.account,
                );
                lemma_forest_bonds_nonneg(after_take, e.account);
                assert forall|a: u64| #[trigger]
                    bb.reserved_of(a) == forest_bonds(after_take, a) + mem_bonds(rest, a) by {
                    assert(self.reserved_of(a) == forest_bonds(after_take, a) + mem_bonds(
                        node.members@.subrange(k as int, node.members@.len() as int),
                        a,
                    ));
                }
                assert forall|a: u64| #[trigger]
                    bb.free_of(a) + bb.reserved_of(a) == orig.free_of(a) + orig.reserved_of(
                        a,
                    ) by {
                    assert(self.free_of(a) + self.reserved_of(a) == orig.free_of(a)
                        + orig.reserved_of(a));
                }
                assert(bb.reserved_of(e.account) >= e.bonded);
            }
            let released = self.balances.unreserve(e.account, e.bonded);
            proof {
                assert(released == e.bonded);
                let rest1 = node.members@.subrange(k as int + 1, node.members@.len() as int);
                assert(rest1 =~= rest.subrange(1, rest.len() as int));
                assert forall|a: u64| #[trigger]
                    self.reserved_of(a) == forest_bonds(after_take, a) + mem_bonds(
                        rest1,
                        a,
                    ) by {
                    crate::members::lemma_mem_bonds_first(rest, a);
                    assert(bb.reserved_of(a) == forest_bonds(after_take, a) + mem_bonds(rest, a));
                    if a != e.account {
                        assert(self.balances.reserved_of(a) == bb.reserved_of(a));
                        assert(self.balances.free_of(a) == bb.free_of(a));
                    }
                }
                assert forall|a: u64| #[trigger]
                    self.free_of(a) + self.reserved_of(a) == orig.free_of(a) + orig.reserved_of(
                        a,
                    ) by {
                    if a != e.account {
                        assert(self.balances.reserved_of(a) == bb.reserved_of(a));
                        assert(self.balances.free_of(a) == bb.free_of(a));
                    }
                    assert(bb.free_of(a) + bb.reserved_of(a) == orig.free_of(a)
                        + orig.reserved_of(a));
                }
            }
            k = k + 1;
        }
        proof {
            assert(node.members@.subrange(
                node.members@.len() as int,
                node.members@.len() as int,
            ) =~= Seq::<MemberEntry>::empty());
            assert forall|a: u64| #[trigger] self.reserved_of(a) == forest_bonds(
                self.trees@,
                a,
            ) by {
                assert(self.reserved_of(a) == forest_bonds(after_take, a) + mem_bonds(
                    node.members@.subrange(node.members@.len() as int, node.members@.len() as int),
                    a,
                ));
            }
            lemma_heights_ok_sub(entry_trees, after_take, orig.max_depth);
            assert forall|x: int|
                0 <= x < entry_trees.len() && after_take[x] is Some && parent_of(after_take[x])
                    == Some(t as u64) implies x >= 0 && after_take[x]->Some_0.state.height == h
                + 1 by {
                assert(after_take[x] == entry_trees[x]);
                assert(entry_trees[x] is Some);
            }
        }
        let len = self.trees.len();
        let mut j: usize = 0;
        while j < len
            invariant
                j <= len,
                orig == *old(self),
                len == entry_trees.len(),
                t < entry_trees.len(),
                entry_trees[t as int] is Some,
                heights_ok(entry_trees, orig.max_depth),
                self.trees@.len() == entry_trees.len(),
                self.events == orig.events,
                self.same_config(orig),
                h <= orig.max_depth,
                self.trees@[t as int] is None,
                forall|x: int|
                    0 <= x < entry_trees.len() && self.trees@[x] is Some ==> self.trees@[x]
                        == entry_trees[x],
                forall|x: int|
                    0 <= x < entry_trees.len() && entry_trees[x] is None ==> self.trees@[x]
                        is None,
                forall|x: int|
                    0 <= x < entry_trees.len() && entry_trees[x] is Some && self.trees@[x] is None
                        && x != t ==> (parent_of(entry_trees[x]) matches Some(p) && 0 <= p
                        < entry_trees.len() && self.trees@[p as int] is None),
                forall|x: int, p: int|
                    #![trigger self.trees@[x], self.trees@[p]]
                    0 <= x < entry_trees.len() && 0 <= p < entry_trees.len() && self.trees@[x]
                        is Some && parent_of(self.trees@[x]) == Some(p as u64)
                        && entry_trees[p] is Some && self.trees@[p] is None ==> p == t && x >= j,
                forall|x: int|
                    0 <= x < entry_trees.len() && self.trees@[x] is Some && parent_of(
                        self.trees@[x],
                    ) == Some(t as u64) ==> x >= j && self.trees@[x]->Some_0.state.height == h
                        + 1,
                forall|x: int|
                    0 <= x < entry_trees.len() && entry_trees[x] is Some && self.trees@[x] is None
                        ==> entry_trees[x]->Some_0.state.height >= h,
                heights_ok(self.trees@, orig.max_depth),
                self.balances.wf(),
                forall|a: u64| #[trigger]
                    self.free_of(a) + self.reserved_of(a) == orig.free_of(a) + orig.reserved_of(
                        a,
                    ),
                forall|a: u64| #[trigger] self.reserved_of(a) == forest_bonds(self.trees@, a),
            decreases len - j,
        {
            let is_kid = match &self.trees[j] {
                Some(n) => {
                    match n.state.parent {
                        Some(p) => p == t as u64,
                        None => false,
                    }
                },
                None => false,
            };
            if is_kid {
                let ghost mid = *self;
                proof {
                    assert(self.trees@[j as int] is Some);
                    assert(parent_of(self.trees@[j as int]) == Some(t as u64));
                    assert(self.trees@[j as int]->Some_0.state.height == h + 1);
                    assert(h + 1 <= orig.max_depth);
                }
                self.teardown(j, h + 1);
                proof {
                    let cur = self.trees@;
                    let pre = mid.trees@;
                    assert(pre[t as int] is None);
                    assert(cur[t as int] is None);
                    assert forall|x: int|
                        0 <= x < entry_trees.len() && cur[x] is Some implies cur[x]
                            == entry_trees[x] by {
                        assert(pre[x] is Some);
                    }
                    assert forall|x: int|
                        0 <= x < entry_trees.len() && entry_trees[x] is None implies cur[x]
                            is None by {
                        assert(pre[x] is None);
                    }
                    assert forall|x: int|
                        0 <= x < entry_trees.len() && entry_trees[x] is Some && cur[x] is None
                            && x != t implies (parent_of(entry_trees[x]) matches Some(p) && 0 <= p
                            < entry_trees.len() && cur[p as int] is None) by {
                        if pre[x] is None {
                            let p = parent_of(entry_trees[x])->Some_0;
                            assert(pre[p as int] is None);
                            assert(cur[p as int] is None);
                        } else {
                            assert(pre[x] == entry_trees[x]);
                            if x == j {
                                assert(parent_of(entry_trees[x]) == Some(t as u64));
                                assert(cur[t as int] is None);
                            } else {
                                let p = parent_of(pre[x])->Some_0;
                                assert(0 <= p < entry_trees.len() && cur[p as int] is None);
                                assert(parent_of(entry_trees[x]) == parent_of(pre[x]));
                            }
                        }
                    }
                    assert forall|x: int, p: int|
                        #![trigger cur[x], cur[p]]
                        0 <= x < entry_trees.len() && 0 <= p < entry_trees.len() && cur[x] is Some
                            && parent_of(cur[x]) == Some(p as u64) && entry_trees[p] is Some
                            && cur[p] is None implies p == t && x >= j + 1 by {
                        assert(pre[x] is Some && pre[x] == cur[x]);
                        if pre[p] is Some {
                            assert(false);
                        } else {
                            assert(p == t && x >= j);
                            assert(x != j);
                        }
                    }
                    assert forall|x: int|
                        0 <= x < entry_trees.len() && cur[x] is Some && parent_of(cur[x]) == Some(
                            t as u64,
                        ) implies x >= j + 1 && cur[x]->Some_0.state.height == h + 1 by {
                        assert(pre[x] is Some && pre[x] == cur[x]);
                        assert(x >= j);
                        assert(x != j);
                    }
                    assert forall|x: int|
                        0 <= x < entry_trees.len() && entry_trees[x] is Some && cur[x] is None
                            implies entry_trees[x]->Some_0.state.height >= h by {
                        if pre[x] is Some {
                            assert(pre[x] == entry_trees[x]);
                            assert(pre[x]->Some_0.state.height >= h + 1);
                        }
                    }
                    lemma_heights_ok_sub(entry_trees, cur, orig.max_depth);
                    assert forall|a: u64| #[trigger]
                        self.free_of(a) + self.reserved_of(a) == orig.free_of(a)
                            + orig.reserved_of(a) by {
                        assert(self.free_of(a) + self.reserved_of(a) == mid.free_of(a)
                            + mid.reserved_of(a));
                        assert(mid.free_of(a) + mid.reserved_of(a) == orig.free_of(a)
                            + orig.reserved_of(a));
                    }
                }
            }
            j = j + 1;
        }
    }
}

/// Counts agree where the child predicate agrees slot by slot.
pub proof fn lemma_count_children_ext(ts1: Seq<Option<TreeNode>>, ts2: Seq<Option<TreeNode>>, p: u64)
    requires
        ts1.len() == ts2.len(),
        forall|y: int| 0 <= y < ts1.len() ==> is_child(#[trigger] ts1[y], p) == is_child(ts2[y], p),
    ensures
        count_children(ts1, p) == count_children(ts2, p),
    decreases ts1.len(),
{
    if ts1.len() > 0 {
        assert(forall|y: int|
            0 <= y < ts1.len() - 1 ==> ts1.drop_last()[y] == ts1[y] && ts2.drop_last()[y]
                == ts2[y]);
        lemma_count_children_ext(ts1.drop_last(), ts2.drop_last(), p);
    }
}

/// Counts differ only by the one slot where the child predicate differs.
pub proof fn lemma_count_children_pointwise(
    ts1: Seq<Option<TreeNode>>,
    ts2: Seq<Option<TreeNode>>,
    p: u64,
    b: int,
)
    requires
        ts1.len() == ts2.len(),
        0 <= b < ts1.len(),
        forall|y: int|
            0 <= y < ts1.len() && y != b ==> is_child(#[trigger] ts1[y], p) == is_child(ts2[y], p),
    ensures
        count_children(ts2, p) - (if is_child(ts2[b], p) {
            1int
        } else {
            0int
        }) == count_children(ts1, p) - (if is_child(ts1[b], p) {
            1int
        } else {
            0int
        }),
    decreases ts1.len(),
{
    assert(forall|y: int|
        0 <= y < ts1.len() - 1 ==> ts1.drop_last()[y] == ts1[y] && ts2.drop_last()[y] == ts2[y]);
    if b == ts1.len() - 1 {
        lemma_count_children_ext(ts1.drop_last(), ts2.drop_last(), p);
    } else {
        lemma_count_children_pointwise(ts1.drop_last(), ts2.drop_last(), p, b);
    }
}

impl Module {
    /// Remove members of tree `tree` or, with `mems` absent, tear the whole
    /// subtree rooted there down. This is the raw storage mutator behind
    /// `remove_members` and `revoke`: callers check permissions first.
    ///
    /// With a list, every listed account that has an entry and is not the
    /// tree's bonded owner gets its bond released and its entry removed;
    /// the owner is never removable here. Without a list, every membership
    /// bond of the tree and of every tree below it is released, the
    /// destroyed slots are emptied forever, and the parent's child count is
    /// decremented. Forfeiting bonds instead of releasing them has no
    /// defined destination, so `penalty` must be off.
    pub fn remove_mems(&mut self, tree: u64, mems: Option<Vec<u64>>, penalty: bool)
        requires
            old(self).wf(),
            old(self).has_tree(tree),
            !penalty,
        ensures
            final(self).wf(),
            final(self).same_config(*old(self)),
            final(self).events == old(self).events,
            final(self).trees@.len() == old(self).trees@.len(),
            forall|a: u64| #[trigger]
                final(self).free_of(a) + final(self).reserved_of(a) == old(self).free_of(a) + old(self).reserved_of(a),
            forall|a: u64| #[trigger]
                final(self).free_of(a) == old(self).free_of(a) + forest_bonds(old(self).trees@, a)
                    - forest_bonds(final(self).trees@, a),
            mems is Some ==> ({
                let list = mems->Some_0@;
                let pre = old(self).node_of(tree);
                let post = final(self).node_of(tree);
                &&& final(self).has_tree(tree)
                &&& (forall|j: int|
                    0 <= j < old(self).trees@.len() && j != tree ==> final(self).trees@[j] == old(self).trees@[j])
                &&& post.state.id == pre.state.id
                &&& post.state.parent == pre.state.parent
                &&& post.state.bonded == pre.state.bonded
                &&& post.state.height == pre.state.height
                &&& post.state.kids == pre.state.kids
                &&& post.state.size == pre.state.size - count_removable(
                    pre.members@,
                    list,
                    pre.state.bonded,
                )
                &&& (forall|x: u64|
                    #[trigger] mem_has(post.members@, x) == (mem_has(pre.members@, x) && !(
                    listed_in(list, x) && x != pre.state.bonded)))
                &&& (forall|x: u64|
                    listed_in(list, x) && x != pre.state.bonded ==> #[trigger] mem_bonds(
                        post.members@,
                        x,
                    ) == 0)
                &&& (forall|x: u64|
                    !(listed_in(list, x) && x != pre.state.bonded) ==> #[trigger] mem_bonds(
                        post.members@,
                        x,
                    ) == mem_bonds(pre.members@, x))
                &&& (forall|x: u64|
                    !(listed_in(list, x) && x != pre.state.bonded) ==> final(self).free_of(x)
                        == old(self).free_of(x) && final(self).reserved_of(x) == old(self).reserved_of(x))
            }),
            mems is None ==> ({
                &&& final(self).trees@[tree as int] is None
                &&& (match old(self).state_of(tree).parent {
                    Some(p) => final(self).has_tree(p) && final(self).node_of(p).members == old(self).node_of(p).members && final(self).state_of(p) == TreeState {
                        kids: (old(self).state_of(p).kids - 1) as u32,
                        ..old(self).state_of(p)
                    },
                    None => true,
                })
                &&& (forall|j: int|
                    0 <= j < old(self).trees@.len() && final(self).trees@[j] is Some && Some(
                        j as u64,
                    ) != old(self).state_of(tree).parent ==> final(self).trees@[j] == old(self).trees@[j])
                &&& (forall|j: int|
                    0 <= j < old(self).trees@.len() && old(self).trees@[j] is None ==> final(self).trees@[j] is None)
                &&& (forall|j: int|
                    0 <= j < old(self).trees@.len() && old(self).trees@[j] is Some && final(self).trees@[j] is None && j != tree ==> (parent_of(old(self).trees@[j]) matches
                    Some(p) && 0 <= p < old(self).trees@.len() && final(self).trees@[p as int]
                        is None))
            }),
    {
        match mems {
            Some(list) => {
                self.remove_listed(tree, list);
            },
            None => {
                self.teardown_branch(tree);
            },
        }
    }

    /// Tear down the whole branch rooted at `tree`: release every bond in
    /// the subtree, empty its registry slots, and take the destroyed tree
    /// off its parent's child count.
    #[verifier::rlimit(100)]
    fn teardown_branch(&mut self, tree: u64)
        requires
            old(self).wf(),
            old(self).has_tree(tree),
        ensures
            final(self).wf(),
            final(self).same_config(*old(self)),
            final(self).events == old(self).events,
            final(self).trees@.len() == old(self).trees@.len(),
            forall|a: u64| #[trigger]
                final(self).free_of(a) + final(self).reserved_of(a) == old(self).free_of(a) + old(self).reserved_of(a),
            forall|a: u64| #[trigger]
                final(self).free_of(a) == old(self).free_of(a) + forest_bonds(old(self).trees@, a)
                    - forest_bonds(final(self).trees@, a),
            final(self).trees@[tree as int] is None,
            (match old(self).state_of(tree).parent {
                Some(p) => final(self).has_tree(p) && final(self).node_of(p).members == old(self).node_of(p).members && final(self).state_of(p) == TreeState {
                    kids: (old(self).state_of(p).kids - 1) as u32,
                    ..old(self).state_of(p)
                },
                None => true,
            }),
            forall|j: int|
                0 <= j < old(self).trees@.len() && final(self).trees@[j] is Some && Some(j as u64)
                    != old(self).state_of(tree).parent ==> final(self).trees@[j] == old(self).trees@[j],
            forall|j: int|
                0 <= j < old(self).trees@.len() && old(self).trees@[j] is None ==> final(self).trees@[j] is None,
            forall|j: int|
                0 <= j < old(self).trees@.len() && old(self).trees@[j] is Some && final(self).trees@[j] is None && j != tree ==> (parent_of(old(self).trees@[j]) matches Some(
                    p,
                ) && 0 <= p < old(self).trees@.len() && final(self).trees@[p as int] is None),
    {
        let ghost orig = *old(self);
        let st = match self.tree_state(tree) {
            Some(st) => st,
            None => {
                proof {
                    assert(false);
                }
                return ;
            },
        };
        let ghost entry0 = self.trees@;
        self.detach_from_parent(tree);
        let ghost entry = self.trees@;
        proof {
            assert(entry[tree as int] == entry0[tree as int]) by {
                match st.parent {
                    Some(p) => {
                        assert(entry0[p as int] is Some);
                        assert(entry0[p as int]->Some_0.state.height + 1 == st.height);
                        assert(p != tree);
                    },
                    None => {},
                }
            }
        }
        let nn = self.trees.len();
        proof {
            assert(self.trees@.len() == nn);
            assert(entry[tree as int] is Some);
        }
        let idx = tree as usize;
        self.teardown(idx, st.height);
        proof {
            let cur = self.trees@;
            match st.parent {
                Some(p) => {
                    assert(entry0[p as int] is Some);
                    assert(entry[p as int] is Some);
                    assert(entry[p as int]->Some_0.state.height + 1 == st.height);
                    assert(cur[p as int] is Some);
                    assert(cur[p as int] == entry[p as int]);
                },
                None => {},
            }
            lemma_trees_ok_after_branch_removal(
                entry0,
                entry,
                cur,
                tree as int,
                self.max_depth,
                self.max_kids,
            );
            assert forall|a: u64| #[trigger]
                self.free_of(a) == orig.free_of(a) + forest_bonds(entry0, a)
                    - forest_bonds(cur, a) by {
                assert(self.free_of(a) + self.reserved_of(a) == orig.free_of(a)
                    + forest_bonds(entry, a));
                assert(self.reserved_of(a) == forest_bonds(cur, a));
                assert(forest_bonds(entry, a) == forest_bonds(entry0, a)) by {
                    match st.parent {
                        Some(p) => {
                            assert(entry =~= entry0.update(p as int, entry[p as int]));
                            lemma_forest_bonds_update(entry0, p as int, entry[p as int], a);
                        },
                        None => {
                            assert(entry =~= entry0);
                        },
                    }
                }
            }
        }
    }
}


/// After a subtree is torn out of the registry, the survivors are well
/// formed again: `entry0` is the well-formed registry before the destroyed
/// tree's parent lost a kid, `entry` the same registry with that one kid
/// count lowered, and `cur` the registry the teardown left behind.
#[verifier::rlimit(100)]
pub proof fn lemma_trees_ok_after_branch_removal(
    entry0: Seq<Option<TreeNode>>,
    entry: Seq<Option<TreeNode>>,
    cur: Seq<Option<TreeNode>>,
    tree: int,
    max_depth: u32,
    max_kids: u32,
)
    requires
        trees_ok(entry0, max_depth, max_kids),
        entry0.len() == entry.len() && entry.len() == cur.len(),
        0 <= tree < entry.len(),
        entry0[tree] is Some,
        entry[tree] is Some,
        cur[tree] is None,
        forall|x: int|
            0 <= x < entry.len() ==> (#[trigger] entry[x] is Some <==> entry0[x] is Some),
        forall|x: int, q: u64|
            0 <= x < entry.len() && entry[x] is Some ==> #[trigger] is_child(entry[x], q)
                == is_child(entry0[x], q),
        forall|x: int|
            0 <= x < entry.len() && entry[x] is Some && !(parent_of(entry0[tree]) == Some(
                x as u64,
            )) ==> #[trigger] entry[x] == entry0[x],
        (parent_of(entry0[tree]) matches Some(p) ==> 0 <= p < entry.len()
            && entry[p as int] is Some && entry[p as int]->Some_0.members
            == entry0[p as int]->Some_0.members && entry[p as int]->Some_0.state == TreeState {
            kids: (entry0[p as int]->Some_0.state.kids - 1) as u32,
            ..entry0[p as int]->Some_0.state
        } && entry0[p as int]->Some_0.state.kids >= 1),
        forall|x: int| 0 <= x < cur.len() && #[trigger] cur[x] is Some ==> cur[x] == entry[x],
        forall|x: int| 0 <= x < cur.len() && entry[x] is None ==> #[trigger] cur[x] is None,
        forall|x: int|
            0 <= x < cur.len() && entry[x] is Some && #[trigger] cur[x] is None && x != tree ==> (
            parent_of(entry[x]) matches Some(q) && 0 <= q < cur.len() && cur[q as int] is None),
        forall|x: int, q: int|
            #![trigger cur[x], cur[q]]
            0 <= x < cur.len() && 0 <= q < cur.len() && cur[x] is Some && parent_of(cur[x]) == Some(
                q as u64,
            ) && entry[q] is Some ==> cur[q] is Some,
    ensures
        trees_ok(cur, max_depth, max_kids),
{
    assert forall|x: int|
        0 <= x < cur.len() && cur[x] is Some implies {
        let n = cur[x]->Some_0;
        &&& n.state.id == x
        &&& mem_distinct(n.members@)
        &&& n.state.size == n.members@.len()
        &&& n.state.height <= max_depth
        &&& n.state.kids == count_children(cur, x as u64)
        &&& n.state.kids <= max_kids
        &&& match n.state.parent {
            None => n.state.height == 0,
            Some(q) => 0 <= q < cur.len() && cur[q as int] is Some && n.state.height == cur[
                q as int
            ]->Some_0.state.height + 1,
        }
    } by {
        assert(cur[x] == entry[x]);
        assert(entry[x] is Some && entry0[x] is Some);
        let n = cur[x]->Some_0;
        match n.state.parent {
            None => {},
            Some(q) => {
                assert(parent_of(entry0[x]) == Some(q));
                assert(0 <= q < cur.len() && entry0[q as int] is Some);
                assert(entry[q as int] is Some);
                assert(cur[q as int] is Some);
                assert(cur[q as int] == entry[q as int]);
            },
        }
        assert forall|y: int|
            0 <= y < cur.len() && y != tree implies is_child(#[trigger] cur[y], x as u64)
                == is_child(entry[y], x as u64) by {
            if cur[y] is Some {
                assert(cur[y] == entry[y]);
            } else {
                if entry[y] is Some {
                    let q = parent_of(entry[y])->Some_0;
                    assert(cur[q as int] is None);
                    assert(q != x);
                }
            }
        }
        lemma_count_children_pointwise(entry, cur, x as u64, tree);
        assert(!is_child(cur[tree], x as u64));
        if x == parent_of(entry0[tree])->Some_0 && parent_of(entry0[tree]) is Some {
            assert(is_child(entry[tree], x as u64)) by {
                assert(is_child(entry0[tree], x as u64));
            }
            assert(count_children(entry, x as u64) == count_children(entry0, x as u64)) by {
                lemma_count_children_ext(entry0, entry, x as u64);
            }
            assert(entry0[x]->Some_0.state.kids == count_children(entry0, x as u64));
        } else {
            assert(!is_child(entry[tree], x as u64)) by {
                assert(!is_child(entry0[tree], x as u64));
            }
            assert(count_children(entry, x as u64) == count_children(entry0, x as u64)) by {
                lemma_count_children_ext(entry0, entry, x as u64);
            }
            assert(entry[x] == entry0[x]);
        }
    }
}

pub proof fn lemma_count_removable_empty(ms: Seq<MemberEntry>, owner: u64)
    ensures
        count_removable(ms, Seq::<u64>::empty(), owner) == 0,
    decreases ms.len(),
{
    if ms.len() > 0 {
        lemma_count_removable_empty(ms.drop_last(), owner);
    }
}

pub proof fn lemma_count_removable_nonneg(ms: Seq<MemberEntry>, s: Seq<u64>, owner: u64)
    ensures
        0 <= count_removable(ms, s, owner) <= ms.len(),
    decreases ms.len(),
{
    if ms.len() > 0 {
        lemma_count_removable_nonneg(ms.drop_last(), s, owner);
    }
}

/// Extending a removal request by one account adds at most that account's
/// single entry to the count.
pub proof fn lemma_count_removable_push(ms: Seq<MemberEntry>, s: Seq<u64>, m: u64, owner: u64)
    requires
        mem_distinct(ms),
    ensures
        count_removable(ms, s.push(m), owner) == count_removable(ms, s, owner) + (if mem_has(
            ms,
            m,
        ) && !listed_in(s, m) && m != owner {
            1int
        } else {
            0int
        }),
    decreases ms.len(),
{
    if ms.len() > 0 {
        let tail = ms.drop_last();
        assert(forall|y: int| 0 <= y < tail.len() ==> tail[y] == ms[y]);
        lemma_count_removable_push(tail, s, m, owner);
        lemma_listed_in_push(s, m, ms.last().account);
        if mem_has(ms, m) {
            let i = choose|i: int| 0 <= i < ms.len() && ms[i].account == m;
            if i == ms.len() - 1 {
                assert(!mem_has(tail, m));
            } else {
                assert(tail[i].account == m);
                assert(ms.last().account != m);
            }
        } else {
            assert(!mem_has(tail, m)) by {
                if mem_has(tail, m) {
                    let i = choose|i: int| 0 <= i < tail.len() && tail[i].account == m;
                    assert(ms[i].account == m);
                }
            }
            assert(ms.last().account != m);
        }
    }
}

impl Module {
    /// Remove each listed account that has an entry in tree `tree` and is
    /// not the bonded owner: release its bond and delete its entry.
    fn remove_listed(&mut self, tree: u64, list: Vec<u64>)
        requires
            old(self).wf(),
            old(self).has_tree(tree),
        ensures
            final(self).wf(),
            final(self).same_config(*old(self)),
            final(self).events == old(self).events,
            final(self).trees@.len() == old(self).trees@.len(),
            forall|a: u64| #[trigger]
                final(self).free_of(a) + final(self).reserved_of(a) == old(self).free_of(a) + old(self).reserved_of(a),
            forall|a: u64| #[trigger]
                final(self).free_of(a) == old(self).free_of(a) + forest_bonds(old(self).trees@, a)
                    - forest_bonds(final(self).trees@, a),
            ({
                let pre = old(self).node_of(tree);
                let post = final(self).node_of(tree);
                &&& final(self).has_tree(tree)
                &&& (forall|j: int|
                    0 <= j < old(self).trees@.len() && j != tree ==> final(self).trees@[j] == old(self).trees@[j])
                &&& post.state.id == pre.state.id
                &&& post.state.parent == pre.state.parent
                &&& post.state.bonded == pre.state.bonded
                &&& post.state.height == pre.state.height
                &&& post.state.kids == pre.state.kids
                &&& post.state.size == pre.state.size - count_removable(
                    pre.members@,
                    list@,
                    pre.state.bonded,
                )
                &&& (forall|x: u64|
                    #[trigger] mem_has(post.members@, x) == (mem_has(pre.members@, x) && !(
                    listed_in(list@, x) && x != pre.state.bonded)))
                &&& (forall|x: u64|
                    listed_in(list@, x) && x != pre.state.bonded ==> #[trigger] mem_bonds(
                        post.members@,
                        x,
                    ) == 0)
                &&& (forall|x: u64|
                    !(listed_in(list@, x) && x != pre.state.bonded) ==> #[trigger] mem_bonds(
                        post.members@,
                        x,
                    ) == mem_bonds(pre.members@, x))
                &&& (forall|x: u64|
                    !(listed_in(list@, x) && x != pre.state.bonded) ==> final(self).free_of(x)
                        == old(self).free_of(x) && final(self).reserved_of(x) == old(self).reserved_of(x))
            }),
    {
        let ghost orig = *old(self);
        let ghost pre_trees = self.trees@;
        let n0 = self.trees.len();
        proof {
            assert(pre_trees.len() == n0);
            assert(pre_trees[tree as int] is Some);
        }
        let idx = tree as usize;
        let mut node = self.take_node(idx);
        let ghost pre_members = node.members@;
        let ghost pre_state = node.state;
        let ghost after_take = self.trees@;
        proof {
            assert forall|a: u64| #[trigger] self.reserved_of(a) == forest_bonds(after_take, a)
                + mem_bonds(node.members@, a) by {
                lemma_forest_bonds_update(pre_trees, tree as int, None, a);
                assert(orig.reserved_of(a) == forest_bonds(pre_trees, a));
            }
            assert(list@.subrange(0, 0) =~= Seq::<u64>::empty());
            lemma_count_removable_empty(pre_members, pre_state.bonded);
            assert(pre_members.len() == pre_state.size);
        }
        let owner_acct = node.state.bonded;
        let mut k: usize = 0;
        while k < list.len()
            invariant
                k <= list@.len(),
                owner_acct == pre_state.bonded,
                node.state == pre_state,
                self.trees@ == after_take,
                self.events == orig.events,
                self.same_config(orig),
                self.balances.wf(),
                mem_distinct(node.members@),
                mem_distinct(pre_members),
                forall|x: u64| #[trigger]
                    mem_has(node.members@, x) == (mem_has(pre_members, x) && !(listed_in(
                        list@.subrange(0, k as int),
                        x,
                    ) && x != pre_state.bonded)),
                forall|x: u64|
                    listed_in(list@.subrange(0, k as int), x) && x != pre_state.bonded
                        ==> #[trigger] mem_bonds(node.members@, x) == 0,
                forall|x: u64|
                    !(listed_in(list@.subrange(0, k as int), x) && x != pre_state.bonded)
                        ==> #[trigger] mem_bonds(node.members@, x) == mem_bonds(pre_members, x),
                node.members@.len() == pre_members.len() - count_removable(
                    pre_members,
                    list@.subrange(0, k as int),
                    pre_state.bonded,
                ),
                forall|a: u64| #[trigger]
                    self.free_of(a) + self.reserved_of(a) == orig.free_of(a) + orig.reserved_of(
                        a,
                    ),
                forall|a: u64| #[trigger]
                    self.reserved_of(a) == forest_bonds(after_take, a) + mem_bonds(
                        node.members@,
                        a,
                    ),
                forall|x: u64|
                    !(listed_in(list@.subrange(0, k as int), x) && x != pre_state.bonded)
                        ==> #[trigger] self.free_of(x) == orig.free_of(x),
                forall|x: u64|
                    !(listed_in(list@.subrange(0, k as int), x) && x != pre_state.bonded)
                        ==> #[trigger] self.reserved_of(x) == orig.reserved_of(x),
            decreases list@.len() - k,
        {
            let m = list[k];
            let ghost prefix = list@.subrange(0, k as int);
            let ghost cur_members = node.members@;
            let ghost bb = self.balances;
            let ghost prefix1 = list@.subrange(0, (k + 1) as int);
            proof {
                assert(prefix1.drop_last() =~= prefix);
                assert(prefix1.last() == m);
                assert(prefix1 =~= prefix.push(m));
                lemma_count_removable_push(pre_members, prefix, m, pre_state.bonded);
                assert forall|a: u64| #[trigger]
                    bb.reserved_of(a) == forest_bonds(after_take, a) + mem_bonds(
                        cur_members,
                        a,
                    ) by {
                    assert(self.reserved_of(a) == forest_bonds(after_take, a) + mem_bonds(
                        node.members@,
                        a,
                    ));
                }
                assert forall|a: u64| #[trigger]
                    bb.free_of(a) + bb.reserved_of(a) == orig.free_of(a) + orig.reserved_of(
                        a,
                    ) by {
                    assert(self.free_of(a) + self.reserved_of(a) == orig.free_of(a)
                        + orig.reserved_of(a));
                }
                assert forall|x: u64|
                    !(listed_in(prefix, x) && x != pre_state.bonded) implies #[trigger] bb.free_of(
                    x,
                ) == orig.free_of(x) by {
                    assert(self.free_of(x) == orig.free_of(x));
                }
                assert forall|x: u64|
                    !(listed_in(prefix, x) && x != pre_state.bonded) implies #[trigger]
                    bb.reserved_of(x) == orig.reserved_of(x) by {
                    assert(self.reserved_of(x) == orig.reserved_of(x));
                }
            }
            if m != owner_acct {
                match mem_remove(&mut node.members, m) {
                    Some(b) => {
                        proof {
                            lemma_forest_bonds_nonneg(after_take, m);
                            crate::members::lemma_mem_bonds_nonneg(node.members@, m);
                            assert(bb.reserved_of(m) == forest_bonds(after_take, m) + mem_bonds(
                                cur_members,
                                m,
                            ));
                            assert(b <= bb.reserved_of(m));
                        }
                        let released = self.balances.unreserve(m, b);
                        proof {
                            assert(released == b);
                        }
                    },
                    None => {},
                }
            }
            proof {
                assert forall|x: u64| #[trigger]
                    mem_has(node.members@, x) == (mem_has(pre_members, x) && !(listed_in(
                        prefix1,
                        x,
                    ) && x != pre_state.bonded)) by {
                    lemma_listed_in_push(prefix, m, x);
                    assert(mem_has(cur_members, x) == (mem_has(pre_members, x) && !(listed_in(
                        prefix,
                        x,
                    ) && x != pre_state.bonded)));
                }
                assert forall|x: u64|
                    listed_in(prefix1, x) && x != pre_state.bonded implies #[trigger] mem_bonds(
                    node.members@,
                    x,
                ) == 0 by {
                    lemma_listed_in_push(prefix, m, x);
                }
                assert forall|x: u64|
                    !(listed_in(prefix1, x) && x != pre_state.bonded) implies #[trigger] mem_bonds(
                    node.members@,
                    x,
                ) == mem_bonds(pre_members, x) by {
                    lemma_listed_in_push(prefix, m, x);
                }
                assert forall|a: u64| #[trigger]
                    self.reserved_of(a) == forest_bonds(after_take, a) + mem_bonds(
                        node.members@,
                        a,
                    ) by {
                    assert(bb.reserved_of(a) == forest_bonds(after_take, a) + mem_bonds(
                        cur_members,
                        a,
                    ));
                    if a != m {
                        assert(mem_bonds(node.members@, a) == mem_bonds(cur_members, a));
                    }
                }
                assert forall|a: u64| #[trigger]
                    self.free_of(a) + self.reserved_of(a) == orig.free_of(a) + orig.reserved_of(
                        a,
                    ) by {
                    assert(bb.free_of(a) + bb.reserved_of(a) == orig.free_of(a)
                        + orig.reserved_of(a));
                }
                assert forall|x: u64|
                    !(listed_in(prefix1, x) && x != pre_state.bonded) implies #[trigger]
                    self.free_of(x) == orig.free_of(x) by {
                    lemma_listed_in_push(prefix, m, x);
                    assert(bb.free_of(x) == orig.free_of(x));
                    if x != m {
                        assert(self.balances.free_of(x) == bb.free_of(x));
                    }
                }
                assert forall|x: u64|
                    !(listed_in(prefix1, x) && x != pre_state.bonded) implies #[trigger]
                    self.reserved_of(x) == orig.reserved_of(x) by {
                    lemma_listed_in_push(prefix, m, x);
                    assert(bb.reserved_of(x) == orig.reserved_of(x));
                    if x != m {
                        assert(self.balances.reserved_of(x) == bb.reserved_of(x));
                    }
                }
            }
            k = k + 1;
        }
        let ghost bal_end = self.balances;
        let ghost final_members = node.members@;
        proof {
            assert(list@.subrange(0, list@.len() as int) =~= list@);
            lemma_count_removable_nonneg(pre_members, list@, pre_state.bonded);
            assert(node.members@.len() <= pre_members.len());
            assert forall|x: u64| #[trigger]
                bal_end.reserved_of(x) == forest_bonds(after_take, x) + mem_bonds(
                    final_members,
                    x,
                ) by {
                assert(self.reserved_of(x) == forest_bonds(after_take, x) + mem_bonds(
                    node.members@,
                    x,
                ));
            }
            assert forall|a: u64| #[trigger]
                bal_end.free_of(a) + bal_end.reserved_of(a) == orig.free_of(a) + orig.reserved_of(
                    a,
                ) by {
                assert(self.free_of(a) + self.reserved_of(a) == orig.free_of(a)
                    + orig.reserved_of(a));
            }
            assert forall|x: u64|
                !(listed_in(list@, x) && x != pre_state.bonded) implies #[trigger] bal_end.free_of(
                x,
            ) == orig.free_of(x) by {
                assert(self.free_of(x) == orig.free_of(x));
            }
            assert forall|x: u64|
                !(listed_in(list@, x) && x != pre_state.bonded) implies #[trigger]
                bal_end.reserved_of(x) == orig.reserved_of(x) by {
                assert(self.reserved_of(x) == orig.reserved_of(x));
            }
        }
        node.state.size = node.members.len() as u32;
        self.put_node(idx, node);
        proof {
            let post_trees = self.trees@;
            assert(post_trees =~= pre_trees.update(tree as int, post_trees[tree as int]));
            lemma_trees_ok_members_update(
                pre_trees,
                post_trees,
                tree as int,
                self.max_depth,
                self.max_kids,
            );
            assert(after_take =~= pre_trees.update(tree as int, None));
            assert forall|x: u64| #[trigger] self.reserved_of(x) == forest_bonds(
                post_trees,
                x,
            ) by {
                lemma_forest_bonds_update(pre_trees, tree as int, None, x);
                lemma_forest_bonds_update(pre_trees, tree as int, post_trees[tree as int], x);
                assert(self.balances.reserved_of(x) == bal_end.reserved_of(x));
                assert(bal_end.reserved_of(x) == forest_bonds(after_take, x) + mem_bonds(
                    final_members,
                    x,
                ));
            }
            assert forall|a: u64| #[trigger]
                self.free_of(a) + self.reserved_of(a) == orig.free_of(a) + orig.reserved_of(
                    a,
                ) by {
                assert(self.balances.free_of(a) == bal_end.free_of(a));
                assert(self.balances.reserved_of(a) == bal_end.reserved_of(a));
                assert(bal_end.free_of(a) + bal_end.reserved_of(a) == orig.free_of(a)
                    + orig.reserved_of(a));
            }
            assert forall|a: u64| #[trigger]
                self.free_of(a) == orig.free_of(a) + forest_bonds(pre_trees, a) - forest_bonds(
                    post_trees,
                    a,
                ) by {
                assert(self.free_of(a) + self.reserved_of(a) == orig.free_of(a)
                    + orig.reserved_of(a));
                assert(orig.reserved_of(a) == forest_bonds(pre_trees, a));
                assert(self.reserved_of(a) == forest_bonds(post_trees, a));
            }
            assert forall|x: u64|
                !(listed_in(list@, x) && x != pre_state.bonded) implies #[trigger] self.free_of(
                x,
            ) == orig.free_of(x) && self.reserved_of(x) == orig.reserved_of(x) by {
                assert(self.balances.free_of(x) == bal_end.free_of(x));
                assert(self.balances.reserved_of(x) == bal_end.reserved_of(x));
                assert(bal_end.free_of(x) == orig.free_of(x));
                assert(bal_end.reserved_of(x) == orig.reserved_of(x));
            }
        }
    }
}

impl Module {
    /// Lower the destroyed tree's parent's child count by one, leaving the
    /// registry height-coherent and the bonds account intact. The kid count
    /// of the parent is then one short of its registered children until the
    /// teardown that follows empties the destroyed slot.
    fn detach_from_parent(&mut self, tree: u64)
        requires
            old(self).wf(),
            old(self).has_tree(tree),
        ensures
            final(self).same_config(*old(self)),
            final(self).events == old(self).events,
            final(self).balances == old(self).balances,
            final(self).trees@.len() == old(self).trees@.len(),
            forall|x: int|
                0 <= x < old(self).trees@.len() ==> (#[trigger] final(self).trees@[x] is Some
                    <==> old(self).trees@[x] is Some),
            forall|x: int, q: u64|
                0 <= x < old(self).trees@.len() && final(self).trees@[x] is Some ==> #[trigger]
                is_child(final(self).trees@[x], q) == is_child(old(self).trees@[x], q),
            forall|x: int|
                0 <= x < old(self).trees@.len() && final(self).trees@[x] is Some && !(parent_of(
                    old(self).trees@[tree as int],
                ) == Some(x as u64)) ==> #[trigger] final(self).trees@[x] == old(self).trees@[x],
            (parent_of(old(self).trees@[tree as int]) matches Some(p) ==> 0 <= p < old(self).trees@.len() && final(self).trees@[p as int] is Some && final(self).trees@[p as int]->Some_0.members == old(self).trees@[p as int]->Some_0.members
                && final(self).trees@[p as int]->Some_0.state == TreeState {
                kids: (old(self).trees@[p as int]->Some_0.state.kids - 1) as u32,
                ..old(self).trees@[p as int]->Some_0.state
            } && old(self).trees@[p as int]->Some_0.state.kids >= 1),
            heights_ok(final(self).trees@, old(self).max_depth),
            final(self).balances.wf(),
            forall|a: u64| #[trigger] final(self).reserved_of(a) == forest_bonds(
                final(self).trees@,
                a,
            ),
    {
        let ghost orig = *old(self);
        let st = match self.tree_state(tree) {
            Some(st) => st,
            None => {
                proof {
                    assert(false);
                }
                return ;
            },
        };
        let ghost entry0 = self.trees@;
        let nn = self.trees.len();
        proof {
            assert(entry0.len() == nn);
        }
        match st.parent {
            Some(p) => {
                proof {
                    assert(entry0[tree as int] is Some);
                    assert(entry0[p as int] is Some);
                    assert(is_child(entry0[tree as int], p));
                    lemma_child_counts(entry0, tree as int, p);
                }
                let pidx = p as usize;
                let mut pnode = self.take_node(pidx);
                pnode.state.kids = pnode.state.kids - 1;
                self.put_node(pidx, pnode);
            },
            None => {},
        }
        let ghost entry = self.trees@;
        proof {
            assert(entry.len() == entry0.len());
            assert forall|x: int|
                0 <= x < entry.len() && entry[x] is Some implies {
                &&& entry[x]->Some_0.state.height <= self.max_depth
                &&& entry[x]->Some_0.state.height == entry0[x]->Some_0.state.height
                &&& parent_of(entry[x]) == parent_of(entry0[x])
                &&& entry0[x] is Some
                &&& entry[x]->Some_0.members == entry0[x]->Some_0.members
            } by {
                assert(entry0[x] is Some);
            }
            assert(heights_ok(entry, self.max_depth)) by {
                assert forall|x: int| 0 <= x < entry.len() && entry[x] is Some implies {
                    let n = entry[x]->Some_0;
                    &&& n.state.height <= self.max_depth
                    &&& match n.state.parent {
                        None => true,
                        Some(q) => 0 <= q < entry.len() && entry[q as int] is Some
                            ==> n.state.height == entry[q as int]->Some_0.state.height + 1,
                    }
                } by {
                    assert(entry0[x] is Some);
                    let n = entry[x]->Some_0;
                    match n.state.parent {
                        None => {},
                        Some(q) => {
                            if 0 <= q < entry.len() && entry[q as int] is Some {
                                assert(entry0[q as int] is Some);
                            }
                        },
                    }
                }
            }
            assert forall|a: u64| #[trigger] self.reserved_of(a) == forest_bonds(
                entry,
                a,
            ) by {
                assert(orig.reserved_of(a) == forest_bonds(entry0, a));
                match st.parent {
                    Some(p) => {
                        assert(entry =~= entry0.update(p as int, entry[p as int]));
                        lemma_forest_bonds_update(entry0, p as int, entry[p as int], a);
                    },
                    None => {
                        assert(entry =~= entry0);
                    },
                }
            }
            assert forall|x: int, q: u64|
                0 <= x < entry.len() && entry[x] is Some implies #[trigger] is_child(entry[x], q)
                    == is_child(entry0[x], q) by {
                assert(entry0[x] is Some);
            }
        }
    }
}

/// Widening the ledger by one account `c` lowers the fresh count by one
/// exactly when `c` was listed and genuinely new.
pub proof fn lemma_count_fresh_insert(
    s: Seq<u64>,
    ms1: Seq<MemberEntry>,
    ms2: Seq<MemberEntry>,
    c: u64,
)
    requires
        forall|x: u64| #[trigger] mem_has(ms2, x) == (mem_has(ms1, x) || x == c),
    ensures
        count_fresh(s, ms2) == count_fresh(s, ms1) - (if listed_in(s, c) && !mem_has(ms1, c) {
            1int
        } else {
            0int
        }),
    decreases s.len(),
{
    if s.len() > 0 {
        let prefix = s.drop_last();
        let y = s.last();
        lemma_count_fresh_insert(prefix, ms1, ms2, c);
        assert(prefix.push(y) =~= s);
        lemma_listed_in_push(prefix, y, c);
        assert(mem_has(ms2, y) == (mem_has(ms1, y) || y == c));
    }
}

/// A prefix of the request list never counts more fresh members than the
/// whole list.
pub proof fn lemma_count_fresh_prefix(s: Seq<u64>, k: int, ms: Seq<MemberEntry>)
    requires
        0 <= k <= s.len(),
    ensures
        count_fresh(s.subrange(0, k), ms) <= count_fresh(s, ms),
    decreases s.len() - k,
{
    if k == s.len() {
        assert(s.subrange(0, k) =~= s);
    } else {
        lemma_count_fresh_prefix(s, k + 1, ms);
        assert(s.subrange(0, k + 1).drop_last() =~= s.subrange(0, k));
        lemma_count_fresh_bounds(s.subrange(0, k), ms);
    }
}

/// Whether `x` occurs in the list.
pub fn list_contains(list: &Vec<u64>, x: u64) -> (r: bool)
    ensures
        r == listed_in(list@, x),
{
    let mut i: usize = 0;
    while i < list.len()
        invariant
            i <= list@.len(),
            forall|j: int| 0 <= j < i ==> list@[j] != x,
        decreases list@.len() - i,
    {
        if list[i] == x {
            return true;
        }
        i = i + 1;
    }
    false
}

/// Whether the account at position `k` already occurs earlier in the list.
fn listed_before(list: &Vec<u64>, k: usize) -> (r: bool)
    requires
        k < list@.len(),
    ensures
        r == listed_in(list@.subrange(0, k as int), list@[k as int]),
{
    let x = list[k];
    let mut i: usize = 0;
    while i < k
        invariant
            i <= k < list@.len(),
            x == list@[k as int],
            forall|j: int| 0 <= j < i ==> list@.subrange(0, k as int)[j] != x,
        decreases k - i,
    {
        if list[i] == x {
            assert(list@.subrange(0, k as int)[i as int] == x);
            return true;
        }
        i = i + 1;
    }
    false
}

/// How many listed accounts are genuinely new to the ledger.
fn fresh_count(list: &Vec<u64>, ms: &Vec<MemberEntry>) -> (c: u64)
    ensures
        c == count_fresh(list@, ms@),
{
    let mut c: u64 = 0;
    let mut k: usize = 0;
    proof {
        assert(list@.subrange(0, 0) =~= Seq::<u64>::empty());
    }
    while k < list.len()
        invariant
            k <= list@.len(),
            c <= k,
            c == count_fresh(list@.subrange(0, k as int), ms@),
        decreases list@.len() - k,
    {
        let is_new = !crate::members::mem_contains(ms, list[k]) && !listed_before(list, k);
        proof {
            let prefix1 = list@.subrange(0, (k + 1) as int);
            assert(prefix1.drop_last() =~= list@.subrange(0, k as int));
            assert(prefix1.last() == list@[k as int]);
        }
        if is_new {
            c = c + 1;
        }
        k = k + 1;
    }
    proof {
        assert(list@.subrange(0, list@.len() as int) =~= list@);
    }
    c
}

impl Module {
    /// Whether `caller` may change tree `tree`'s membership: a member of
    /// the direct parent, or for a root the bonded owner.
    pub open spec fn add_auth(self, tree: u64, caller: u64) -> bool {
        match self.state_of(tree).parent {
            Some(p) => self.is_member(p, caller),
            None => self.state_of(tree).bonded == caller,
        }
    }

    /// Whether the caller's own bond entry, created when missing, adds one
    /// more account to the resulting group.
    pub open spec fn fresh_extra(self, tree: u64, caller: u64, mems: Seq<u64>) -> int {
        if mem_has(self.node_of(tree).members@, caller) || listed_in(mems, caller) {
            0
        } else {
            1
        }
    }

    /// The group size an `add_members` request results in: the old size,
    /// the genuinely new listed accounts, and the caller's own entry when
    /// it has to be created.
    pub open spec fn new_size_of(self, tree: u64, caller: u64, mems: Seq<u64>) -> int {
        self.state_of(tree).size + count_fresh(mems, self.node_of(tree).members@)
            + self.fresh_extra(tree, caller, mems)
    }

    /// What `delegate` answers, decided by the state alone: authorization
    /// first, then the branching and depth bounds, then funding.
    pub open spec fn delegate_outcome(self, caller: u64, parent: u64) -> Result<(), Error> {
        if !self.is_member(parent, caller) {
            Err(Error::NotAuthorized)
        } else if self.state_of(parent).kids >= self.max_kids {
            Err(Error::CannotDelegateAboveMaxKids)
        } else if self.state_of(parent).height >= self.max_depth {
            Err(Error::CannotDelegateBelowMaxDepth)
        } else if self.free_of(caller) < self.exp_amount(
            (self.state_of(parent).height + 1) as u32,
            (self.state_of(parent).kids + 1) as u32,
        ) {
            Err(Error::InsufficientBalance)
        } else {
            Ok(())
        }
    }

    /// What `add_members` answers: existence, authorization, the size
    /// bound, then funding.
    pub open spec fn add_members_outcome(self, caller: u64, tree: u64, mems: Seq<u64>) -> Result<
        (),
        Error,
    > {
        if !self.has_tree(tree) {
            Err(Error::TreeDNE)
        } else if !self.add_auth(tree, caller) {
            Err(Error::NotAuthorized)
        } else if self.new_size_of(tree, caller, mems) > self.max_size {
            Err(Error::CannotAddGroupAboveMaxSize)
        } else if self.free_of(caller) < self.bond * self.new_size_of(tree, caller, mems) {
            Err(Error::InsufficientBalance)
        } else {
            Ok(())
        }
    }

    /// What `remove_members` answers: existence, authorization, and the
    /// refusal of the undefined forfeiture path.
    pub open spec fn remove_members_outcome(self, caller: u64, tree: u64, penalty: bool) -> Result<
        (),
        Error,
    > {
        if !self.has_tree(tree) {
            Err(Error::TreeDNE)
        } else if !self.add_auth(tree, caller) {
            Err(Error::NotAuthorized)
        } else if penalty {
            Err(Error::PenaltyUnsupported)
        } else {
            Ok(())
        }
    }

    /// What `revoke` answers: existence, sole-owner authorization, and the
    /// refusal of the undefined forfeiture path.
    pub open spec fn revoke_outcome(self, caller: u64, tree: u64, penalty: bool) -> Result<
        (),
        Error,
    > {
        if !self.has_tree(tree) {
            Err(Error::TreeDNE)
        } else if self.state_of(tree).bonded != caller {
            Err(Error::NotAuthorized)
        } else if penalty {
            Err(Error::PenaltyUnsupported)
        } else {
            Ok(())
        }
    }

    /// Revoke the branch rooted at `branch`: only its bonded owner may, the
    /// whole subtree is destroyed, every bond in it returns to its
    /// account's free balance, and `RevokeDelegation` is emitted. On any
    /// failure nothing changes.
    pub fn revoke(&mut self, caller: u64, branch: u64, penalty: bool) -> (r: Result<(), Error>)
        requires
            old(self).wf(),
        ensures
            final(self).wf(),
            final(self).same_config(*old(self)),
            r == old(self).revoke_outcome(caller, branch, penalty),
            r is Err ==> *final(self) == *old(self),
            r is Ok ==> ({
                &&& final(self).events@ == old(self).events@.push(
                    Event::RevokeDelegation(branch),
                )
                &&& final(self).trees@.len() == old(self).trees@.len()
                &&& final(self).trees@[branch as int] is None
                &&& (match old(self).state_of(branch).parent {
                    Some(p) => final(self).has_tree(p) && final(self).node_of(p).members == old(self).node_of(p).members && final(self).state_of(p) == TreeState {
                        kids: (old(self).state_of(p).kids - 1) as u32,
                        ..old(self).state_of(p)
                    },
                    None => true,
                })
                &&& (forall|j: int|
                    0 <= j < old(self).trees@.len() && final(self).trees@[j] is Some && Some(
                        j as u64,
                    ) != old(self).state_of(branch).parent ==> final(self).trees@[j] == old(self).trees@[j])
                &&& (forall|j: int|
                    0 <= j < old(self).trees@.len() && old(self).trees@[j] is None ==> final(self).trees@[j] is None)
                &&& (forall|j: int|
                    0 <= j < old(self).trees@.len() && old(self).trees@[j] is Some && final(self).trees@[j] is None && j != branch ==> (parent_of(old(self).trees@[j]) matches
                    Some(p) && 0 <= p < old(self).trees@.len() && final(self).trees@[p as int]
                        is None))
                &&& (forall|a: u64| #[trigger]
                    final(self).free_of(a) == old(self).free_of(a) + forest_bonds(
                        old(self).trees@,
                        a,
                    ) - forest_bonds(final(self).trees@, a))
                &&& (forall|a: u64| #[trigger]
                    final(self).free_of(a) + final(self).reserved_of(a) == old(self).free_of(a)
                        + old(self).reserved_of(a))
            }),
    {
        let st = match self.tree_state(branch) {
            Some(st) => st,
            None => {
                return Err(Error::TreeDNE);
            },
        };
        if st.bonded != caller {
            return Err(Error::NotAuthorized);
        }
        if penalty {
            return Err(Error::PenaltyUnsupported);
        }
        self.remove_mems(branch, None, false);
        let ghost mid = *self;
        self.emit(Event::RevokeDelegation(branch));
        proof {
            assert forall|a: u64| #[trigger]
                self.free_of(a) == old(self).free_of(a) + forest_bonds(old(self).trees@, a)
                    - forest_bonds(self.trees@, a) by {
                assert(self.free_of(a) == mid.free_of(a));
                assert(mid.free_of(a) == old(self).free_of(a) + forest_bonds(old(self).trees@, a)
                    - forest_bonds(mid.trees@, a));
            }
            assert forall|a: u64| #[trigger]
                self.free_of(a) + self.reserved_of(a) == old(self).free_of(a) + old(self).reserved_of(a) by {
                assert(self.free_of(a) == mid.free_of(a));
                assert(self.reserved_of(a) == mid.reserved_of(a));
                assert(mid.free_of(a) + mid.reserved_of(a) == old(self).free_of(a) + old(self).reserved_of(a));
            }
        }
        Ok(())
    }

    /// Remove the listed accounts from tree `tree_id`'s membership: each
    /// listed member other than the bonded owner gets its bond back and its
    /// entry deleted, and `RemovedMembers` is emitted. The bonded owner is
    /// never removable this way. On any failure nothing changes.
    pub fn remove_members(
        &mut self,
        caller: u64,
        tree_id: u64,
        members: Vec<u64>,
        penalty: bool,
    ) -> (r: Result<(), Error>)
        requires
            old(self).wf(),
        ensures
            final(self).wf(),
            final(self).same_config(*old(self)),
            r == old(self).remove_members_outcome(caller, tree_id, penalty),
            r is Err ==> *final(self) == *old(self),
            r is Ok ==> ({
                let pre = old(self).node_of(tree_id);
                let post = final(self).node_of(tree_id);
                &&& final(self).events@ == old(self).events@.push(
                    Event::RemovedMembers(caller, tree_id),
                )
                &&& final(self).trees@.len() == old(self).trees@.len()
                &&& final(self).has_tree(tree_id)
                &&& (forall|j: int|
                    0 <= j < old(self).trees@.len() && j != tree_id ==> final(self).trees@[j]
                        == old(self).trees@[j])
                &&& post.state == TreeState {
                    size: (pre.state.size - count_removable(
                        pre.members@,
                        members@,
                        pre.state.bonded,
                    )) as u32,
                    ..pre.state
                }
                &&& (forall|x: u64|
                    #[trigger] mem_has(post.members@, x) == (mem_has(pre.members@, x) && !(
                    listed_in(members@, x) && x != pre.state.bonded)))
                &&& (forall|x: u64|
                    listed_in(members@, x) && x != pre.state.bonded ==> #[trigger] mem_bonds(
                        post.members@,
                        x,
                    ) == 0)
                &&& (forall|x: u64|
                    !(listed_in(members@, x) && x != pre.state.bonded) ==> #[trigger] mem_bonds(
                        post.members@,
                        x,
                    ) == mem_bonds(pre.members@, x))
                &&& (forall|x: u64|
                    !(listed_in(members@, x) && x != pre.state.bonded) ==> final(self).free_of(x)
                        == old(self).free_of(x) && final(self).reserved_of(x) == old(self).reserved_of(x))
                &&& (forall|x: u64|
                    listed_in(members@, x) && x != pre.state.bonded ==> final(self).free_of(x)
                        == old(self).free_of(x) + mem_bonds(pre.members@, x) && final(self).reserved_of(x) == old(self).reserved_of(x) - mem_bonds(pre.members@, x))
            }),
    {
        let st = match self.tree_state(tree_id) {
            Some(st) => st,
            None => {
                return Err(Error::TreeDNE);
            },
        };
        let auth = match st.parent {
            Some(p) => self.member_of(p, caller),
            None => st.bonded == caller,
        };
        if !auth {
            return Err(Error::NotAuthorized);
        }
        if penalty {
            return Err(Error::PenaltyUnsupported);
        }
        let ghost pre_node = self.node_of(tree_id);
        let ghost members_view = members@;
        self.remove_mems(tree_id, Some(members), false);
        let ghost mid = *self;
        proof {
            assert(mid.trees@ =~= old(self).trees@.update(
                tree_id as int,
                mid.trees@[tree_id as int],
            ));
            assert forall|x: u64|
                listed_in(members_view, x) && x != pre_node.state.bonded implies mid.free_of(x)
                == old(self).free_of(x) + mem_bonds(pre_node.members@, x) && mid.reserved_of(x)
                == old(self).reserved_of(x) - mem_bonds(pre_node.members@, x) by {
                assert(mid.free_of(x) == old(self).free_of(x) + forest_bonds(old(self).trees@, x)
                    - forest_bonds(mid.trees@, x));
                lemma_forest_bonds_update(
                    old(self).trees@,
                    tree_id as int,
                    mid.trees@[tree_id as int],
                    x,
                );
                assert(mem_bonds(mid.node_of(tree_id).members@, x) == 0);
                assert(mid.free_of(x) + mid.reserved_of(x) == old(self).free_of(x) + old(self).reserved_of(x));
            }
        }
        self.emit(Event::RemovedMembers(caller, tree_id));
        proof {
            assert forall|x: u64|
                listed_in(members_view, x) && x != pre_node.state.bonded implies self.free_of(x)
                == old(self).free_of(x) + mem_bonds(pre_node.members@, x) && self.reserved_of(x)
                == old(self).reserved_of(x) - mem_bonds(pre_node.members@, x) by {
                assert(self.free_of(x) == mid.free_of(x));
                assert(self.reserved_of(x) == mid.reserved_of(x));
            }
            assert forall|x: u64|
                !(listed_in(members_view, x) && x != pre_node.state.bonded) implies self.free_of(
                x,
            ) == old(self).free_of(x) && self.reserved_of(x) == old(self).reserved_of(x) by {
                assert(self.free_of(x) == mid.free_of(x));
                assert(self.reserved_of(x) == mid.reserved_of(x));
            }
        }
        Ok(())
    }
}

impl Module {
    /// Append one event to the log; nothing else moves.
    fn emit(&mut self, ev: Event)
        ensures
            final(self).events@ == old(self).events@.push(ev),
            final(self).trees == old(self).trees,
            final(self).balances == old(self).balances,
            final(self).same_config(*old(self)),
            old(self).wf() ==> final(self).wf(),
            forall|a: u64| #[trigger] final(self).free_of(a) == old(self).free_of(a),
            forall|a: u64| #[trigger] final(self).reserved_of(a) == old(self).reserved_of(a),
    {
        self.events.push(ev);
        proof {
            if old(self).wf() {
                assert forall|a: u64| #[trigger] self.reserved_of(a) == forest_bonds(
                    self.trees@,
                    a,
                ) by {
                    assert(old(self).reserved_of(a) == forest_bonds(old(self).trees@, a));
                }
            }
        }
    }
}

impl Module {
    /// Delegate a new subgroup under `parent`: the caller must be one of
    /// the parent's members, the parent must stay within the branching
    /// bound and the child within the depth bound, and the caller reserves
    /// the exponential bond, recorded against its entry in the parent. The
    /// child starts with the listed accounts as zero-bond members and
    /// `DelegateBranch` is emitted; delegation checks the depth and
    /// branching bounds, not the group size, so the child is as large as
    /// the list is distinct. On any failure nothing changes.
    #[verifier::rlimit(100)]
    pub fn delegate(&mut self, caller: u64, parent: u64, members: Vec<u64>) -> (r: Result<
        (),
        Error,
    >)
        requires
            old(self).wf(),
            members@.len() <= u32::MAX,
        ensures
            final(self).wf(),
            final(self).same_config(*old(self)),
            r == old(self).delegate_outcome(caller, parent),
            r is Err ==> *final(self) == *old(self),
            r is Ok ==> ({
                let id = old(self).trees@.len() as u64;
                let pst = old(self).state_of(parent);
                let amt = old(self).exp_amount((pst.height + 1) as u32, (pst.kids + 1) as u32);
                &&& final(self).trees@.len() == old(self).trees@.len() + 1
                &&& (forall|j: int|
                    0 <= j < old(self).trees@.len() && j != parent ==> final(self).trees@[j]
                        == old(self).trees@[j])
                &&& final(self).has_tree(parent)
                &&& final(self).state_of(parent) == TreeState { kids: (pst.kids + 1) as u32, ..pst }
                &&& (forall|x: u64|
                    #[trigger] mem_has(final(self).node_of(parent).members@, x) == mem_has(
                        old(self).node_of(parent).members@,
                        x,
                    ))
                &&& mem_bonds(final(self).node_of(parent).members@, caller) == mem_bonds(
                    old(self).node_of(parent).members@,
                    caller,
                ) + amt
                &&& (forall|x: u64|
                    x != caller ==> #[trigger] mem_bonds(final(self).node_of(parent).members@, x)
                        == mem_bonds(old(self).node_of(parent).members@, x))
                &&& final(self).has_tree(id)
                &&& final(self).state_of(id) == (TreeState {
                    id,
                    parent: Some(parent),
                    bonded: caller,
                    height: (pst.height + 1) as u32,
                    kids: 0,
                    size: count_fresh(members@, Seq::<MemberEntry>::empty()) as u32,
                })
                &&& (forall|x: u64|
                    #[trigger] mem_has(final(self).node_of(id).members@, x) == listed_in(
                        members@,
                        x,
                    ))
                &&& (forall|x: u64| #[trigger] mem_bonds(final(self).node_of(id).members@, x) == 0)
                &&& final(self).free_of(caller) == old(self).free_of(caller) - amt
                &&& final(self).reserved_of(caller) == old(self).reserved_of(caller) + amt
                &&& (forall|x: u64|
                    x != caller ==> #[trigger] final(self).free_of(x) == old(self).free_of(x))
                &&& (forall|x: u64|
                    x != caller ==> #[trigger] final(self).reserved_of(x) == old(self).reserved_of(
                        x,
                    ))
                &&& final(self).events@ == old(self).events@.push(
                    Event::DelegateBranch(parent, id, caller, amt as u64),
                )
            }),
    {
        if !self.member_of(parent, caller) {
            return Err(Error::NotAuthorized);
        }
        let st = match self.tree_state(parent) {
            Some(st) => st,
            None => {
                proof {
                    assert(false);
                }
                return Err(Error::TreeDNE);
            },
        };
        if st.kids >= self.max_kids {
            return Err(Error::CannotDelegateAboveMaxKids);
        }
        if st.height >= self.max_depth {
            return Err(Error::CannotDelegateBelowMaxDepth);
        }
        let new_height = st.height + 1;
        let new_kids = st.kids + 1;
        let amt = match self.reserve_exponential_bond(parent, caller, new_height, new_kids) {
            Ok(a) => a,
            Err(e) => {
                return Err(e);
            },
        };
        let ghost s0 = *self;
        let id = self.gen_uid();
        let nn = self.trees.len();
        proof {
            assert(s0.trees@.len() == nn);
            assert(s0.trees@[parent as int] is Some);
        }
        let pidx = parent as usize;
        let mut pnode = self.take_node(pidx);
        pnode.state.kids = new_kids;
        self.put_node(pidx, pnode);
        let child = TreeNode {
            state: TreeState {
                id,
                parent: Some(parent),
                bonded: caller,
                height: new_height,
                kids: 0,
                size: 0,
            },
            members: Vec::new(),
        };
        self.trees.push(Some(child));
        proof {
            let mid = s0.trees@.update(parent as int, self.trees@[parent as int]);
            assert(self.trees@ =~= mid.push(self.trees@[nn as int]));
            let cur = self.trees@;
            assert forall|j: int|
                0 <= j < cur.len() && cur[j] is Some implies {
                let n = cur[j]->Some_0;
                &&& n.state.id == j
                &&& mem_distinct(n.members@)
                &&& n.state.size == n.members@.len()
                &&& n.state.height <= self.max_depth
                &&& n.state.kids == count_children(cur, j as u64)
                &&& n.state.kids <= self.max_kids
                &&& match n.state.parent {
                    None => n.state.height == 0,
                    Some(q) => 0 <= q < cur.len() && cur[q as int] is Some && n.state.height == cur[
                        q as int
                    ]->Some_0.state.height + 1,
                }
            } by {
                lemma_count_children_update(s0.trees@, parent as int, mid[parent as int], j as u64);
                lemma_count_children_push(mid, cur[nn as int], j as u64);
                if j < nn {
                    assert(s0.trees@[j] is Some);
                } else {
                    assert forall|t: int|
                        0 <= t < s0.trees@.len() ==> !is_child(#[trigger] s0.trees@[t], j as u64) by {}
                    assert forall|t: int|
                        0 <= t < mid.len() implies !is_child(#[trigger] mid[t], j as u64) by {
                        if mid[t] is Some {
                            if t == parent {
                                assert(is_child(mid[t], j as u64) == is_child(
                                    s0.trees@[t],
                                    j as u64,
                                ));
                            }
                        }
                    }
                    lemma_count_children_none(mid, j as u64);
                }
            }
            assert forall|a: u64| #[trigger] self.reserved_of(a) == forest_bonds(cur, a) by {
                assert(s0.reserved_of(a) == forest_bonds(s0.trees@, a));
                lemma_forest_bonds_update(s0.trees@, parent as int, mid[parent as int], a);
                lemma_forest_bonds_push(mid, cur[nn as int], a);
            }
        }
        let ghost s1 = *self;
        proof {
            assert(s1.node_of(id).members@ =~= Seq::<MemberEntry>::empty());
            lemma_count_fresh_bounds(members@, s1.node_of(id).members@);
        }
        self.add_mems(id, members);
        let ghost s2 = *self;
        proof {
            assert(s1.node_of(id).members@ =~= Seq::<MemberEntry>::empty());
        }
        self.emit(Event::DelegateBranch(parent, id, caller, amt));
        proof {
            assert forall|x: u64|
                x != caller implies #[trigger] self.free_of(x) == old(self).free_of(x) by {
                assert(self.free_of(x) == s2.free_of(x));
            }
            assert forall|x: u64|
                x != caller implies #[trigger] self.reserved_of(x) == old(self).reserved_of(
                x,
            ) by {
                assert(self.reserved_of(x) == s2.reserved_of(x));
            }
            assert(self.free_of(caller) == s2.free_of(caller));
            assert(self.reserved_of(caller) == s2.reserved_of(caller));
        }
        Ok(())
    }
}


/// A listed account with no entry yet makes the fresh count positive.
pub proof fn lemma_count_fresh_pos(s: Seq<u64>, ms: Seq<MemberEntry>, c: u64)
    requires
        listed_in(s, c),
        !mem_has(ms, c),
    ensures
        count_fresh(s, ms) >= 1,
    decreases s.len(),
{
    lemma_count_fresh_bounds(s.drop_last(), ms);
    if s.last() == c {
        if listed_in(s.drop_last(), c) {
            lemma_count_fresh_pos(s.drop_last(), ms, c);
        }
    } else {
        assert(listed_in(s.drop_last(), c)) by {
            let i = choose|i: int| 0 <= i < s.len() && s[i] == c;
            assert(s.drop_last()[i] == c);
        }
        lemma_count_fresh_pos(s.drop_last(), ms, c);
    }
}

impl Module {
    /// Add the listed accounts to tree `tree_id`: the caller must be a
    /// member of the tree's parent, or for a root its bonded owner. The
    /// caller reserves the linear bond for the resulting group size, which
    /// lands in its own entry of the tree (created and counted when
    /// missing); each genuinely new listed account joins with a zero bond;
    /// `AddedMembers` is emitted. Listing an account that is already a
    /// member changes neither the size nor that account's bonded balance.
    /// On any failure nothing changes.
    #[verifier::rlimit(100)]
    pub fn add_members(&mut self, caller: u64, tree_id: u64, members: Vec<u64>) -> (r: Result<
        (),
        Error,
    >)
        requires
            old(self).wf(),
            members@.len() <= u32::MAX,
        ensures
            final(self).wf(),
            final(self).same_config(*old(self)),
            r == old(self).add_members_outcome(caller, tree_id, members@),
            r is Err ==> *final(self) == *old(self),
            r is Ok ==> ({
                let pre = old(self).node_of(tree_id);
                let post = final(self).node_of(tree_id);
                let nsz = old(self).new_size_of(tree_id, caller, members@);
                let amt = old(self).bond * nsz;
                &&& final(self).trees@.len() == old(self).trees@.len()
                &&& (forall|j: int|
                    0 <= j < old(self).trees@.len() && j != tree_id ==> final(self).trees@[j]
                        == old(self).trees@[j])
                &&& final(self).has_tree(tree_id)
                &&& post.state == TreeState { size: nsz as u32, ..pre.state }
                &&& post.members@.len() == nsz
                &&& (forall|x: u64|
                    #[trigger] mem_has(post.members@, x) == (mem_has(pre.members@, x) || listed_in(
                        members@,
                        x,
                    ) || x == caller))
                &&& mem_bonds(post.members@, caller) == mem_bonds(pre.members@, caller) + amt
                &&& (forall|x: u64|
                    x != caller ==> #[trigger] mem_bonds(post.members@, x) == mem_bonds(
                        pre.members@,
                        x,
                    ))
                &&& final(self).free_of(caller) == old(self).free_of(caller) - amt
                &&& final(self).reserved_of(caller) == old(self).reserved_of(caller) + amt
                &&& (forall|x: u64|
                    x != caller ==> #[trigger] final(self).free_of(x) == old(self).free_of(x))
                &&& (forall|x: u64|
                    x != caller ==> #[trigger] final(self).reserved_of(x) == old(self).reserved_of(
                        x,
                    ))
                &&& final(self).events@ == old(self).events@.push(
                    Event::AddedMembers(caller, tree_id, amt as u64),
                )
            }),
    {
        let st = match self.tree_state(tree_id) {
            Some(st) => st,
            None => {
                return Err(Error::TreeDNE);
            },
        };
        let auth = match st.parent {
            Some(p) => self.member_of(p, caller),
            None => st.bonded == caller,
        };
        if !auth {
            return Err(Error::NotAuthorized);
        }
        let nn = self.trees.len();
        proof {
            assert(self.trees@.len() == nn);
            assert(self.trees@[tree_id as int] is Some);
        }
        let fresh: u64 = match &self.trees[tree_id as usize] {
            Some(n) => {
                proof {
                    lemma_count_fresh_bounds(members@, n.members@);
                }
                fresh_count(&members, &n.members)
            },
            None => 0,
        };
        let caller_is_member = self.member_of(tree_id, caller);
        let extra: u64 = if caller_is_member || list_contains(&members, caller) {
            0
        } else {
            1
        };
        let nsz64: u64 = st.size as u64 + fresh + extra;
        proof {
            assert(nsz64 == old(self).new_size_of(tree_id, caller, members@));
        }
        if nsz64 > self.max_size as u64 {
            return Err(Error::CannotAddGroupAboveMaxSize);
        }
        let new_size = nsz64 as u32;
        let ghost pre = self.node_of(tree_id);
        proof {
            if !mem_has(pre.members@, caller) {
                if listed_in(members@, caller) {
                    lemma_count_fresh_pos(members@, pre.members@, caller);
                }
                assert(st.size < nsz64);
            }
        }
        let amt = match self.reserve_linear_bond(tree_id, caller, new_size) {
            Ok(a) => a,
            Err(e) => {
                return Err(e);
            },
        };
        let ghost s1 = *self;
        proof {
            lemma_count_fresh_insert(
                members@,
                pre.members@,
                s1.node_of(tree_id).members@,
                caller,
            );
            lemma_count_fresh_bounds(members@, pre.members@);
            assert(s1.node_of(tree_id).members@.len() + count_fresh(
                members@,
                s1.node_of(tree_id).members@,
            ) == nsz64);
        }
        self.add_mems(tree_id, members);
        let ghost s2 = *self;
        proof {
            lemma_count_fresh_insert(
                members@,
                pre.members@,
                s1.node_of(tree_id).members@,
                caller,
            );
            assert(s2.node_of(tree_id).members@.len() == nsz64);
            assert forall|x: u64| #[trigger]
                mem_has(s2.node_of(tree_id).members@, x) == (mem_has(pre.members@, x) || listed_in(
                    members@,
                    x,
                ) || x == caller) by {
                assert(mem_has(s2.node_of(tree_id).members@, x) == (mem_has(
                    s1.node_of(tree_id).members@,
                    x,
                ) || listed_in(members@, x)));
                assert(mem_has(s1.node_of(tree_id).members@, x) == (mem_has(pre.members@, x) || x
                    == caller));
            }
        }
        self.emit(Event::AddedMembers(caller, tree_id, amt));
        proof {
            assert forall|x: u64|
                x != caller implies #[trigger] self.free_of(x) == old(self).free_of(x) by {
                assert(self.free_of(x) == s2.free_of(x));
                assert(s2.free_of(x) == s1.free_of(x));
            }
            assert forall|x: u64|
                x != caller implies #[trigger] self.reserved_of(x) == old(self).reserved_of(
                x,
            ) by {
                assert(self.reserved_of(x) == s2.reserved_of(x));
                assert(s2.reserved_of(x) == s1.reserved_of(x));
            }
            assert(self.free_of(caller) == s2.free_of(caller));
            assert(self.reserved_of(caller) == s2.reserved_of(caller));
        }
        Ok(())
    }
}

} // verus!
