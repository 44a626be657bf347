//! The module-wide guarantees, stated on their own: what holds of every
//! well-formed module state, beyond what each operation's contract says.

use vstd::prelude::*;

use crate::forest::{count_children, forest_bonds};
use crate::members::{mem_has, MemberEntry};
use crate::pallet::{count_fresh, count_removable, Module};

verus! {

/// Every registered tree is a root at height 0, or stands exactly one
/// level below its registered parent; no tree stands deeper than the depth
/// bound.
pub proof fn lemma_heights_invariant(m: Module, id: u64)
    requires
        m.wf(),
        m.has_tree(id),
    ensures
        m.state_of(id).height <= m.max_depth,
        match m.state_of(id).parent {
            None => m.state_of(id).height == 0,
            Some(p) => m.has_tree(p) && m.state_of(id).height == m.state_of(p).height + 1,
        },
{
    assert(m.trees@[id as int] is Some);
}

/// Every registered tree's kid count is exactly its number of registered
/// children and never exceeds the branching bound, and its size is exactly
/// the number of accounts in its membership ledger.
pub proof fn lemma_width_invariant(m: Module, id: u64)
    requires
        m.wf(),
        m.has_tree(id),
    ensures
        m.state_of(id).kids <= m.max_kids,
        m.state_of(id).kids == count_children(m.trees@, id),
        m.state_of(id).size == m.node_of(id).members@.len(),
{
    assert(m.trees@[id as int] is Some);
}

/// Bonds are never created or lost, only moved: in every well-formed state
/// an account's reserved balance is exactly what it has bonded across the
/// forest, so any operation that conserves an account's total hands back
/// exactly the bonds that left the forest.
pub proof fn lemma_bond_conservation(pre: Module, post: Module, a: u64)
    requires
        pre.wf(),
        post.wf(),
        post.free_of(a) + post.reserved_of(a) == pre.free_of(a) + pre.reserved_of(a),
    ensures
        pre.reserved_of(a) == forest_bonds(pre.trees@, a),
        post.reserved_of(a) == forest_bonds(post.trees@, a),
        post.free_of(a) == pre.free_of(a) + forest_bonds(pre.trees@, a) - forest_bonds(
            post.trees@,
            a,
        ),
{
}

/// Listing an account that is already a member adds nothing to the
/// resulting group size.
pub proof fn lemma_relisting_member_is_noop(s: Seq<u64>, ms: Seq<MemberEntry>, a: u64)
    requires
        mem_has(ms, a),
    ensures
        count_fresh(s.push(a), ms) == count_fresh(s, ms),
{
    assert(s.push(a).drop_last() =~= s);
}

/// The caller's own entry never inflates the resulting group size when the
/// caller is already a member of the tree.
pub proof fn lemma_member_caller_adds_nothing(m: Module, tree: u64, caller: u64, mems: Seq<u64>)
    requires
        m.wf(),
        m.has_tree(tree),
        m.is_member(tree, caller),
    ensures
        m.new_size_of(tree, caller, mems) == m.state_of(tree).size + count_fresh(
            mems,
            m.node_of(tree).members@,
        ),
{
}

/// An accepted `add_members` request never grows a group past the size
/// bound.
pub proof fn lemma_accepted_additions_stay_bounded(
    m: Module,
    caller: u64,
    tree: u64,
    mems: Seq<u64>,
)
    requires
        m.add_members_outcome(caller, tree, mems) is Ok,
    ensures
        m.new_size_of(tree, caller, mems) <= m.max_size,
{
}

/// Listing the tree's bonded owner in a removal request removes nothing
/// more: the owner is never counted among the removable entries, whatever
/// the rest of the list holds.
pub proof fn lemma_owner_never_removable(ms: Seq<MemberEntry>, list: Seq<u64>, owner: u64)
    requires
        crate::members::mem_distinct(ms),
    ensures
        count_removable(ms, list.push(owner), owner) == count_removable(ms, list, owner),
{
    crate::pallet::lemma_count_removable_push(ms, list, owner, owner);
}

} // verus!
