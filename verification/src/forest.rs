//! Trees of the delegation forest. The registry is an arena: slot `i` of
//! the registry holds the tree with id `i`, or nothing once that tree has
//! been destroyed. Ids are handed out in order and never reused, so a
//! revoked tree's slot stays empty forever.

use vstd::prelude::*;

use crate::members::{mem_bonds, MemberEntry};

verus! {

/// The registered state of one tree: its position in the forest and the
/// counters the module-wide bounds are checked against.
#[derive(Clone, Copy, Debug, PartialEq, Eq)]
pub struct TreeState {
    /// Unique identifier; equals the tree's slot in the registry.
    pub id: u64,
    /// The parent tree's id; `None` marks a root.
    pub parent: Option<u64>,
    /// The account that created the tree: the sole authority for revoking
    /// it, and never removable from its membership.
    pub bonded: u64,
    /// 0 for a root, the parent's height plus one otherwise.
    pub height: u32,
    /// Number of direct children currently registered under this tree.
    pub kids: u32,
    /// Number of distinct accounts in this tree's membership ledger.
    pub size: u32,
}

/// One registry slot: the tree's state together with its membership ledger.
#[derive(Clone, Debug, PartialEq, Eq)]
pub struct TreeNode {
    pub state: TreeState,
    pub members: Vec<MemberEntry>,
}

/// What one registry slot contributes to `a`'s bonded total.
pub open spec fn node_bonds(t: Option<TreeNode>, a: u64) -> int {
    match t {
        Some(n) => mem_bonds(n.members@, a),
        None => 0,
    }
}

/// The total `a` has bonded across every tree of the registry.
pub open spec fn forest_bonds(ts: Seq<Option<TreeNode>>, a: u64) -> int
    decreases ts.len(),
{
    if ts.len() == 0 {
        0
    } else {
        forest_bonds(ts.drop_last(), a) + node_bonds(ts.last(), a)
    }
}

/// Whether one registry slot holds a child of the tree with id `p`.
pub open spec fn is_child(t: Option<TreeNode>, p: u64) -> bool {
    match t {
        Some(n) => n.state.parent == Some(p),
        None => false,
    }
}

/// How many registered trees have the tree with id `p` as their parent.
pub open spec fn count_children(ts: Seq<Option<TreeNode>>, p: u64) -> int
    decreases ts.len(),
{
    if ts.len() == 0 {
        0
    } else {
        count_children(ts.drop_last(), p) + if is_child(ts.last(), p) {
            1int
        } else {
            0int
        }
    }
}

pub proof fn lemma_forest_bonds_nonneg(ts: Seq<Option<TreeNode>>, a: u64)
    ensures
        forest_bonds(ts, a) >= 0,
    decreases ts.len(),
{
    if ts.len() > 0 {
        lemma_forest_bonds_nonneg(ts.drop_last(), a);
        match ts.last() {
            Some(n) => crate::members::lemma_mem_bonds_nonneg(n.members@, a),
            None => {},
        }
    }
}

pub proof fn lemma_count_children_nonneg(ts: Seq<Option<TreeNode>>, p: u64)
    ensures
        count_children(ts, p) >= 0,
    decreases ts.len(),
{
    if ts.len() > 0 {
        lemma_count_children_nonneg(ts.drop_last(), p);
    }
}

pub proof fn lemma_forest_bonds_push(ts: Seq<Option<TreeNode>>, t: Option<TreeNode>, a: u64)
    ensures
        forest_bonds(ts.push(t), a) == forest_bonds(ts, a) + node_bonds(t, a),
{
    assert(ts.push(t).drop_last() =~= ts);
}

pub proof fn lemma_count_children_push(ts: Seq<Option<TreeNode>>, t: Option<TreeNode>, p: u64)
    ensures
        count_children(ts.push(t), p) == count_children(ts, p) + if is_child(t, p) {
            1int
        } else {
            0int
        },
{
    assert(ts.push(t).drop_last() =~= ts);
}

pub proof fn lemma_forest_bonds_update(
    ts: Seq<Option<TreeNode>>,
    i: int,
    t: Option<TreeNode>,
    a: u64,
)
    requires
        0 <= i < ts.len(),
    ensures
        forest_bonds(ts.update(i, t), a) == forest_bonds(ts, a) - node_bonds(ts[i], a)
            + node_bonds(t, a),
    decreases ts.len(),
{
    if i == ts.len() - 1 {
        assert(ts.update(i, t).drop_last() =~= ts.drop_last());
    } else {
        assert(ts.update(i, t).drop_last() =~= ts.drop_last().update(i, t));
        lemma_forest_bonds_update(ts.drop_last(), i, t, a);
    }
}

pub proof fn lemma_count_children_update(
    ts: Seq<Option<TreeNode>>,
    i: int,
    t: Option<TreeNode>,
    p: u64,
)
    requires
        0 <= i < ts.len(),
    ensures
        count_children(ts.update(i, t), p) == count_children(ts, p) - (if is_child(ts[i], p) {
            1int
        } else {
            0int
        }) + (if is_child(t, p) {
            1int
        } else {
            0int
        }),
    decreases ts.len(),
{
    if i == ts.len() - 1 {
        assert(ts.update(i, t).drop_last() =~= ts.drop_last());
    } else {
        assert(ts.update(i, t).drop_last() =~= ts.drop_last().update(i, t));
        lemma_count_children_update(ts.drop_last(), i, t, p);
    }
}

/// One slot's contribution never exceeds the forest total.
pub proof fn lemma_node_bonds_le_forest(ts: Seq<Option<TreeNode>>, i: int, a: u64)
    requires
        0 <= i < ts.len(),
    ensures
        node_bonds(ts[i], a) <= forest_bonds(ts, a),
    decreases ts.len(),
{
    lemma_forest_bonds_nonneg(ts.drop_last(), a);
    match ts.last() {
        Some(n) => crate::members::lemma_mem_bonds_nonneg(n.members@, a),
        None => {},
    }
    if i < ts.len() - 1 {
        assert(ts.drop_last()[i] == ts[i]);
        lemma_node_bonds_le_forest(ts.drop_last(), i, a);
    }
}

/// A registered child makes its parent's child count positive.
pub proof fn lemma_child_counts(ts: Seq<Option<TreeNode>>, i: int, p: u64)
    requires
        0 <= i < ts.len(),
        is_child(ts[i], p),
    ensures
        count_children(ts, p) >= 1,
    decreases ts.len(),
{
    lemma_count_children_nonneg(ts.drop_last(), p);
    if i < ts.len() - 1 {
        assert(ts.drop_last()[i] == ts[i]);
        lemma_child_counts(ts.drop_last(), i, p);
    }
}

/// The parent link of a registry slot, `None` for an empty slot or a root.
pub open spec fn parent_of(t: Option<TreeNode>) -> Option<u64> {
    match t {
        Some(n) => n.state.parent,
        None => None,
    }
}

} // verus!
