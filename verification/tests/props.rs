use delegate::mock::{get_last_event, TestRuntime};
use delegate::types::{Error, Event};

#[test]
fn exponential_bond_formula() {
    // Bond = 2: 2^(1+1) = 4, 2^(1+2) = 8, 2^(1+3) = 16.
    let mut m = TestRuntime::new_test_ext();
    assert_eq!(m.create_root(1), Ok(()));
    assert_eq!(m.reserve_exponential_bond(0, 1, 1, 1), Ok(4));
    assert_eq!(m.reserve_exponential_bond(0, 1, 1, 2), Ok(8));
    assert_eq!(m.reserve_exponential_bond(0, 1, 1, 3), Ok(16));
    // 1000 - 2 - 4 - 8 - 16
    assert_eq!(m.free_balance(1), 970);
    assert_eq!(m.reserved_balance(1), 30);
}

#[test]
fn exponential_bond_overflow_is_reservation_failure() {
    // 2^(32+32) does not fit the balance type: a fatal reservation failure.
    let mut m = TestRuntime::new_test_ext();
    assert_eq!(m.create_root(1), Ok(()));
    assert_eq!(
        m.reserve_exponential_bond(0, 1, 32, 32),
        Err(Error::InsufficientBalance)
    );
    assert_eq!(m.free_balance(1), 998);
}

#[test]
fn linear_bond_formula() {
    // Bond = 2, new_size = 5: the linear bond is 10.
    let mut m = TestRuntime::new_test_ext();
    assert_eq!(m.create_root(1), Ok(()));
    assert_eq!(m.reserve_linear_bond(0, 1, 5), Ok(10));
    assert_eq!(m.free_balance(1), 988);
}

#[test]
fn depth_bound_is_sharp() {
    // Delegating at height MaxDepth - 1 succeeds; at MaxDepth it fails and
    // reserves nothing.
    let mut m = TestRuntime::new_test_ext();
    assert_eq!(m.create_root(1), Ok(()));
    assert_eq!(m.delegate(1, 0, vec![1]), Ok(()));
    assert_eq!(m.delegate(1, 1, vec![1]), Ok(()));
    let st = m.tree_state(2).unwrap();
    assert_eq!(st.height, 2);
    // height 2 = MaxDepth - 1: one more level still fits
    assert_eq!(m.delegate(1, 2, vec![1]), Ok(()));
    let before = m.free_balance(1);
    let reserved_before = m.reserved_balance(1);
    // height 3 = MaxDepth: the next level is refused, nothing is reserved
    assert_eq!(m.delegate(1, 3, vec![1]), Err(Error::CannotDelegateBelowMaxDepth));
    assert_eq!(m.free_balance(1), before);
    assert_eq!(m.reserved_balance(1), reserved_before);
}

#[test]
fn size_bound_is_sharp() {
    // Reaching size = MaxSize succeeds; one more member is refused with no
    // balance change.
    let mut m = TestRuntime::new_test_ext();
    assert_eq!(m.create_root(1), Ok(()));
    assert_eq!(m.add_members(1, 0, vec![2, 3, 4, 5]), Ok(()));
    assert_eq!(m.tree_state(0).unwrap().size, 5);
    let before = m.free_balance(1);
    assert_eq!(m.add_members(1, 0, vec![6]), Err(Error::CannotAddGroupAboveMaxSize));
    assert_eq!(m.free_balance(1), before);
}

#[test]
fn owner_is_never_removable() {
    let mut m = TestRuntime::new_test_ext();
    assert_eq!(m.create_root(1), Ok(()));
    assert_eq!(m.add_members(1, 0, vec![2, 3]), Ok(()));
    // the request lists the bonded owner, who stays; the others leave
    assert_eq!(m.remove_members(1, 0, vec![1, 2, 3], false), Ok(()));
    let st = m.tree_state(0).unwrap();
    assert_eq!(st.size, 1);
    assert!(m.member_balance(0, 1).is_some());
    assert!(m.member_balance(0, 2).is_none());
    assert!(m.member_balance(0, 3).is_none());
    // the owner's bond stays reserved
    assert_eq!(m.reserved_balance(1), 8);
}

#[test]
fn relisting_a_member_changes_nothing_for_it() {
    let mut m = TestRuntime::new_test_ext();
    assert_eq!(m.create_root(1), Ok(()));
    assert_eq!(m.add_members(1, 0, vec![2]), Ok(()));
    assert_eq!(m.tree_state(0).unwrap().size, 2);
    assert_eq!(m.member_balance(0, 2), Some(0));
    let free2 = m.free_balance(2);
    // listing 2 again is a no-op for the size and for 2's balances
    assert_eq!(m.add_members(1, 0, vec![2]), Ok(()));
    assert_eq!(m.tree_state(0).unwrap().size, 2);
    assert_eq!(m.member_balance(0, 2), Some(0));
    assert_eq!(m.free_balance(2), free2);
}

#[test]
fn end_to_end_scenario() {
    // create_root(1) with Bond = 2 costs 2 and emits RegisterIdRoot(0, 1, 2);
    // delegate(1, 0, [2, 3, 4]) lands at (height 1, kids 1), costs 2^2 = 4,
    // and emits DelegateBranch(0, 1, 1, 4).
    let mut m = TestRuntime::new_test_ext();
    assert_eq!(m.create_root(1), Ok(()));
    assert_eq!(m.free_balance(1), 998);
    assert_eq!(get_last_event(&m), Some(Event::RegisterIdRoot(0, 1, 2)));
    assert_eq!(m.delegate(1, 0, vec![2, 3, 4]), Ok(()));
    assert_eq!(m.free_balance(1), 994);
    assert_eq!(get_last_event(&m), Some(Event::DelegateBranch(0, 1, 1, 4)));
    let child = m.tree_state(1).unwrap();
    assert_eq!(child.height, 1);
    assert_eq!(child.size, 3);
    assert_eq!(child.parent, Some(0));
    let parent = m.tree_state(0).unwrap();
    assert_eq!(parent.kids, 1);
}

#[test]
fn revoke_restores_reserved_balances() {
    let mut m = TestRuntime::new_test_ext();
    assert_eq!(m.create_root(1), Ok(()));
    assert_eq!(m.reserved_balance(1), 2);
    assert_eq!(m.revoke(1, 0, false), Ok(()));
    assert_eq!(m.reserved_balance(1), 0);
    assert_eq!(m.free_balance(1), 1000);
    // the slot stays empty and the id is never reused
    assert!(m.tree_state(0).is_none());
    assert_eq!(m.gen_uid(), 1);
}

#[test]
fn missing_tree_is_reported() {
    let mut m = TestRuntime::new_test_ext();
    assert_eq!(m.add_members(1, 7, vec![2]), Err(Error::TreeDNE));
    assert_eq!(m.remove_members(1, 7, vec![2], false), Err(Error::TreeDNE));
    assert_eq!(m.revoke(1, 7, false), Err(Error::TreeDNE));
    // delegation authorizes through membership first
    assert_eq!(m.delegate(1, 7, vec![2]), Err(Error::NotAuthorized));
}

#[test]
fn only_the_owner_revokes() {
    let mut m = TestRuntime::new_test_ext();
    assert_eq!(m.create_root(1), Ok(()));
    assert_eq!(m.revoke(2, 0, false), Err(Error::NotAuthorized));
}

#[test]
fn penalty_forfeiture_is_refused() {
    // Forfeiting a bond has no defined destination, so both removal paths
    // refuse a penalty request outright instead of guessing one.
    let mut m = TestRuntime::new_test_ext();
    assert_eq!(m.create_root(1), Ok(()));
    assert_eq!(m.add_members(1, 0, vec![2]), Ok(()));
    let before = m.free_balance(2);
    assert_eq!(m.remove_members(1, 0, vec![2], true), Err(Error::PenaltyUnsupported));
    assert_eq!(m.revoke(1, 0, true), Err(Error::PenaltyUnsupported));
    assert_eq!(m.free_balance(2), before);
    assert!(m.member_balance(0, 2).is_some());
}

#[test]
fn removal_releases_each_members_bond() {
    let mut m = TestRuntime::new_test_ext();
    assert_eq!(m.create_root(1), Ok(()));
    assert_eq!(m.add_members(1, 0, vec![2]), Ok(()));
    // 2 bonds its own deposit against the tree
    assert_eq!(m.reserve_linear_bond(0, 2, 2), Ok(4));
    assert_eq!(m.free_balance(2), 96);
    assert_eq!(m.member_balance(0, 2), Some(4));
    assert_eq!(m.remove_members(1, 0, vec![2], false), Ok(()));
    assert_eq!(m.free_balance(2), 100);
    assert_eq!(m.reserved_balance(2), 0);
}

#[test]
fn heights_follow_parents() {
    let mut m = TestRuntime::new_test_ext();
    assert_eq!(m.create_root(1), Ok(()));
    assert_eq!(m.tree_state(0).unwrap().height, 0);
    assert_eq!(m.delegate(1, 0, vec![2]), Ok(()));
    assert_eq!(m.tree_state(1).unwrap().height, 1);
    assert_eq!(m.delegate(2, 1, vec![3]), Ok(()));
    let st = m.tree_state(2).unwrap();
    assert_eq!(st.height, m.tree_state(1).unwrap().height + 1);
    assert_eq!(st.parent, Some(1));
}
