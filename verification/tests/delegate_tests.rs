use delegate::mock::{get_last_event, TestRuntime};
use delegate::pallet::Module;
use delegate::types::{Error, Event};

/// A module under the wide configuration: base bond 10, groups of at most
/// 5, depth at most 5, at most 2 children per tree, same endowments.
fn new_bond10_ext() -> Module {
    let mut m = Module::new(10, 5, 5, 2);
    m.deposit(1, 1000);
    m.deposit(2, 100);
    m.deposit(3, 100);
    m.deposit(4, 100);
    m.deposit(5, 100);
    m.deposit(6, 100);
    m
}

#[test]
fn genesis_config_works() {
    let m = new_bond10_ext();
    assert!(m.events.is_empty());
    assert!(get_last_event(&m).is_none());
}

#[test]
fn tests_genesis_config_works() {
    let m = TestRuntime::new_test_ext();
    assert!(m.events.is_empty());
    assert!(get_last_event(&m).is_none());
}

#[test]
fn create_root_works() {
    let mut m = new_bond10_ext();
    assert_eq!(m.create_root(21), Err(Error::InsufficientBalance));
    assert_eq!(m.free_balance(1), 1000);
    assert_eq!(m.create_root(1), Ok(()));
    assert_eq!(get_last_event(&m), Some(Event::RegisterIdRoot(0, 1, 10)));
    assert_eq!(m.free_balance(1), 990);
    for i in 2u64..7u64 {
        assert_eq!(m.free_balance(i), 100);
        assert_eq!(m.create_root(i), Ok(()));
        assert_eq!(get_last_event(&m), Some(Event::RegisterIdRoot(i - 1u64, i, 10)));
        assert_eq!(m.free_balance(i), 90);
    }
}

#[test]
fn tests_create_root_works() {
    let mut m = TestRuntime::new_test_ext();
    assert_eq!(m.create_root(21), Err(Error::InsufficientBalance));
    assert_eq!(m.free_balance(1), 1000);
    assert_eq!(m.create_root(1), Ok(()));
    assert_eq!(get_last_event(&m), Some(Event::RegisterIdRoot(0, 1, 2)));
    assert_eq!(m.free_balance(1), 998);
    for i in 2u64..7u64 {
        assert_eq!(m.free_balance(i), 100);
        assert_eq!(m.create_root(i), Ok(()));
        assert_eq!(get_last_event(&m), Some(Event::RegisterIdRoot(i - 1u64, i, 2)));
        assert_eq!(m.free_balance(i), 98);
    }
}

#[test]
fn revoke_works() {
    let mut m = new_bond10_ext();
    // root revocation first
    assert_eq!(m.free_balance(1), 1000);
    assert_eq!(m.create_root(1), Ok(()));
    assert_eq!(get_last_event(&m), Some(Event::RegisterIdRoot(0, 1, 10)));
    assert_eq!(m.free_balance(1), 990);
    assert_eq!(m.revoke(1, 0, false), Ok(()));
    assert_eq!(get_last_event(&m), Some(Event::RevokeDelegation(0)));
    assert_eq!(m.free_balance(1), 1000);
    for i in 2u64..7u64 {
        assert_eq!(m.free_balance(i), 100);
        assert_eq!(m.create_root(i), Ok(()));
        assert_eq!(get_last_event(&m), Some(Event::RegisterIdRoot(i - 1u64, i, 10)));
        assert_eq!(m.free_balance(i), 90);
        assert_eq!(m.revoke(i, i - 1u64, false), Ok(()));
        assert_eq!(get_last_event(&m), Some(Event::RevokeDelegation(i - 1)));
        assert_eq!(m.free_balance(i), 100);
    }
}

#[test]
fn base_case_revoke_works() {
    let mut m = TestRuntime::new_test_ext();
    assert_eq!(m.free_balance(1), 1000);
    assert_eq!(m.create_root(1), Ok(()));
    assert_eq!(get_last_event(&m), Some(Event::RegisterIdRoot(0, 1, 2)));
    assert_eq!(m.free_balance(1), 998);
    assert_eq!(m.revoke(1, 0, false), Ok(()));
    assert_eq!(get_last_event(&m), Some(Event::RevokeDelegation(0)));
    assert_eq!(m.free_balance(1), 1000);
    for i in 2u64..7u64 {
        assert_eq!(m.free_balance(i), 100);
        assert_eq!(m.create_root(i), Ok(()));
        assert_eq!(get_last_event(&m), Some(Event::RegisterIdRoot(i - 1u64, i, 2)));
        assert_eq!(m.free_balance(i), 98);
        assert_eq!(m.revoke(i, i - 1u64, false), Ok(()));
        assert_eq!(get_last_event(&m), Some(Event::RevokeDelegation(i - 1)));
        assert_eq!(m.free_balance(i), 100);
    }
}

#[test]
fn add_members_works() {
    let mut m = new_bond10_ext();
    assert_eq!(m.free_balance(1), 1000);
    assert_eq!(m.create_root(1), Ok(()));
    assert_eq!(get_last_event(&m), Some(Event::RegisterIdRoot(0, 1, 10)));
    assert_eq!(m.free_balance(1), 990);
    // this group would be above 5
    assert_eq!(
        m.add_members(1, 0, vec![1, 2, 3, 4, 5, 6]),
        Err(Error::CannotAddGroupAboveMaxSize)
    );
    // this group works because it dedups 1
    assert_eq!(m.add_members(1, 0, vec![1, 2, 3, 4, 5]), Ok(()));
}

#[test]
fn add_remove_members_works() {
    let mut m = TestRuntime::new_test_ext();
    assert_eq!(m.free_balance(1), 1000);
    assert_eq!(m.create_root(1), Ok(()));
    assert_eq!(get_last_event(&m), Some(Event::RegisterIdRoot(0, 1, 2)));
    assert_eq!(m.free_balance(1), 998);
    // this group would be above 5 (SIZE CONSTRAINT)
    assert_eq!(
        m.add_members(1, 0, vec![1, 2, 3, 4, 5, 6]),
        Err(Error::CannotAddGroupAboveMaxSize)
    );
    // 1 + 4 new members = 5 <= 5, the module group size limit
    assert_eq!(m.add_members(1, 0, vec![2, 3, 4, 5]), Ok(()));
    // linear collateral requirement for adding members:
    // 998 - 2 * (new_size) = 998 - 2 * 5 = 988
    assert_eq!(m.free_balance(1), 988);
    assert_eq!(
        m.remove_members(2, 0, vec![1, 3, 5], false),
        Err(Error::NotAuthorized)
    );
    assert_eq!(m.remove_members(1, 0, vec![2], false), Ok(()));
}

#[test]
fn delegate_works() {
    let mut m = TestRuntime::new_test_ext();
    assert_eq!(m.create_root(1), Ok(()));
    assert_eq!(get_last_event(&m), Some(Event::RegisterIdRoot(0, 1, 2)));
    assert_eq!(m.free_balance(1), 998);
    assert_eq!(m.delegate(1, 0, vec![2, 3, 4]), Ok(()));
    // 998 - bond ^ {height + kids} = 998 - 2 ^ {1 + 1}
    assert_eq!(m.free_balance(1), 994);
    assert_eq!(get_last_event(&m), Some(Event::DelegateBranch(0, 1, 1, 4)));
    assert_eq!(m.delegate(1, 0, vec![3, 4, 6]), Ok(()));
    // 994 - bond ^ {height + kids} = 994 - 2 ^ {1 + 2}
    assert_eq!(m.free_balance(1), 986);
    assert_eq!(get_last_event(&m), Some(Event::DelegateBranch(0, 2, 1, 8)));
    assert_eq!(m.delegate(2, 1, vec![3, 5]), Ok(()));
    // 100 - bond ^ {height + kids} = 100 - 2 ^ {2 + 1}
    assert_eq!(m.free_balance(2), 92);
    assert_eq!(get_last_event(&m), Some(Event::DelegateBranch(1, 3, 2, 8)));
    assert_eq!(m.delegate(3, 3, vec![1, 2]), Ok(()));
    // 100 - bond ^ {height + kids} = 100 - 2 ^ {3 + 1}
    assert_eq!(m.free_balance(3), 84);
    assert_eq!(get_last_event(&m), Some(Event::DelegateBranch(3, 4, 3, 16)));
    // DEPTH CONSTRAINT
    assert_eq!(
        m.delegate(2, 4, vec![5, 6]),
        Err(Error::CannotDelegateBelowMaxDepth)
    );
    assert_eq!(m.delegate(1, 0, vec![5, 6]), Ok(()));
    // 986 - bond ^ {height + kids} = 986 - 2 ^ {1 + 3}
    assert_eq!(m.free_balance(1), 970);
    assert_eq!(get_last_event(&m), Some(Event::DelegateBranch(0, 5, 1, 16)));
    // SPAN CONSTRAINT
    assert_eq!(
        m.delegate(1, 0, vec![2, 8]),
        Err(Error::CannotDelegateAboveMaxKids)
    );
}

#[test]
fn recursive_revoke_works() {
    let mut m = TestRuntime::new_test_ext();
    assert_eq!(m.create_root(1), Ok(()));
    assert_eq!(get_last_event(&m), Some(Event::RegisterIdRoot(0, 1, 2)));
    assert_eq!(m.free_balance(1), 998);
    assert_eq!(m.delegate(1, 0, vec![2, 3, 4]), Ok(()));
    // 998 - bond ^ {height + kids} = 998 - 2 ^ {1 + 1}
    assert_eq!(m.free_balance(1), 994);
    assert_eq!(get_last_event(&m), Some(Event::DelegateBranch(0, 1, 1, 4)));
    // 994 - bond ^ {height + kids} = 998 - 2 ^ {1 + 1}
    assert_eq!(m.free_balance(1), 994);
    assert_eq!(get_last_event(&m), Some(Event::DelegateBranch(0, 1, 1, 4)));
    assert_eq!(m.delegate(1, 0, vec![3, 4, 6]), Ok(()));
    // 994 - bond ^ {height + kids} = 994 - 2 ^ {1 + 2}
    assert_eq!(m.free_balance(1), 986);
    assert_eq!(get_last_event(&m), Some(Event::DelegateBranch(0, 2, 1, 8)));
    assert_eq!(m.delegate(2, 1, vec![3, 5]), Ok(()));
    // 100 - bond ^ {height + kids} = 100 - 2 ^ {2 + 1}
    assert_eq!(m.free_balance(2), 92);
    assert_eq!(get_last_event(&m), Some(Event::DelegateBranch(1, 3, 2, 8)));
    assert_eq!(m.delegate(3, 3, vec![1, 2]), Ok(()));
    // 100 - bond ^ {height + kids} = 100 - 2 ^ {3 + 1}
    assert_eq!(m.free_balance(3), 84);
    assert_eq!(get_last_event(&m), Some(Event::DelegateBranch(3, 4, 3, 16)));
    assert_eq!(m.delegate(5, 3, vec![1, 2]), Ok(()));
    // 100 - bond ^ {height + kids} = 100 - 2 ^ {3 + 2}
    assert_eq!(m.free_balance(5), 68);
    assert_eq!(get_last_event(&m), Some(Event::DelegateBranch(3, 5, 5, 32)));
    assert_eq!(m.revoke(1, 0, false), Ok(()));
    assert_eq!(m.free_balance(5), 100);
    assert_eq!(m.free_balance(3), 100);
    assert_eq!(m.free_balance(1), 1000);
    assert_eq!(m.free_balance(2), 100);
}
