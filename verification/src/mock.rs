//! A ready-made module configuration with endowed accounts, for exercising
//! the operations from tests and examples.

use vstd::prelude::*;

use crate::pallet::Module;
use crate::types::Event;

verus! {

/// The standard exercise configuration: base bond 2, at most 5 members per
/// group, depth at most 3, at most 3 children per tree, and six endowed
/// accounts.
pub struct TestRuntime;

impl TestRuntime {
    /// A fresh module under the standard configuration: account 1 holds a
    /// free balance of 1000, accounts 2 through 6 hold 100 each, nothing is
    /// reserved, and no tree exists yet.
    pub fn new_test_ext() -> (m: Module)
        ensures
            m.wf(),
            m.bond == 2,
            m.max_size == 5,
            m.max_depth == 3,
            m.max_kids == 3,
            m.trees@.len() == 0,
            m.events@.len() == 0,
            m.free_of(1) == 1000,
            forall|a: u64| 2 <= a <= 6 ==> #[trigger] m.free_of(a) == 100,
            forall|a: u64| !(1 <= a <= 6) ==> #[trigger] m.free_of(a) == 0,
            forall|a: u64| #[trigger] m.reserved_of(a) == 0,
    {
        let mut m = Module::new(2, 5, 3, 3);
        m.deposit(1, 1000);
        m.deposit(2, 100);
        m.deposit(3, 100);
        m.deposit(4, 100);
        m.deposit(5, 100);
        m.deposit(6, 100);
        m
    }
}

/// The most recent event the module emitted, or `None` before the first
/// operation succeeded.
pub fn get_last_event(m: &Module) -> (r: Option<Event>)
    ensures
        match r {
            Some(e) => m.events@.len() > 0 && e == m.events@.last(),
            None => m.events@.len() == 0,
        },
{
    if m.events.len() > 0 {
        Some(m.events[m.events.len() - 1])
    } else {
        None
    }
}

} // verus!
