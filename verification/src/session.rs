//! Session state for interactive use: one tape and one cursor that
//! persist across executed lines until an explicit reset, owned by the
//! interactive driver and lent exclusively to each run.

use std::collections::HashMap;

use vstd::prelude::*;

use crate::machine::tape_read;

verus! {

broadcast use vstd::std_specs::hash::group_hash_axioms;

/// The interpreter state of one interactive session.
pub struct Session {
    pub tape: HashMap<i32, u8>,
    pub head: i32,
}

impl Session {
    /// A fresh session: every cell reads as 0 and the cursor is at
    /// address 0.
    pub fn new() -> (s: Session)
        ensures
            s.tape@ == Map::<i32, u8>::empty(),
            s.head == 0,
            forall|a: i32| tape_read(s.tape@, a) == 0,
    {
        Session { tape: HashMap::new(), head: 0 }
    }

    /// Clears every previously set cell and returns the cursor to
    /// address 0: afterwards every address reads as 0 again, whatever
    /// was stored before.
    pub fn reset(&mut self)
        ensures
            final(self).tape@ == Map::<i32, u8>::empty(),
            final(self).head == 0,
            forall|a: i32| tape_read(final(self).tape@, a) == 0,
    {
        self.tape.clear();
        self.head = 0;
    }
}

} // verus!
