//! The in-process part lock set.
//!
//! At most one writer may hold a given part open. The set records every
//! part identifier currently held; taking a lock on a held identifier
//! fails with `WriteLock` before any slower, OS-level check runs.

use crate::error::Error;
use vstd::prelude::*;

verus! {

/// The set of part identifiers currently locked for writing.
pub struct PartLockSet {
    locked: Vec<u128>,
}

impl PartLockSet {
    /// The identifiers the set holds.
    pub closed spec fn view(&self) -> Set<u128> {
        self.locked@.to_set()
    }

    /// The internal list holds no identifier twice.
    pub closed spec fn wf(&self) -> bool {
        forall|i: int, j: int|
            0 <= i < j < self.locked@.len() ==> self.locked@[i] != self.locked@[j]
    }

    /// An empty lock set.
    pub fn new() -> (r: Self)
        ensures
            r.wf(),
            r@ == Set::<u128>::empty(),
    {
        let r = PartLockSet { locked: Vec::new() };
        proof {
            assert(r@ =~= Set::<u128>::empty());
        }
        r
    }

    /// Whether `id` is currently locked.
    pub fn is_locked(&self, id: u128) -> (r: bool)
        ensures
            r == self@.contains(id),
    {
        let mut i: usize = 0;
        while i < self.locked.len()
            invariant
                i <= self.locked@.len(),
                forall|j: int| 0 <= j < i ==> self.locked@[j] != id,
            decreases self.locked@.len() - i,
        {
            if self.locked[i] == id {
                assert(self.locked@.contains(id));
                return true;
            }
            i = i + 1;
        }
        assert(!self.locked@.contains(id));
        false
    }

    /// Grants the exclusive write lock for `id`, or fails with `WriteLock`
    /// if some writer already holds it.
    pub fn lock(&mut self, id: u128) -> (r: Result<(), Error>)
        requires
            old(self).wf(),
        ensures
            final(self).wf(),
            r is Ok <==> !old(self)@.contains(id),
            r is Ok ==> final(self)@ == old(self)@.insert(id),
            r is Err ==> *final(self) == *old(self) && r->Err_0 is WriteLock,
    {
        if self.is_locked(id) {
            return Err(Error::WriteLock);
        }
        self.locked.push(id);
        proof {
            let s0 = old(self).locked@;
            let s1 = self.locked@;
            assert(!s0.contains(id));
            assert forall|x: u128| s1.contains(x) implies s0.contains(x) || x == id by {
                let k = choose|k: int| 0 <= k < s1.len() && s1[k] == x;
                if k < s1.len() - 1 {
                    assert(s0[k] == x);
                }
            }
            assert forall|x: u128| s0.contains(x) implies s1.contains(x) by {
                let k = choose|k: int| 0 <= k < s0.len() && s0[k] == x;
                assert(s1[k] == x);
            }
            assert(s1[s1.len() - 1] == id);
            assert(s1.contains(id));
            assert(self@ =~= old(self)@.insert(id));
            assert forall|i: int, j: int| 0 <= i < j < s1.len() implies s1[i] != s1[j] by {
                if j == s1.len() - 1 {
                    assert(s0.contains(s0[i]));
                }
            }
        }
        Ok(())
    }

    /// Releases the lock for `id`. Releasing an identifier that is not
    /// held changes nothing.
    pub fn release(&mut self, id: u128)
        requires
            old(self).wf(),
        ensures
            final(self).wf(),
            final(self)@ == old(self)@.remove(id),
    {
        let n = self.locked.len();
        let mut i: usize = 0;
        while i < n
            invariant
                i <= n,
                n == self.locked@.len(),
                old(self).wf(),
                *self == *old(self),
                forall|j: int| 0 <= j < i ==> self.locked@[j] != id,
            decreases n - i,
        {
            if self.locked[i] == id {
                self.locked.remove(i);
                proof {
                    let s0 = old(self).locked@;
                    let s1 = self.locked@;
                    assert(s1 =~= s0.subrange(0, i as int) + s0.subrange(i + 1, s0.len() as int));
                    assert forall|x: u128| s1.contains(x) implies s0.contains(x) && x != id by {
                        let k = choose|k: int| 0 <= k < s1.len() && s1[k] == x;
                        if k < i {
                            assert(s0[k] == x);
                        } else {
                            assert(s0[k + 1] == x);
                        }
                    }
                    assert forall|x: u128| s0.contains(x) && x != id implies s1.contains(x) by {
                        let k = choose|k: int| 0 <= k < s0.len() && s0[k] == x;
                        if k < i {
                            assert(s1[k] == x);
                        } else {
                            assert(k != i);
                            assert(s1[k - 1] == x);
                        }
                    }
                    assert(self@ =~= old(self)@.remove(id));
                }
                return ;
            }
            i = i + 1;
        }
        proof {
            assert(!self.locked@.contains(id));
            assert(self@ =~= old(self)@.remove(id));
        }
    }
}

} // verus!
