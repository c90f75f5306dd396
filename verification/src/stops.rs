//! Handles for cancelling sessions.

use vstd::prelude::*;

verus! {

/// The handles by which the sessions of a server are cancelled. A handle is
/// a number; whoever holds the means of cancelling keeps it under that
/// number.
#[derive(Debug)]
pub struct Stops {
    live: Vec<u64>,
    next: u64,
}

impl View for Stops {
    type V = Seq<u64>;

    /// The live handles, oldest first.
    closed spec fn view(&self) -> Seq<u64> {
        self.live@
    }
}

impl Stops {
    /// The representation invariant: every live handle was made before,
    /// and none is live twice.
    pub closed spec fn wf(&self) -> bool {
        &&& self.live@.no_duplicates()
        &&& forall|i: int| 0 <= i < self.live@.len() ==> self.live@[i] < self.next
    }

    /// The number of handles made so far.
    pub closed spec fn made(&self) -> u64 {
        self.next
    }

    /// No handle is live.
    pub fn new() -> (s: Stops)
        ensures
            s.wf(),
            s@ == Seq::<u64>::empty(),
            s.made() == 0,
    {
        Stops { live: Vec::new(), next: 0 }
    }

    /// Makes a handle that was never made before, and keeps it as live.
    /// Returns `None`, and changes nothing, once every number was used.
    pub fn make(&mut self) -> (r: Option<u64>)
        requires
            old(self).wf(),
        ensures
            final(self).wf(),
            old(self).made() < u64::MAX ==> r == Some(old(self).made()) && final(self)@ == old(
                self,
            )@.push(old(self).made()) && final(self).made() == old(self).made() + 1 && !old(
                self,
            )@.contains(old(self).made()),
            old(self).made() == u64::MAX ==> r.is_none() && final(self)@ == old(self)@
                && final(self).made() == old(self).made(),
    {
        if self.next == u64::MAX {
            return None;
        }
        let id = self.next;
        self.live.push(id);
        self.next = id + 1;
        proof {
            assert forall|i: int| 0 <= i < old(self).live@.len() implies old(self).live@[i]
                != id by {}
        }
        Some(id)
    }

    /// Takes `id` out of the live handles. Returns whether it was live.
    pub fn remove(&mut self, id: u64) -> (found: bool)
        requires
            old(self).wf(),
        ensures
            final(self).wf(),
            final(self).made() == old(self).made(),
            found == old(self)@.contains(id),
            found ==> final(self)@ == old(self)@.remove(old(self)@.index_of(id)),
            !found ==> final(self)@ == old(self)@,
    {
        let mut i: usize = 0;
        while i < self.live.len()
            invariant
                i <= self.live.len(),
                *self == *old(self),
                self.wf(),
                forall|j: int| 0 <= j < i ==> self.live@[j] != id,
            decreases self.live.len() - i,
        {
            if self.live[i] == id {
                let ghost before = self.live@;
                self.live.remove(i);
                proof {
                    assert(before.index_of(id) == i);
                    let after = self.live@;
                    assert forall|a: int, b: int|
                        0 <= a < after.len() && 0 <= b < after.len() && a != b implies after[a]
                        != after[b] by {
                        let a0 = if a < i { a } else { a + 1 };
                        let b0 = if b < i { b } else { b + 1 };
                        assert(after[a] == before[a0] && after[b] == before[b0]);
                    }
                    assert forall|a: int| 0 <= a < after.len() implies after[a] < self.next by {
                        let a0 = if a < i { a } else { a + 1 };
                        assert(after[a] == before[a0]);
                    }
                }
                return true;
            }
            i += 1;
        }
        false
    }

    /// Takes every live handle out, for signalling: the handles that were
    /// live, oldest first.
    pub fn stop(&mut self) -> (r: Vec<u64>)
        requires
            old(self).wf(),
        ensures
            final(self).wf(),
            final(self).made() == old(self).made(),
            r@ == old(self)@,
            final(self)@ == Seq::<u64>::empty(),
    {
        let mut out: Vec<u64> = Vec::new();
        core::mem::swap(&mut out, &mut self.live);
        out
    }
}

} // verus!
