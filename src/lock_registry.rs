//! Bookkeeping of the lock files a process holds, and the checks made
//! when a lock is closed or validated.

use crate::bytes_order::{bcompare, lemma_cmp_antisym};
use vstd::prelude::*;

verus! {

/// Why a lock operation failed.
#[derive(Clone, Copy, Debug, PartialEq, Eq, Structural)]
pub enum LockError {
    /// The lock path was released but never marked as held.
    NeverHeld,
    /// The lock path was cleared from the held set by someone else.
    ClearedFromMap,
    /// The lock file does not have the expected size 0.
    UnexpectedSize,
}

/// The lock paths held by this process, each once.
pub struct LockRegistry {
    held: Vec<Vec<u8>>,
}

fn bytes_eq(a: &Vec<u8>, b: &[u8]) -> (r: bool)
    ensures
        r == (a@ == b@),
{
    let c = bcompare(a.as_slice(), b);
    proof {
        lemma_cmp_antisym(a@, b@);
    }
    c == 0
}

impl LockRegistry {
    /// Each path is held once.
    pub closed spec fn wf(&self) -> bool {
        forall|i: int, j: int|
            0 <= i < j < self.held@.len() ==> (#[trigger] self.held@[i])@ != (#[trigger] self.held@[j])@
    }

    /// The held paths.
    pub closed spec fn paths(&self) -> Set<Seq<u8>> {
        Set::new(|p: Seq<u8>| exists|i: int| 0 <= i < self.held@.len() && #[trigger] self.held@[i]@ == p)
    }

    pub fn new() -> (r: Self)
        ensures
            r.wf(),
            r.paths() == Set::<Seq<u8>>::empty(),
    {
        let r = LockRegistry { held: Vec::new() };
        assert(r.paths() =~= Set::<Seq<u8>>::empty());
        r
    }

    fn find(&self, path: &[u8]) -> (r: Option<usize>)
        ensures
            r matches Some(i) ==> i < self.held@.len() && self.held@[i as int]@ == path@,
            r is None ==> !self.paths().contains(path@),
    {
        let mut i: usize = 0;
        while i < self.held.len()
            invariant
                i <= self.held@.len(),
                forall|j: int| 0 <= j < i ==> (#[trigger] self.held@[j])@ != path@,
            decreases self.held@.len() - i,
        {
            if bytes_eq(&self.held[i], path) {
                return Some(i);
            }
            i = i + 1;
        }
        None
    }

    pub fn contains(&self, path: &[u8]) -> (r: bool)
        ensures
            r == self.paths().contains(path@),
    {
        self.find(path).is_some()
    }

    /// Marks `path` as held; false when it already was.
    pub fn insert(&mut self, path: &[u8]) -> (r: bool)
        requires
            old(self).wf(),
        ensures
            final(self).wf(),
            r == !old(self).paths().contains(path@),
            final(self).paths() == old(self).paths().insert(path@),
    {
        if self.find(path).is_some() {
            assert(self.paths().insert(path@) =~= self.paths());
            return false;
        }
        let mut v: Vec<u8> = Vec::new();
        let mut k: usize = 0;
        while k < path.len()
            invariant
                k <= path@.len(),
                v@ =~= path@.subrange(0, k as int),
            decreases path@.len() - k,
        {
            v.push(path[k]);
            k = k + 1;
        }
        assert(v@ =~= path@);
        let ghost before = self.paths();
        self.held.push(v);
        proof {
            assert forall|p: Seq<u8>| #[trigger] self.paths().contains(p) <==> before.insert(path@).contains(p) by {
                if before.contains(p) {
                    let i = choose|i: int| 0 <= i < old(self).held@.len() && #[trigger] old(self).held@[i]@ == p;
                    assert(self.held@[i]@ == p);
                }
                if p == path@ {
                    assert(self.held@[self.held@.len() - 1]@ == p);
                }
                if self.paths().contains(p) && p != path@ {
                    let i = choose|i: int| 0 <= i < self.held@.len() && #[trigger] self.held@[i]@ == p;
                    assert(old(self).held@[i]@ == p);
                }
            }
            assert(self.paths() =~= before.insert(path@));
        }
        true
    }

    /// Releases `path`; false when it was not held.
    pub fn remove(&mut self, path: &[u8]) -> (r: bool)
        requires
            old(self).wf(),
        ensures
            final(self).wf(),
            r == old(self).paths().contains(path@),
            final(self).paths() == old(self).paths().remove(path@),
    {
        match self.find(path) {
            None => {
                assert(self.paths().remove(path@) =~= self.paths());
                false
            },
            Some(i) => {
                let ghost before = self.paths();
                let ghost old_held = self.held@;
                let _ = self.held.remove(i);
                proof {
                    assert forall|p: Seq<u8>| #[trigger] self.paths().contains(p) <==> before.remove(path@).contains(p) by {
                        if self.paths().contains(p) {
                            let j = choose|j: int| 0 <= j < self.held@.len() && #[trigger] self.held@[j]@ == p;
                            if j < i {
                                assert(old_held[j]@ == p);
                            } else {
                                assert(old_held[j + 1]@ == p);
                            }
                        }
                        if before.remove(path@).contains(p) {
                            let j = choose|j: int| 0 <= j < old_held.len() && #[trigger] old_held[j]@ == p;
                            assert(j != i);
                            if j < i {
                                assert(self.held@[j]@ == p);
                            } else {
                                assert(self.held@[j - 1]@ == p);
                            }
                        }
                    }
                    assert(self.paths() =~= before.remove(path@));
                }
                true
            },
        }
    }
}

/// Outcome of closing a lock, given whether its path was found held.
pub fn close_result(was_held: bool) -> (r: Result<(), LockError>)
    ensures
        r == if was_held { Ok::<(), LockError>(()) } else { Err(LockError::NeverHeld) },
{
    if was_held {
        Ok(())
    } else {
        Err(LockError::NeverHeld)
    }
}

/// Outcome of validating a lock, given whether its path is still held and
/// the size of its file.
pub fn validity_result(still_held: bool, file_len: u64) -> (r: Result<(), LockError>)
    ensures
        r == if !still_held {
            Err(LockError::ClearedFromMap)
        } else if file_len != 0 {
            Err(LockError::UnexpectedSize)
        } else {
            Ok::<(), LockError>(())
        },
{
    if !still_held {
        return Err(LockError::ClearedFromMap);
    }
    if file_len != 0 {
        return Err(LockError::UnexpectedSize);
    }
    Ok(())
}

} // verus!
