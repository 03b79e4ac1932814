//! A copy-on-write cell whose superseded generations are reclaimed in the
//! order they were created.
use crate::generation::{chain_wf, pin_current, GenRecord, GenerationChain};
use crate::sync::{guarded, lock, lock_chain};
use std::sync::{Arc, Mutex, MutexGuard};
use vstd::prelude::*;

verus! {

/// A cell that one writer at a time updates by copy-on-write while any number
/// of readers hold consistent snapshots of it.
///
/// Values are cloned and dropped only while the internal lock is released,
/// oldest generation first.
#[verifier::reject_recursive_types(T)]
pub struct LinCowCell<T> {
    /// Held for the whole life of a write transaction.
    write: Mutex<()>,
    /// The live generations; held only for the span of one step.
    active: Mutex<GenerationChain<T>>,
}

/// A reader's claim on the generation that was current when it began.
#[verifier::reject_recursive_types(T)]
pub struct LinCowCellReadTxn<'a, T> {
    /// This reader's handle on the value. Fields drop in order: the handle
    /// goes before the pin is given back, so that when this reader was the
    /// last to hold an old generation, that value is freed before any newer
    /// one that the release reclaims.
    data: Arc<T>,
    pin: ReadPin<'a, T>,
    /// Recorded by `begin_read_txn` for proofs: the live generations it
    /// found.
    seen: Ghost<Seq<GenRecord<T>>>,
    /// Recorded by `begin_read_txn` for proofs: the live generations once it
    /// had pinned the current one.
    pinned: Ghost<Seq<GenRecord<T>>>,
}

/// A pin on generation `id`, given back to the cell when dropped.
#[verifier::reject_recursive_types(T)]
struct ReadPin<'a, T> {
    caller: &'a LinCowCell<T>,
    id: u64,
}

/// The single active writer: a private copy of the current value, and the
/// writer lock, released when the transaction commits or is dropped.
#[verifier::reject_recursive_types(T)]
pub struct LinCowCellWriteTxn<'a, T> {
    work: T,
    caller: &'a LinCowCell<T>,
    guard: MutexGuard<'a, ()>,
    /// Recorded by `begin_write_txn` for proofs: the value the working copy
    /// was cloned from.
    base: Ghost<T>,
}

/// The value behind a shared handle.
spec fn held<T>(a: &Arc<T>) -> T {
    **a
}

impl<T: Clone> LinCowCell<T> {
    /// A cell whose first generation holds `data`.
    pub fn new(data: T) -> Self {
        LinCowCell { write: Mutex::new(()), active: Mutex::new(GenerationChain::new(data)) }
    }

    /// Opens a snapshot of the current generation. Never waits for a writer.
    pub fn begin_read_txn(&self) -> (r: LinCowCellReadTxn<'_, T>)
        ensures
            r.caller() == self,
            chain_wf(r.seen()),
            r.generation_spec() == r.seen().last().id,
            r.value() == r.seen().last().value,
            r.pinned() == pin_current(r.seen()),
    {
        let mut g = lock_chain(&self.active);
        let chain = guarded(&mut g);
        let ghost before = chain@;
        let (id, data) = chain.pin();
        let ghost after = chain@;
        LinCowCellReadTxn { data, pin: ReadPin { caller: self, id }, seen: Ghost(before), pinned: Ghost(after) }
    }

    /// Waits for the writer lock, then copies the current value into a
    /// private working copy. A thread that holds a write transaction on this
    /// cell must not begin another on it: the second would wait for the
    /// first forever, or panic.
    pub fn begin_write_txn(&self) -> (r: LinCowCellWriteTxn<'_, T>)
        ensures
            r.caller() == self,
            cloned(r.base(), r.work()),
    {
        let guard = lock(&self.write);
        let base = {
            let mut g = lock_chain(&self.active);
            guarded(&mut g).current_shared()
        };
        let work = (*base).clone();
        let ghost b: T = held(&base);
        LinCowCellWriteTxn { work, caller: self, guard, base: Ghost(b) }
    }

    /// Publishes `newdata` as the current generation.
    fn commit(&self, newdata: T) {
        let mut g = lock_chain(&self.active);
        let (_retired, n) = guarded(&mut g).publish(newdata);
        release_values(g, n);
        // `_retired`, the slots the chain replaced, is dropped last, oldest
        // first, with the lock released.
    }
}

/// Takes the `n` values that were just reclaimed out of the chain, newest
/// first, releases the lock, then drops them as the recursion unwinds:
/// oldest first, and with no lock held.
fn release_values<'b, T>(mut g: MutexGuard<'b, GenerationChain<T>>, n: usize)
    decreases n,
    opens_invariants none
    no_unwind
{
    if n > 0 {
        let _newest = guarded(&mut g).take_reclaimed();
        release_values(g, n - 1);
    }
}

impl<T> LinCowCell<T> {
    /// Gives back a reader's claim on generation `id`.
    fn release(&self, id: u64)
        opens_invariants none
        no_unwind
    {
        let mut g = lock_chain(&self.active);
        let n = guarded(&mut g).unpin(id);
        release_values(g, n);
    }
}

impl<'a, T> LinCowCellReadTxn<'a, T> {
    pub closed spec fn caller(&self) -> &'a LinCowCell<T> {
        self.pin.caller
    }

    /// Recorded when this transaction began: the live generations, oldest
    /// first, the last of them the one it pinned.
    pub closed spec fn seen(&self) -> Seq<GenRecord<T>> {
        self.seen@
    }

    /// Recorded when this transaction began: the live generations once it had
    /// pinned its own.
    pub closed spec fn pinned(&self) -> Seq<GenRecord<T>> {
        self.pinned@
    }

    /// The value of the generation this transaction observes.
    pub closed spec fn value(&self) -> T {
        *self.data
    }

    /// The identifier of the generation this transaction observes.
    pub fn generation(&self) -> (r: u64)
        ensures
            r == self.generation_spec(),
    {
        self.pin.id
    }

    pub closed spec fn generation_spec(&self) -> u64 {
        self.pin.id
    }

    /// The observed value.
    pub fn get(&self) -> (r: &T)
        ensures
            *r == self.value(),
    {
        &self.data
    }
}

impl<'a, T> std::ops::Deref for LinCowCellReadTxn<'a, T> {
    type Target = T;

    fn deref(&self) -> (r: &T)
        ensures
            *r == self.value(),
    {
        &self.data
    }
}

impl<'a, T> Drop for ReadPin<'a, T> {
    fn drop(&mut self)
        opens_invariants none
        no_unwind
    {
        self.caller.release(self.id);
    }
}

impl<'a, T: Clone> LinCowCellWriteTxn<'a, T> {
    pub closed spec fn caller(&self) -> &'a LinCowCell<T> {
        self.caller
    }

    /// The working copy.
    pub closed spec fn work(&self) -> T {
        self.work
    }

    /// Recorded when the transaction began: the value it cloned.
    pub closed spec fn base(&self) -> T {
        self.base@
    }

    /// Lends the working copy for mutation.
    pub fn get_mut(&mut self) -> (r: &mut T)
        ensures
            *r == old(self).work(),
            final(self).work() == *final(r),
            final(self).caller() == old(self).caller(),
            final(self).base() == old(self).base(),
    {
        &mut self.work
    }

    /// Publishes the working copy as the new current generation and releases
    /// the writer lock.
    pub fn commit(self) {
        // The writer lock is held until the new generation is published.
        let LinCowCellWriteTxn { work, caller, guard: _held, base: _ } = self;
        caller.commit(work);
    }
}

} // verus!
