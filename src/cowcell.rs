//! A copy-on-write cell whose superseded values are freed as soon as their
//! last reader lets go, in whatever order that happens.
use crate::sync::{guarded, lock};
use std::sync::{Arc, Mutex, MutexGuard};
use vstd::prelude::*;

verus! {

/// One published value of a `CowCell`.
pub struct CowCellInner<T> {
    data: T,
}

/// A reader's snapshot: shared ownership of the value current when it began.
pub type CowCellReadTxn<T> = Arc<CowCellInner<T>>;

/// A cell that one writer at a time updates by copy-on-write while any number
/// of readers hold consistent snapshots of it.
#[verifier::reject_recursive_types(T)]
pub struct CowCell<T> {
    /// Held for the whole life of a write transaction.
    write: Mutex<()>,
    /// The current value; held only for the span of one step.
    active: Mutex<CowCellReadTxn<T>>,
}

/// The single active writer: a private copy of the current value, and the
/// writer lock, released when the transaction commits or is dropped.
#[verifier::reject_recursive_types(T)]
pub struct CowCellWriteTxn<'a, T> {
    work: T,
    caller: &'a CowCell<T>,
    guard: MutexGuard<'a, ()>,
    /// The value the working copy was cloned from.
    base: Ghost<T>,
}

impl<T> CowCellInner<T> {
    pub closed spec fn value(&self) -> T {
        self.data
    }

    pub fn new(data: T) -> (r: Self)
        ensures
            r.value() == data,
    {
        CowCellInner { data }
    }

    /// The held value.
    pub fn get(&self) -> (r: &T)
        ensures
            *r == self.value(),
    {
        &self.data
    }
}

impl<T> AsRef<T> for CowCellInner<T> {
    fn as_ref(&self) -> (r: &T)
        ensures
            *r == self.value(),
    {
        &self.data
    }
}

impl<T> std::ops::Deref for CowCellInner<T> {
    type Target = T;

    fn deref(&self) -> (r: &T)
        ensures
            *r == self.value(),
    {
        &self.data
    }
}

impl<T: Clone> CowCell<T> {
    /// A cell holding `data`.
    pub fn new(data: T) -> Self {
        CowCell { write: Mutex::new(()), active: Mutex::new(Arc::new(CowCellInner::new(data))) }
    }

    /// Opens a snapshot of the current value. Never waits for a writer.
    pub fn begin_read_txn(&self) -> CowCellReadTxn<T> {
        let mut g = lock(&self.active);
        guarded(&mut g).clone()
    }

    /// Waits for the writer lock, then copies the current value into a
    /// private working copy. A thread that holds a write transaction on this
    /// cell must not begin another on it: the second would wait for the
    /// first forever, or panic.
    pub fn begin_write_txn(&self) -> (r: CowCellWriteTxn<'_, T>)
        ensures
            r.caller() == self,
            cloned(r.base(), r.work()),
    {
        let guard = lock(&self.write);
        let base = self.begin_read_txn();
        let work = base.data.clone();
        let ghost b: T = base.value();
        CowCellWriteTxn { work, caller: self, guard, base: Ghost(b) }
    }

    /// Publishes `newdata` as the current value. The value it replaces is
    /// dropped once the lock is released.
    fn commit(&self, newdata: T) {
        let mut fresh = Arc::new(CowCellInner::new(newdata));
        {
            let mut g = lock(&self.active);
            std::mem::swap(guarded(&mut g), &mut fresh);
        }
    }
}

impl<'a, T: Clone> CowCellWriteTxn<'a, T> {
    pub closed spec fn caller(&self) -> &'a CowCell<T> {
        self.caller
    }

    /// The working copy.
    pub closed spec fn work(&self) -> T {
        self.work
    }

    /// The value that was current when the transaction began.
    pub closed spec fn base(&self) -> T {
        self.base@
    }

    /// Lends the working copy for mutation.
    pub fn get_mut(&mut self) -> (r: &mut T)
        ensures
            *r == old(self).work(),
            final(self).work() == *final(r),
            final(self).caller() == old(self).caller(),
            final(self).base() == old(self).base(),
    {
        &mut self.work
    }

    /// Publishes the working copy as the new current value and releases the
    /// writer lock.
    pub fn commit(self) {
        // The writer lock is held until the new value is published.
        let CowCellWriteTxn { work, caller, guard: _held, base: _ } = self;
        caller.commit(work);
    }
}

} // verus!
