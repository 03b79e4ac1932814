//! The locks the cells are built on.
//!
//! A poisoned lock is taken over as it stands: every value guarded here is
//! well formed between any two calls, so a panic elsewhere leaves nothing
//! half done behind it.
use crate::generation::GenerationChain;
use std::sync::{Mutex, MutexGuard};
use vstd::prelude::*;

verus! {

#[verifier::external_type_specification]
#[verifier::external_body]
#[verifier::reject_recursive_types(T)]
pub struct ExMutex<T: ?Sized>(Mutex<T>);

#[verifier::external_type_specification]
#[verifier::external_body]
#[verifier::reject_recursive_types(T)]
pub struct ExMutexGuard<'a, T: ?Sized + 'a>(MutexGuard<'a, T>);

/// Relies on `Mutex::new`: a lock, not held, around `t`.
pub assume_specification<T>[ Mutex::<T>::new ](t: T) -> Mutex<T>;

/// Relies on `Mutex::lock`: blocks until the lock is held, and recovers the
/// guard of a poisoned lock. Its documentation says that a thread locking a
/// mutex it already holds does not get the lock back: it may deadlock or
/// panic. So this may unwind; no claim is made otherwise.
#[verifier::external_body]
pub(crate) fn lock<T>(m: &Mutex<T>) -> MutexGuard<'_, T> {
    match m.lock() {
        Ok(g) => g,
        Err(e) => e.into_inner(),
    }
}

/// Relies on `Mutex::lock`, as `lock` does, for the lock around the chain of
/// a `LinCowCell`, which a read transaction's destructor takes. It opens no
/// invariant of this crate. It does not unwind, since the calling thread
/// never already holds this lock: each guard of it is taken in one function
/// of the cell, which under it runs only the chain's own methods (no clone
/// or destructor of a stored value, and no other lock), and releases it
/// before any value is cloned or dropped.
#[verifier::external_body]
pub(crate) fn lock_chain<T>(m: &Mutex<GenerationChain<T>>) -> MutexGuard<'_, GenerationChain<T>>
    opens_invariants none
    no_unwind
{
    match m.lock() {
        Ok(g) => g,
        Err(e) => e.into_inner(),
    }
}

/// Relies on `MutexGuard`'s `DerefMut`: lends the guarded value.
#[verifier::external_body]
pub(crate) fn guarded<'a, 'b, T>(g: &'b mut MutexGuard<'a, T>) -> &'b mut T
    opens_invariants none
    no_unwind
{
    &mut **g
}

} // verus!
