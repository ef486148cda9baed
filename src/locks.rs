//! parking_lot's read/write lock, as the concurrent tables use it: a lock
//! is created around a value, and the value is reached only while it is held.
use parking_lot::RwLock;
use vstd::prelude::*;

verus! {

/// parking_lot's raw read/write lock, carried opaquely inside `RwLock`.
#[verifier::external_type_specification]
#[verifier::external_body]
pub struct ExRawRwLock(parking_lot::RawRwLock);

/// lock_api's `RwLock`, of which parking_lot's `RwLock<T>` is an instance;
/// opaque: what it holds is reached only through `with_read` and
/// `with_write`.
#[verifier::external_type_specification]
#[verifier::external_body]
#[verifier::reject_recursive_types(R)]
#[verifier::reject_recursive_types(T)]
pub struct ExRwLock<R, T: ?Sized>(parking_lot::lock_api::RwLock<R, T>);

/// Relies on parking_lot::RwLock::new: an unlocked lock around `value`.
#[verifier::external_body]
pub(crate) fn new_lock<T>(value: T) -> RwLock<T> {
    RwLock::new(value)
}

/// Relies on parking_lot::RwLock::read: runs `f` on the locked value while
/// the lock is held for reading, shared with other readers. What comes back
/// is what `f` returns on some value of the lock.
#[verifier::external_body]
pub(crate) fn with_read<T, R, F: FnOnce(&T) -> R>(lock: &RwLock<T>, f: F) -> (r: R)
    requires
        forall|t: &T| f.requires((t,)),
    ensures
        exists|t: &T| f.ensures((t,), r),
{
    f(&*lock.read())
}

/// Relies on parking_lot::RwLock::write: runs `f` on the locked value while
/// the lock is held exclusively. What comes back is what `f` returns on
/// some value of the lock.
#[verifier::external_body]
pub(crate) fn with_write<T, R, F: FnOnce(&mut T) -> R>(lock: &RwLock<T>, f: F) -> (r: R)
    requires
        forall|t: &mut T| f.requires((t,)),
    ensures
        exists|t: &mut T| f.ensures((t,), r),
{
    f(&mut *lock.write())
}

} // verus!
