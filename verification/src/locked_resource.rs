//! An exclusive resource: a mutual-exclusion wrapper around one value.
//!
//! The protected value is set once at construction and never replaced or
//! mutated through this interface, so the wrapper carries a ghost model of
//! the value, and every handle handed out reports that same value.

use vstd::prelude::*;

verus! {

/// Why a non-blocking acquisition attempt produced no handle.
#[derive(Debug, Clone, Copy, PartialEq, Eq, Structural)]
pub enum TryGetError {
    /// The resource is exclusively held by another actor right now.
    WouldBlock,
    /// A previous holder terminated abnormally while holding the resource;
    /// the resource stays unusable rather than being silently cleared.
    Poisoned,
}

#[verifier::external_type_specification]
#[verifier::external_body]
#[verifier::reject_recursive_types(T)]
pub struct ExMutex<T: ?Sized>(std::sync::Mutex<T>);

#[verifier::external_type_specification]
#[verifier::external_body]
#[verifier::reject_recursive_types(T)]
pub struct ExMutexGuard<'a, T: ?Sized + 'a>(std::sync::MutexGuard<'a, T>);

/// Relies on std::sync::Mutex::new: wraps the value in a fresh, unheld lock.
#[verifier::external_body]
fn mutex_new<T>(value: T) -> std::sync::Mutex<T> {
    std::sync::Mutex::new(value)
}

/// Relies on std::sync::Mutex::lock: blocks the calling thread until the
/// resource is free, then returns the exclusive guard. Panics if a previous
/// holder panicked while holding the lock (the poisoned, unrecoverable state).
#[verifier::external_body]
fn mutex_lock<'a, T>(m: &'a std::sync::Mutex<T>) -> std::sync::MutexGuard<'a, T> {
    m.lock().unwrap()
}

/// Relies on std::sync::Mutex::try_lock: returns at once, with the exclusive
/// guard if the lock was free, and otherwise reports why not; it never blocks.
#[verifier::external_body]
fn mutex_try_lock<'a, T>(m: &'a std::sync::Mutex<T>) -> Result<
    std::sync::MutexGuard<'a, T>,
    TryGetError,
> {
    match m.try_lock() {
        Ok(guard) => Ok(guard),
        Err(std::sync::TryLockError::WouldBlock) => Err(TryGetError::WouldBlock),
        Err(std::sync::TryLockError::Poisoned(_)) => Err(TryGetError::Poisoned),
    }
}

/// A generic mutual-exclusion wrapper around one value: at most one holder
/// at any instant. The value is fixed at construction; `@` is that value.
#[verifier::reject_recursive_types(T)]
pub struct LockedResource<T> {
    lock: std::sync::Mutex<T>,
    value: Ghost<T>,
}

/// An exclusive handle on a [`LockedResource`]. While it lives, no other
/// actor can acquire the same resource; the resource is released when the
/// handle is dropped, on every exit path. `@` is the protected value.
#[verifier::reject_recursive_types(T)]
pub struct ResourceHandle<'a, T> {
    guard: std::sync::MutexGuard<'a, T>,
    value: Ghost<T>,
}

impl<T> View for LockedResource<T> {
    type V = T;

    closed spec fn view(&self) -> T {
        self.value@
    }
}

impl<'a, T> View for ResourceHandle<'a, T> {
    type V = T;

    closed spec fn view(&self) -> T {
        self.value@
    }
}

impl<T> LockedResource<T> {
    /// Creates a resource protecting the given value.
    pub fn new(data: T) -> (r: Self)
        ensures
            r@ == data,
    {
        let ghost model = data;
        LockedResource { lock: mutex_new(data), value: Ghost(model) }
    }

    /// Blocks until the resource is free, then returns an exclusive handle on it.
    pub fn get(&self) -> (r: ResourceHandle<'_, T>)
        ensures
            r@ == self@,
    {
        let guard = mutex_lock(&self.lock);
        ResourceHandle { guard, value: Ghost(self.value@) }
    }

    /// Returns at once: an exclusive handle if the resource was free, and
    /// otherwise the reason it was not available. Never blocks the caller.
    pub fn try_get(&self) -> (r: Result<ResourceHandle<'_, T>, TryGetError>)
        ensures
            (r matches Ok(h) ==> h@ == self@),
    {
        match mutex_try_lock(&self.lock) {
            Ok(guard) => Ok(ResourceHandle { guard, value: Ghost(self.value@) }),
            Err(e) => Err(e),
        }
    }
}

impl<'a, T> ResourceHandle<'a, T> {
    /// Reads the protected value through the exclusive guard.
    ///
    /// Relies on the guard's dereference (std::sync::MutexGuard): it yields the
    /// value stored in the lock, which this interface never mutates, so it is
    /// the value the resource was constructed with.
    #[verifier::external_body]
    pub fn read(&self) -> (r: &T)
        ensures
            *r == self@,
    {
        &*self.guard
    }
}

} // verus!
