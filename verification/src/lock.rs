//! A mutual-exclusion lock that hands its value to the holder.
use vstd::prelude::*;

verus! {

/// A lock around a value. While it is free the lock has the value; while it is
/// held the guard has it.
pub struct Mutex<T> {
    data: Option<T>,
}

/// Proof of holding a lock, with the value it protects.
pub struct MutexGuard<T> {
    pub value: T,
}

pub struct PoisonError<T> {
    inner: T,
}

pub enum TryLockError<T> {
    Poisoned(PoisonError<T>),
    WouldBlock,
}

pub type LockResult<T> = Result<T, PoisonError<T>>;

pub type TryLockResult<T> = Result<T, TryLockError<T>>;

impl<T> View for Mutex<T> {
    type V = Option<T>;

    closed spec fn view(&self) -> Option<T> {
        self.data
    }
}

impl<T> Mutex<T> {
    pub fn new(data: T) -> (r: Self)
        ensures
            r@ == Some(data),
    {
        Self { data: Some(data) }
    }

    /// The value of a free lock. A lock is never poisoned.
    pub fn into_inner(self) -> (r: LockResult<T>)
        requires
            self@ is Some,
        ensures
            r is Ok,
            r->Ok_0 == self@->Some_0,
    {
        match self.data {
            Some(data) => Ok(data),
            None => vstd::pervasive::unreached(),
        }
    }

    /// Takes the lock. A caller that finds it held spins on `try_lock`.
    pub fn lock(&mut self) -> (r: LockResult<MutexGuard<T>>)
        requires
            old(self)@ is Some,
        ensures
            final(self)@ is None,
            r is Ok,
            r->Ok_0.value == old(self)@->Some_0,
    {
        let value = self.data.take().unwrap();
        Ok(MutexGuard { value })
    }

    /// Takes the lock if it is free; a held lock answers `WouldBlock`.
    pub fn try_lock(&mut self) -> (r: TryLockResult<MutexGuard<T>>)
        ensures
            final(self)@ is None,
            match old(self)@ {
                Some(value) => r is Ok && r->Ok_0.value == value,
                None => r == Err::<MutexGuard<T>, TryLockError<MutexGuard<T>>>(
                    TryLockError::WouldBlock,
                ),
            },
    {
        match self.data.take() {
            Some(value) => Ok(MutexGuard { value }),
            None => Err(TryLockError::WouldBlock),
        }
    }

    /// Gives the lock back, with the value the holder leaves in it.
    pub fn unlock(&mut self, guard: MutexGuard<T>)
        requires
            old(self)@ is None,
        ensures
            final(self)@ == Some(guard.value),
    {
        self.data = Some(guard.value);
    }
}

impl<T: Default> Default for Mutex<T> {
    fn default() -> (r: Self)
        ensures
            r@ is Some,
            T::default.ensures((), r@->Some_0),
    {
        Self::new(T::default())
    }
}

impl<T> PoisonError<T> {
    pub closed spec fn content(self) -> T {
        self.inner
    }

    pub fn new(inner: T) -> (r: Self)
        ensures
            r.content() == inner,
    {
        Self { inner }
    }

    pub fn into_inner(self) -> (r: T)
        ensures
            r == self.content(),
    {
        self.inner
    }
}

} // verus!
