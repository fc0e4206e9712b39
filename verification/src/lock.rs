//! Reader-writer lock.
//!
//! A mutual-exclusion wrapper around an arbitrary payload, tracking a write
//! flag and a reader count. On a bare-metal target acquisition would spin;
//! here acquisition is the decision such a spin loop retries: `obtain_rlock`
//! and `obtain_wlock` report at once whether the
//! lock was granted, and the caller owns the retry policy. Scoped
//! acquisition hands the whole lock to a guard value, so that while the
//! guard lives no other holder can reach the payload, and releasing the
//! guard returns the lock with its flag or count reset.
//!
//! The filesystem context itself is handed to every call by exclusive
//! reference, which already serializes it; the fine-grained per-slot
//! read/write exclusion of the file table follows the same grant
//! discipline as this lock.

use vstd::prelude::*;

verus! {

/// A payload guarded by a write flag and a reader count.
pub struct RWLock<T> {
    rlock: u64,
    wlock: bool,
    data: T,
}

/// Witness of a granted read hold; owns the lock until released.
pub struct RLockGuard<T> {
    lock: RWLock<T>,
}

/// Witness of a granted write hold; owns the lock until released.
pub struct WLockGuard<T> {
    lock: RWLock<T>,
}

impl<T> RWLock<T> {
    /// The number of outstanding read holds.
    pub closed spec fn readers(&self) -> u64 {
        self.rlock
    }

    /// Whether a write hold is outstanding.
    pub closed spec fn writer(&self) -> bool {
        self.wlock
    }

    /// The guarded payload.
    pub closed spec fn payload(&self) -> T {
        self.data
    }

    /// A fresh lock: no readers, no writer.
    pub fn new(user_data: T) -> (r: Self)
        ensures
            r.readers() == 0,
            !r.writer(),
            r.payload() == user_data,
    {
        RWLock { rlock: 0, wlock: false, data: user_data }
    }

    /// Tries to take a read hold: granted exactly when no writer holds the
    /// lock and the reader count can still grow.
    pub fn obtain_rlock(&mut self) -> (granted: bool)
        ensures
            granted <==> (!old(self).writer() && old(self).readers() < u64::MAX),
            granted ==> final(self).readers() == old(self).readers() + 1,
            !granted ==> final(self).readers() == old(self).readers(),
            final(self).writer() == old(self).writer(),
            final(self).payload() == old(self).payload(),
    {
        if self.wlock {
            return false;
        }
        if self.rlock == u64::MAX {
            return false;
        }
        self.rlock = self.rlock + 1;
        true
    }

    /// Tries to take the write hold: granted exactly when no writer and no
    /// reader holds the lock.
    pub fn obtain_wlock(&mut self) -> (granted: bool)
        ensures
            granted <==> (!old(self).writer() && old(self).readers() == 0),
            granted ==> final(self).writer(),
            !granted ==> final(self).writer() == old(self).writer(),
            final(self).readers() == old(self).readers(),
            final(self).payload() == old(self).payload(),
    {
        if self.wlock {
            return false;
        }
        if self.rlock != 0 {
            return false;
        }
        self.wlock = true;
        true
    }

    /// Gives back one read hold.
    pub fn return_rlock(&mut self)
        requires
            old(self).readers() >= 1,
        ensures
            final(self).readers() == old(self).readers() - 1,
            final(self).writer() == old(self).writer(),
            final(self).payload() == old(self).payload(),
    {
        self.rlock = self.rlock - 1;
    }

    /// Gives back the write hold.
    pub fn return_wlock(&mut self)
        requires
            old(self).writer(),
        ensures
            !final(self).writer(),
            final(self).readers() == old(self).readers(),
            final(self).payload() == old(self).payload(),
    {
        self.wlock = false;
    }

    /// Reads the payload under a hold.
    pub fn read(&self) -> (r: &T)
        requires
            self.readers() >= 1 || self.writer(),
        ensures
            *r == self.payload(),
    {
        &self.data
    }

    /// Replaces the payload under the write hold.
    pub fn put(&mut self, v: T)
        requires
            old(self).writer(),
        ensures
            final(self).payload() == v,
            final(self).readers() == old(self).readers(),
            final(self).writer(),
    {
        self.data = v;
    }

    /// Scoped read acquisition: on a grant the guard owns the lock; a denial
    /// hands the lock back untouched.
    pub fn rlock(self) -> (r: Result<RLockGuard<T>, RWLock<T>>)
        ensures
            match r {
                Ok(g) => !self.writer() && self.readers() < u64::MAX && g.lock_wf()
                    && g.payload() == self.payload() && g.readers() == self.readers() + 1
                    && !g.writer(),
                Err(l) => (self.writer() || self.readers() == u64::MAX) && l == self,
            },
    {
        let mut l = self;
        if l.obtain_rlock() {
            Ok(RLockGuard { lock: l })
        } else {
            Err(l)
        }
    }

    /// Scoped write acquisition: on a grant the guard owns the lock; a
    /// denial hands the lock back untouched.
    pub fn wlock(self) -> (r: Result<WLockGuard<T>, RWLock<T>>)
        ensures
            match r {
                Ok(g) => !self.writer() && self.readers() == 0 && g.lock_wf() && g.payload()
                    == self.payload() && g.readers() == 0,
                Err(l) => (self.writer() || self.readers() > 0) && l == self,
            },
    {
        let mut l = self;
        if l.obtain_wlock() {
            Ok(WLockGuard { lock: l })
        } else {
            Err(l)
        }
    }
}

impl<T> RLockGuard<T> {
    /// The guard records its own read hold.
    pub closed spec fn lock_wf(&self) -> bool {
        self.lock.readers() >= 1
    }

    /// The guarded payload.
    pub closed spec fn payload(&self) -> T {
        self.lock.payload()
    }

    /// The lock's reader count, this hold included.
    pub closed spec fn readers(&self) -> u64 {
        self.lock.readers()
    }

    /// Whether a writer holds the lock.
    pub closed spec fn writer(&self) -> bool {
        self.lock.writer()
    }

    /// Reads the payload under the hold.
    pub fn get(&self) -> (r: &T)
        requires
            self.lock_wf(),
        ensures
            *r == self.payload(),
    {
        self.lock.read()
    }

    /// Gives the hold back, returning the lock with one reader fewer.
    pub fn release(self) -> (l: RWLock<T>)
        requires
            self.lock_wf(),
        ensures
            l.readers() == self.readers() - 1,
            l.writer() == self.writer(),
            l.payload() == self.payload(),
    {
        let mut l = self.lock;
        l.return_rlock();
        l
    }
}

impl<T> WLockGuard<T> {
    /// The guard records its own write hold.
    pub closed spec fn lock_wf(&self) -> bool {
        self.lock.writer()
    }

    /// The guarded payload.
    pub closed spec fn payload(&self) -> T {
        self.lock.payload()
    }

    /// The lock's reader count.
    pub closed spec fn readers(&self) -> u64 {
        self.lock.readers()
    }

    /// Reads the payload under the hold.
    pub fn get(&self) -> (r: &T)
        requires
            self.lock_wf(),
        ensures
            *r == self.payload(),
    {
        self.lock.read()
    }

    /// Replaces the payload under the hold.
    pub fn put(&mut self, v: T)
        requires
            old(self).lock_wf(),
        ensures
            final(self).lock_wf(),
            final(self).payload() == v,
            final(self).readers() == old(self).readers(),
    {
        self.lock.put(v);
    }

    /// Gives the hold back, returning the lock with the write flag reset.
    pub fn release(self) -> (l: RWLock<T>)
        requires
            self.lock_wf(),
        ensures
            !l.writer(),
            l.readers() == self.readers(),
            l.payload() == self.payload(),
    {
        let mut l = self.lock;
        l.return_wlock();
        l
    }
}

} // verus!
