//! The store's shared connection handle: lazily established under a
//! critical section on first use, then reused by every caller without
//! per-call locking. The model pins the at-most-one-establishment
//! property: after the first acquisition the cached handle is handed out
//! unchanged, and the number of establishments never grows again.

use vstd::prelude::*;

verus! {

/// A cached connection handle. The handle itself is an opaque
/// identifier supplied by whoever performs the actual establishment.
pub struct ConnectionCache {
    handle: Option<u64>,
    establishments: u64,
}

impl ConnectionCache {
    /// Whether a connection has been established.
    pub closed spec fn is_established(self) -> bool {
        self.handle is Some
    }

    /// The cached handle.
    pub closed spec fn spec_handle(self) -> Option<u64> {
        self.handle
    }

    /// How many times a connection has been established.
    pub closed spec fn spec_establishments(self) -> u64 {
        self.establishments
    }

    /// An empty cache: nothing established yet.
    pub fn new() -> (r: Self)
        ensures
            !r.is_established(),
            r.spec_establishments() == 0,
    {
        ConnectionCache { handle: None, establishments: 0 }
    }

    /// The cached handle, if one was installed: the check a caller makes
    /// under the critical section before deciding to connect.
    pub fn cached(&self) -> (r: Option<u64>)
        ensures
            r == self.spec_handle(),
            r is Some <==> self.is_established(),
    {
        self.handle
    }

    /// Installs the one freshly established handle, still under the
    /// critical section of the `cached` check that found nothing.
    pub fn install(&mut self, fresh: u64)
        requires
            !old(self).is_established(),
            old(self).spec_establishments() < u64::MAX,
        ensures
            final(self).is_established(),
            final(self).spec_handle() == Some(fresh),
            final(self).spec_establishments() == old(self).spec_establishments() + 1,
    {
        self.handle = Some(fresh);
        self.establishments = self.establishments + 1;
    }

    /// Acquires the shared handle. On first use the caller's freshly
    /// established handle is cached — the one establishment this cache
    /// ever records; every later acquisition returns the cached handle
    /// and changes nothing, so establishment happens at most once.
    pub fn acquire(&mut self, fresh: u64) -> (h: u64)
        requires
            old(self).spec_establishments() < u64::MAX,
        ensures
            final(self).is_established(),
            final(self).spec_handle() == Some(h),
            old(self).is_established() ==> h == old(self).spec_handle()->Some_0
                && final(self).spec_handle() == old(self).spec_handle()
                && final(self).spec_establishments() == old(self).spec_establishments(),
            !old(self).is_established() ==> h == fresh && final(self).spec_establishments()
                == old(self).spec_establishments() + 1,
    {
        match self.handle {
            Some(h) => h,
            None => {
                self.handle = Some(fresh);
                self.establishments = self.establishments + 1;
                fresh
            },
        }
    }
}

} // verus!
