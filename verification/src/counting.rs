//! A request and byte tally for an object store decorator: every ranged
//! fetch made through the store counts one request and the bytes of the
//! range it returned. The tally is shared between clones of the handle and
//! between threads, so a snapshot is a point-in-time reading.

use vstd::prelude::*;
use std::sync::Arc;
use std::sync::atomic::{AtomicU64, Ordering};

verus! {

/// A point-in-time snapshot of a [`CountingObjectStore`]'s tally.
#[derive(Debug, Clone, Copy, Default, PartialEq, Eq, Structural)]
pub struct IoStats {
    pub bytes: u64,
    pub requests: u64,
}

#[derive(Debug)]
struct Tally {
    bytes: AtomicU64,
    requests: AtomicU64,
}

/// Wraps `inner`, tallying the request count and returned byte ranges of
/// every fetch recorded through [`CountingObjectStore::record_get`].
#[derive(Debug)]
pub struct CountingObjectStore<T> {
    inner: T,
    tally: Arc<Tally>,
}

impl<T> CountingObjectStore<T> {
    /// The wrapped store.
    pub closed spec fn inner_spec(&self) -> T {
        self.inner
    }

    /// Wrap `inner` with a fresh tally.
    pub fn new(inner: T) -> (r: Self)
        ensures
            r.inner_spec() == inner,
    {
        let tally = Tally { bytes: AtomicU64::new(0), requests: AtomicU64::new(0) };
        CountingObjectStore { inner, tally: Arc::new(tally) }
    }

    /// The wrapped store, for the fetches themselves.
    pub fn inner(&self) -> (r: &T)
        ensures
            *r == self.inner_spec(),
    {
        &self.inner
    }

    /// The current tally: two relaxed loads, so other threads may be
    /// counting concurrently; nothing is promised of the values read.
    pub fn tally(&self) -> IoStats {
        IoStats {
            bytes: self.tally.bytes.load(Ordering::Relaxed),
            requests: self.tally.requests.load(Ordering::Relaxed),
        }
    }

    /// Count one completed fetch that returned the byte range `start..end`.
    pub fn record_get(&self, start: u64, end: u64)
        requires
            start <= end,
    {
        self.tally.requests.fetch_add(1, Ordering::Relaxed);
        self.tally.bytes.fetch_add(end - start, Ordering::Relaxed);
    }
}

} // verus!
