//! A short-lived, in-process record of sources that were found allowed, to
//! spare the store a read.

use vstd::prelude::*;
use crate::table::{TimedTable, expired};

verus! {

/// The longest that an entry of the cache is believed, in seconds.
pub const CACHED_TIMEOUT: u64 = 120;

/// How long the cache goes without being emptied, in seconds.
pub const CACHED_CLEANUP_TIMEOUT: u64 = 3600;

/// The lifetime of a cache entry: the allowance timeout, but at most
/// `CACHED_TIMEOUT`.
pub open spec fn cache_ttl_for(allowance_timeout: u64) -> u64 {
    if allowance_timeout < CACHED_TIMEOUT {
        allowance_timeout
    } else {
        CACHED_TIMEOUT
    }
}

/// Computes the lifetime of a cache entry.
pub fn cache_ttl(allowance_timeout: u64) -> (ttl: u64)
    ensures
        ttl == cache_ttl_for(allowance_timeout),
{
    if allowance_timeout < CACHED_TIMEOUT {
        allowance_timeout
    } else {
        CACHED_TIMEOUT
    }
}

/// The cache's entries as a map from key to time of entry.
pub type CacheMap = Map<Seq<char>, ((), u64)>;

/// The entry under `key` is there and younger than `timeout` at `now`.
pub open spec fn cache_hit(m: CacheMap, key: Seq<char>, timeout: u64, now: u64) -> bool {
    m.contains_key(key) && !expired(m[key].1, now, timeout)
}

/// The cache is due to be emptied at `now`: the last time was more than
/// `CACHED_CLEANUP_TIMEOUT` ago.
pub open spec fn cleanup_due(last: u64, now: u64) -> bool {
    now >= last && now - last > CACHED_CLEANUP_TIMEOUT
}

/// The cache.
pub struct CachedAllow {
    allowed: TimedTable<()>,
    inst: u64,
}

impl CachedAllow {
    /// The entries.
    pub closed spec fn entries(&self) -> CacheMap {
        self.allowed.entries()
    }

    /// When the cache was last emptied.
    pub closed spec fn last_cleanup(&self) -> u64 {
        self.inst
    }

    /// The cache's invariant.
    pub closed spec fn wf(&self) -> bool {
        self.allowed.wf()
    }

    /// An empty cache, taken as emptied at `now`.
    pub fn new(now: u64) -> (c: Self)
        ensures
            c.wf(),
            c.entries() == CacheMap::empty(),
            c.last_cleanup() == now,
    {
        CachedAllow { allowed: TimedTable::new(), inst: now }
    }

    /// Tells whether the entry under `addr_port` is there and younger than
    /// `timeout`; an entry that is too old is removed.
    pub fn get_allowed(&mut self, addr_port: &str, timeout: u64, now: u64) -> (r: bool)
        requires
            old(self).wf(),
        ensures
            final(self).wf(),
            final(self).last_cleanup() == old(self).last_cleanup(),
            r == cache_hit(old(self).entries(), addr_port@, timeout, now),
            final(self).entries() == if r {
                old(self).entries()
            } else {
                old(self).entries().remove(addr_port@)
            },
    {
        let key = addr_port.to_owned();
        let fresh = match self.allowed.stamp_of(&key) {
            Some(stamp) => !crate::table::is_expired(stamp, now, timeout),
            None => false,
        };
        if !fresh {
            let _ = self.allowed.take(&key);
            proof {
                if !old(self).entries().contains_key(addr_port@) {
                    assert(old(self).entries().remove(addr_port@) =~= old(self).entries());
                }
            }
        }
        fresh
    }

    /// Enters `addr_port` at `now`, in place of an earlier entry.
    pub fn add_allowed(&mut self, addr_port: &str, now: u64)
        requires
            old(self).wf(),
        ensures
            final(self).wf(),
            final(self).last_cleanup() == old(self).last_cleanup(),
            final(self).entries() == old(self).entries().insert(addr_port@, ((), now)),
    {
        self.allowed.put(addr_port.to_owned(), (), now);
    }

    /// Empties the cache if that is due at `now`.
    pub fn check_cleanup(&mut self, now: u64)
        requires
            old(self).wf(),
        ensures
            final(self).wf(),
            if cleanup_due(old(self).last_cleanup(), now) {
                final(self).entries() == CacheMap::empty() && final(self).last_cleanup() == now
            } else {
                final(self).entries() == old(self).entries()
                    && final(self).last_cleanup() == old(self).last_cleanup()
            },
    {
        if now >= self.inst && now - self.inst > CACHED_CLEANUP_TIMEOUT {
            self.inst = now;
            self.allowed.clear();
        }
    }
}

} // verus!
