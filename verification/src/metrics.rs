//! Counters of a host: offers, audits, releases, evictions and refusals since it was started.

use vstd::prelude::*;

verus! {

/// Counters of a host, all of them zero at the start. A counter past `u64::MAX` starts over.
#[derive(Debug, PartialEq, Eq)]
pub struct HostMetrics {
    /// Offers accepted: the object was fetched and is held.
    pub offers_accepted: u64,
    /// Offers declined for size, rent or space.
    pub offers_declined: u64,
    /// Offers admitted whose fetch failed or took too long.
    pub offers_failed: u64,
    /// Audit challenges answered with a proof.
    pub audits_passed: u64,
    /// Audit challenges not answered.
    pub audits_failed: u64,
    /// Pins released on request.
    pub releases: u64,
    /// Pins dropped because they expired or space ran out.
    pub gc_evictions: u64,
    /// Requests turned down for want of a capability.
    pub auth_denied: u64,
}

/// The counters at one moment.
#[derive(Debug, Clone, Copy, PartialEq, Eq)]
pub struct MetricsSnapshot {
    /// Offers accepted.
    pub offers_accepted: u64,
    /// Offers declined.
    pub offers_declined: u64,
    /// Offers whose fetch failed.
    pub offers_failed: u64,
    /// Audits answered.
    pub audits_passed: u64,
    /// Audits not answered.
    pub audits_failed: u64,
    /// Pins released.
    pub releases: u64,
    /// Pins dropped.
    pub gc_evictions: u64,
    /// Requests turned down.
    pub auth_denied: u64,
}

/// A counter moved on by `n`.
pub open spec fn moved(counter: u64, n: u64) -> u64 {
    ((counter + n) % 0x1_0000_0000_0000_0000) as u64
}

fn moved_on(counter: u64, n: u64) -> (r: u64)
    ensures
        r == moved(counter, n),
{
    counter.wrapping_add(n)
}

impl Default for HostMetrics {
    fn default() -> (r: Self)
        ensures
            r == (HostMetrics {
                offers_accepted: 0,
                offers_declined: 0,
                offers_failed: 0,
                audits_passed: 0,
                audits_failed: 0,
                releases: 0,
                gc_evictions: 0,
                auth_denied: 0,
            }),
    {
        HostMetrics {
            offers_accepted: 0,
            offers_declined: 0,
            offers_failed: 0,
            audits_passed: 0,
            audits_failed: 0,
            releases: 0,
            gc_evictions: 0,
            auth_denied: 0,
        }
    }
}

impl HostMetrics {
    /// Counters at zero.
    pub fn new() -> (r: Self)
        ensures
            r == (HostMetrics {
                offers_accepted: 0,
                offers_declined: 0,
                offers_failed: 0,
                audits_passed: 0,
                audits_failed: 0,
                releases: 0,
                gc_evictions: 0,
                auth_denied: 0,
            }),
    {
        HostMetrics::default()
    }

    /// Counts `n` dropped pins.
    pub fn add_evictions(&mut self, n: u64)
        ensures
            *final(self) == (HostMetrics {
                gc_evictions: moved(old(self).gc_evictions, n),
                ..*old(self)
            }),
    {
        self.gc_evictions = moved_on(self.gc_evictions, n);
    }

    /// Counts an accepted offer.
    pub fn offer_accepted(&mut self)
        ensures
            *final(self) == (HostMetrics {
                offers_accepted: moved(old(self).offers_accepted, 1),
                ..*old(self)
            }),
    {
        self.offers_accepted = moved_on(self.offers_accepted, 1);
    }

    /// Counts a declined offer.
    pub fn offer_declined(&mut self)
        ensures
            *final(self) == (HostMetrics {
                offers_declined: moved(old(self).offers_declined, 1),
                ..*old(self)
            }),
    {
        self.offers_declined = moved_on(self.offers_declined, 1);
    }

    /// Counts an offer whose fetch failed.
    pub fn offer_failed(&mut self)
        ensures
            *final(self) == (HostMetrics {
                offers_failed: moved(old(self).offers_failed, 1),
                ..*old(self)
            }),
    {
        self.offers_failed = moved_on(self.offers_failed, 1);
    }

    /// Counts an answered audit.
    pub fn audit_passed(&mut self)
        ensures
            *final(self) == (HostMetrics {
                audits_passed: moved(old(self).audits_passed, 1),
                ..*old(self)
            }),
    {
        self.audits_passed = moved_on(self.audits_passed, 1);
    }

    /// Counts an audit that was not answered.
    pub fn audit_failed(&mut self)
        ensures
            *final(self) == (HostMetrics {
                audits_failed: moved(old(self).audits_failed, 1),
                ..*old(self)
            }),
    {
        self.audits_failed = moved_on(self.audits_failed, 1);
    }

    /// Counts a released pin.
    pub fn release(&mut self)
        ensures
            *final(self) == (HostMetrics {
                releases: moved(old(self).releases, 1),
                ..*old(self)
            }),
    {
        self.releases = moved_on(self.releases, 1);
    }

    /// Counts a request turned down for want of a capability.
    pub fn auth_deny(&mut self)
        ensures
            *final(self) == (HostMetrics {
                auth_denied: moved(old(self).auth_denied, 1),
                ..*old(self)
            }),
    {
        self.auth_denied = moved_on(self.auth_denied, 1);
    }

    /// The counters as they are.
    pub fn snapshot(&self) -> (r: MetricsSnapshot)
        ensures
            r.offers_accepted == self.offers_accepted,
            r.offers_declined == self.offers_declined,
            r.offers_failed == self.offers_failed,
            r.audits_passed == self.audits_passed,
            r.audits_failed == self.audits_failed,
            r.releases == self.releases,
            r.gc_evictions == self.gc_evictions,
            r.auth_denied == self.auth_denied,
    {
        MetricsSnapshot {
            offers_accepted: self.offers_accepted,
            offers_declined: self.offers_declined,
            offers_failed: self.offers_failed,
            audits_passed: self.audits_passed,
            audits_failed: self.audits_failed,
            releases: self.releases,
            gc_evictions: self.gc_evictions,
            auth_denied: self.auth_denied,
        }
    }
}

/// A counter that does not run over grows by what is counted.
pub proof fn law_counters_grow(counter: u64, n: u64)
    requires
        counter + n <= u64::MAX,
    ensures
        moved(counter, n) == counter + n,
{
}

/// A counter moves on by what is counted, and starts again at zero behind the largest `u64`.
pub proof fn law_counters_add_up(counter: u64, n: u64)
    ensures
        counter + n <= u64::MAX ==> moved(counter, n) == counter + n,
        counter + n > u64::MAX ==> moved(counter, n) + u64::MAX + 1 == counter + n,
{
}

} // verus!
