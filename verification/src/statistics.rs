use vstd::prelude::*;

verus! {

use crate::peer::spec_elapsed;

/// Process-wide counters. The start time and all arithmetic are kept
/// saturating, so no counter ever wraps or goes below zero.
#[derive(Clone, Debug)]
pub struct GlobalStatistics {
    pub start_time: u64,
    pub total_seeders: u32,
    pub total_leechers: u32,
    pub announce_requests: u32,
    pub succ_announces: u32,
    pub scrapes: u32,
}

impl GlobalStatistics {
    /// Successful announces never outnumber announces.
    pub open spec fn wf(self) -> bool {
        self.succ_announces <= self.announce_requests
    }

    /// Fresh counters for a process started at `now`.
    pub fn new(now: u64) -> (r: GlobalStatistics)
        ensures
            r.wf(),
            r.start_time == now,
            r.total_seeders == 0,
            r.total_leechers == 0,
            r.announce_requests == 0,
            r.succ_announces == 0,
            r.scrapes == 0,
    {
        GlobalStatistics {
            start_time: now,
            total_seeders: 0,
            total_leechers: 0,
            announce_requests: 0,
            succ_announces: 0,
            scrapes: 0,
        }
    }

    /// Seconds this process has been up, read against the clock `now`.
    pub fn uptime(&self, now: u64) -> (r: u64)
        ensures
            r == spec_elapsed(self.start_time, now),
    {
        now.saturating_sub(self.start_time)
    }

    /// Books an announce that was served.
    pub fn succ_announce(&mut self)
        requires
            old(self).wf(),
        ensures
            final(self).wf(),
            final(self).announce_requests == old(self).announce_requests.saturating_add(1),
            final(self).succ_announces == old(self).succ_announces.saturating_add(1),
            *final(self) == (GlobalStatistics {
                announce_requests: final(self).announce_requests,
                succ_announces: final(self).succ_announces,
                ..*old(self)
            }),
    {
        self.announce_requests = self.announce_requests.saturating_add(1);
        self.succ_announces = self.succ_announces.saturating_add(1);
        proof {
            if old(self).announce_requests == u32::MAX {
                assert(final(self).succ_announces <= u32::MAX);
            }
        }
    }

    /// Books an announce that was rejected or malformed.
    pub fn fail_announce(&mut self)
        requires
            old(self).wf(),
        ensures
            final(self).wf(),
            final(self).announce_requests == old(self).announce_requests.saturating_add(1),
            *final(self) == (GlobalStatistics {
                announce_requests: final(self).announce_requests,
                ..*old(self)
            }),
    {
        self.announce_requests = self.announce_requests.saturating_add(1);
    }

    /// How many announces were not served.
    pub fn num_fails(&self) -> (r: u32)
        requires
            self.wf(),
        ensures
            r == self.announce_requests - self.succ_announces,
    {
        self.announce_requests - self.succ_announces
    }

    pub fn incr_scrapes(&mut self)
        ensures
            final(self).scrapes == old(self).scrapes.saturating_add(1),
            *final(self) == (GlobalStatistics { scrapes: final(self).scrapes, ..*old(self) }),
    {
        self.scrapes = self.scrapes.saturating_add(1);
    }

    pub fn add_seed(&mut self)
        ensures
            final(self).total_seeders == old(self).total_seeders.saturating_add(1),
            *final(self) == (GlobalStatistics {
                total_seeders: final(self).total_seeders,
                ..*old(self)
            }),
    {
        self.total_seeders = self.total_seeders.saturating_add(1);
    }

    pub fn add_leech(&mut self)
        ensures
            final(self).total_leechers == old(self).total_leechers.saturating_add(1),
            *final(self) == (GlobalStatistics {
                total_leechers: final(self).total_leechers,
                ..*old(self)
            }),
    {
        self.total_leechers = self.total_leechers.saturating_add(1);
    }

    pub fn sub_seed(&mut self)
        ensures
            final(self).total_seeders == old(self).total_seeders.saturating_sub(1),
            *final(self) == (GlobalStatistics {
                total_seeders: final(self).total_seeders,
                ..*old(self)
            }),
    {
        self.total_seeders = self.total_seeders.saturating_sub(1);
    }

    pub fn sub_leech(&mut self)
        ensures
            final(self).total_leechers == old(self).total_leechers.saturating_sub(1),
            *final(self) == (GlobalStatistics {
                total_leechers: final(self).total_leechers,
                ..*old(self)
            }),
    {
        self.total_leechers = self.total_leechers.saturating_sub(1);
    }

    /// A leecher finished: one fewer leecher, one more seeder.
    pub fn promote_leech(&mut self)
        ensures
            final(self).total_leechers == old(self).total_leechers.saturating_sub(1),
            final(self).total_seeders == old(self).total_seeders.saturating_add(1),
            *final(self) == (GlobalStatistics {
                total_leechers: final(self).total_leechers,
                total_seeders: final(self).total_seeders,
                ..*old(self)
            }),
    {
        self.total_leechers = self.total_leechers.saturating_sub(1);
        self.total_seeders = self.total_seeders.saturating_add(1);
    }

    /// Books what the reaper evicted, never dropping below zero.
    pub fn cleared_peers(&mut self, seeders_cleared: u32, leechers_cleared: u32)
        ensures
            final(self).total_seeders == old(self).total_seeders.saturating_sub(seeders_cleared),
            final(self).total_leechers == old(self).total_leechers.saturating_sub(
                leechers_cleared,
            ),
            *final(self) == (GlobalStatistics {
                total_seeders: final(self).total_seeders,
                total_leechers: final(self).total_leechers,
                ..*old(self)
            }),
    {
        self.total_seeders = self.total_seeders.saturating_sub(seeders_cleared);
        self.total_leechers = self.total_leechers.saturating_sub(leechers_cleared);
    }
}

/// The snapshot that the status endpoint reports.
#[derive(Clone, Debug)]
pub struct ReturnedStatistics {
    pub uptime: u64,
    pub total_seeders: u32,
    pub total_leechers: u32,
    pub announce_requests: u32,
    pub succ_announces: u32,
    pub scrapes: u32,
}

impl ReturnedStatistics {
    /// A copy of the live counters with the uptime read at `now`.
    pub fn new(stats: &GlobalStatistics, now: u64) -> (r: ReturnedStatistics)
        ensures
            r.uptime == spec_elapsed(stats.start_time, now),
            r.total_seeders == stats.total_seeders,
            r.total_leechers == stats.total_leechers,
            r.announce_requests == stats.announce_requests,
            r.succ_announces == stats.succ_announces,
            r.scrapes == stats.scrapes,
    {
        ReturnedStatistics {
            uptime: stats.uptime(now),
            total_seeders: stats.total_seeders,
            total_leechers: stats.total_leechers,
            announce_requests: stats.announce_requests,
            succ_announces: stats.succ_announces,
            scrapes: stats.scrapes,
        }
    }
}

} // verus!
