//! Per-domain crawl pacing: one record per domain, holding the cached
//! next-link wording override and the instant pacing last advanced to. The
//! discipline is serialize-and-delay: before each request the pacer advances
//! its instant by a fixed interval, and the caller sleeps until that instant
//! when it still lies ahead.
use vstd::prelude::*;

verus! {

/// The minimum spacing between two requests to one domain, in milliseconds.
pub const PACE_INTERVAL_MS: u64 = 2000;

/// Per-domain pacing state.
#[derive(Debug)]
pub struct SiteInfo {
    /// The wording that identifies a "next chapter" anchor on this domain,
    /// when the default does not fit.
    pub next: Option<String>,
    /// The instant (in milliseconds) the pacer last advanced to.
    pub time: u64,
}

impl SiteInfo {
    /// Fresh pacing state for a domain first seen at `now`.
    pub fn new(now: u64) -> (r: SiteInfo)
        ensures
            r.next is None,
            r.time == now,
    {
        SiteInfo { next: None, time: now }
    }

    /// Advance pacing by one interval and return the instant the caller
    /// must wait for before sending: the prior instant plus the interval.
    /// The caller sleeps only when that instant still lies ahead of its
    /// clock.
    pub fn delay(&mut self) -> (wake: u64)
        requires
            old(self).time + PACE_INTERVAL_MS <= u64::MAX,
        ensures
            wake == old(self).time + PACE_INTERVAL_MS,
            final(self).time == wake,
            final(self).next == old(self).next,
    {
        let until: u64 = self.time + PACE_INTERVAL_MS;
        self.time = until;
        until
    }
}

/// The instant a request paced by `wake` actually goes out, for a caller
/// whose clock reads `now` when the pacer answers: it sleeps until `wake`
/// when `wake` lies ahead, else sends at once.
pub open spec fn send_instant(now: int, wake: int) -> int {
    if now >= wake {
        now
    } else {
        wake
    }
}

/// The wake instants of a run that starts at `t0`: each `delay` answer is
/// the prior instant advanced by one interval.
pub open spec fn wake_at(t0: int, i: int) -> int {
    t0 + (i + 1) * (PACE_INTERVAL_MS as int)
}

/// The pacer enforces the minimum inter-request interval: in any run of
/// requests to one domain, whenever a request finds its wake instant still
/// ahead (the pacer is pacing, not lagging behind an idle spell), the next
/// request goes out at least one interval later.
pub proof fn lemma_min_interval(t0: int, nows: Seq<int>, i: int)
    requires
        0 <= i,
        i + 1 < nows.len(),
        nows[i] <= wake_at(t0, i),
    ensures
        send_instant(nows[i + 1], wake_at(t0, i + 1)) >= send_instant(
            nows[i],
            wake_at(t0, i),
        ) + PACE_INTERVAL_MS,
{
    assert(wake_at(t0, i + 1) == wake_at(t0, i) + PACE_INTERVAL_MS) by {
        assert((i + 2) * (PACE_INTERVAL_MS as int) == (i + 1) * (PACE_INTERVAL_MS as int)
            + PACE_INTERVAL_MS) by (nonlinear_arith);
    }
}

} // verus!
