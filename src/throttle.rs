//! Throttling of status reports in a fuzzing loop.

use vstd::prelude::*;

verus! {

/// One step of the throttle: given the time of the last report and the time
/// now (whole seconds), whether to report, and the new time of the last report.
pub open spec fn throttle_step(last: int, now: int) -> (bool, int) {
    if now - last >= 1 {
        (true, now)
    } else {
        (false, last)
    }
}

/// The time of the last report after the ticks `times`, from `last0`.
pub open spec fn last_after(last0: int, times: Seq<int>) -> int
    decreases times.len(),
{
    if times.len() == 0 {
        last0
    } else {
        throttle_step(last_after(last0, times.drop_last()), times.last()).1
    }
}

/// Whether the tick at index `i` of `times` reports.
pub open spec fn reports_at(last0: int, times: Seq<int>, i: int) -> bool {
    throttle_step(last_after(last0, times.take(i)), times[i]).0
}

/// Decides when a long-running loop reports its status: at most once per
/// elapsed second.
pub struct StatusThrottle {
    last: i64,
}

impl StatusThrottle {
    /// The time of the last report, in seconds.
    pub closed spec fn last_report(&self) -> int {
        self.last as int
    }

    /// A throttle whose last report was at `now`.
    pub fn new(now: i64) -> (t: StatusThrottle)
        ensures
            t.last_report() == now,
    {
        StatusThrottle { last: now }
    }

    /// Called once per iteration with the time now: whether to report now.
    pub fn tick(&mut self, now: i64) -> (report: bool)
        ensures
            (report, final(self).last_report()) == throttle_step(old(self).last_report(), now as int),
    {
        if now > self.last {
            self.last = now;
            true
        } else {
            false
        }
    }
}

proof fn lemma_last_reaches(last0: int, times: Seq<int>, i: int, k: int)
    requires
        0 <= i < k <= times.len(),
        reports_at(last0, times, i),
    ensures
        last_after(last0, times.take(k)) >= times[i],
    decreases k - i,
{
    if k == i + 1 {
        assert(times.take(k).drop_last() =~= times.take(i));
    } else {
        lemma_last_reaches(last0, times, i, k - 1);
        assert(times.take(k).drop_last() =~= times.take(k - 1));
    }
}

/// Any two ticks that report are at least one second apart, however many
/// ticks fall in between.
pub proof fn reports_one_second_apart(last0: int, times: Seq<int>, i: int, j: int)
    requires
        0 <= i < j < times.len(),
        reports_at(last0, times, i),
        reports_at(last0, times, j),
    ensures
        times[j] - times[i] >= 1,
{
    lemma_last_reaches(last0, times, i, j);
}

} // verus!
