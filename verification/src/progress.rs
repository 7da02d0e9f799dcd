use std::sync::atomic::{AtomicU32, Ordering};
use std::sync::Arc;
use vstd::prelude::*;

verus! {

/// The percentage that `done` steps of `total` make, whole and at most
/// 100. Of no steps at all, everything is done.
pub open spec fn percent_of(done: u32, total: u32) -> u32 {
    if total == 0 || done >= total {
        100
    } else {
        (done * 100 / (total as int)) as u32
    }
}

/// The percentage to report after `done` steps of `total`, where `last`
/// was reported before: the new percentage where it is higher.
pub open spec fn report_of(done: u32, total: u32, last: u32) -> Option<u32> {
    if percent_of(done, total) > last {
        Some(percent_of(done, total))
    } else {
        None
    }
}

/// The percentage that `done` steps of `total` make.
pub fn percent_done(done: u32, total: u32) -> (percent: u32)
    ensures
        percent == percent_of(done, total),
        percent <= 100,
{
    if total == 0 || done >= total {
        return 100;
    }
    let scaled: u64 = (done as u64) * 100;
    let percent: u64 = scaled / (total as u64);
    assert(percent < 100) by (nonlinear_arith)
        requires
            percent == scaled / (total as u64),
            scaled == done * 100,
            done < total,
    ;
    percent as u32
}

/// Decides what a step reports: the percentage reached, where it is
/// higher than the last one reported.
pub fn report(done: u32, total: u32, last: u32) -> (shown: Option<u32>)
    ensures
        shown == report_of(done, total, last),
        shown matches Some(percent) ==> last < percent <= 100,
{
    let percent = percent_done(done, total);
    if percent > last {
        Some(percent)
    } else {
        None
    }
}

/// A progress counter that the workers of one search share.
#[derive(Clone)]
pub struct Progress {
    total: u32,
    current: Arc<AtomicU32>,
    last_percent: Arc<AtomicU32>,
}

impl Progress {
    /// The number of steps that make the whole.
    pub closed spec fn spec_total(&self) -> u32 {
        self.total
    }

    /// A counter for `total` steps, with none done.
    pub fn new(total: u32) -> (progress: Self)
        ensures
            progress.spec_total() == total,
    {
        Progress {
            total,
            current: Arc::new(AtomicU32::new(0)),
            last_percent: Arc::new(AtomicU32::new(0)),
        }
    }

    /// Counts one step. Returns the percentage to show where this step
    /// was the one to raise it: what `report_of` decides for the count
    /// and the last percentage that this step saw, unless another worker
    /// raised the percentage in between.
    pub fn tick(&self) -> (shown: Option<u32>)
        ensures
            shown matches Some(percent) ==> 1 <= percent <= 100 && exists|done: u32, last: u32|
                report_of(done, self.spec_total(), last) == Some(percent),
    {
        let done = self.current.fetch_add(1, Ordering::Relaxed).wrapping_add(1);
        let last = self.last_percent.load(Ordering::Relaxed);
        match report(done, self.total, last) {
            Some(percent) => {
                assert(report_of(done, self.spec_total(), last) == Some(percent));
                if self.last_percent.compare_exchange(
                    last,
                    percent,
                    Ordering::Relaxed,
                    Ordering::Relaxed,
                ).is_ok() {
                    Some(percent)
                } else {
                    None
                }
            },
            None => None,
        }
    }
}

} // verus!
