//! Run counters: how many entries each stage of a run saw and what it did
//! with them. The counters saturate rather than wrap.

use vstd::prelude::*;

verus! {

/// A counter bump that can never overflow.
pub fn sat_add_u64(a: u64, b: u64) -> (r: u64)
    ensures
        r == if a + b <= u64::MAX {
            a + b
        } else {
            u64::MAX as int
        },
{
    if a <= u64::MAX - b {
        a + b
    } else {
        u64::MAX
    }
}

/// The run's counters. The time of the first transfer is in seconds since the
/// epoch, set once by whichever worker transfers first.
#[derive(Clone, Copy, Debug)]
pub struct Stats {
    pub first_xfer_time: Option<u64>,
    pub xfer_count: u64,
    pub dirs_check: u64,
    pub path_check: u64,
    pub stat_check: u64,
    pub never2xfer: u64,
    pub too_young: u64,
}

impl Stats {
    /// All counters at zero, no transfer seen yet.
    pub fn new() -> (s: Stats)
        ensures
            s.first_xfer_time is None,
            s.xfer_count == 0,
            s.dirs_check == 0,
            s.path_check == 0,
            s.stat_check == 0,
            s.never2xfer == 0,
            s.too_young == 0,
    {
        Stats {
            first_xfer_time: None,
            xfer_count: 0,
            dirs_check: 0,
            path_check: 0,
            stat_check: 0,
            never2xfer: 0,
            too_young: 0,
        }
    }

    /// Records one more transferred file.
    pub fn count_xfer(&mut self)
        ensures
            final(self).xfer_count == if old(self).xfer_count < u64::MAX {
                old(self).xfer_count + 1
            } else {
                u64::MAX as int
            },
            final(self).first_xfer_time == old(self).first_xfer_time,
            final(self).dirs_check == old(self).dirs_check,
            final(self).path_check == old(self).path_check,
            final(self).stat_check == old(self).stat_check,
            final(self).never2xfer == old(self).never2xfer,
            final(self).too_young == old(self).too_young,
    {
        self.xfer_count = sat_add_u64(self.xfer_count, 1);
    }

    /// Notes the time of the first transfer; later calls change nothing.
    pub fn record_first_xfer(&mut self, now: u64)
        ensures
            final(self).first_xfer_time == if old(self).first_xfer_time is Some {
                old(self).first_xfer_time
            } else {
                Some(now)
            },
            final(self).xfer_count == old(self).xfer_count,
            final(self).dirs_check == old(self).dirs_check,
            final(self).path_check == old(self).path_check,
            final(self).stat_check == old(self).stat_check,
            final(self).never2xfer == old(self).never2xfer,
            final(self).too_young == old(self).too_young,
    {
        match self.first_xfer_time {
            Some(_) => {},
            None => {
                self.first_xfer_time = Some(now);
            },
        }
    }
}

} // verus!
