//! The counting half of a rate meter: when a new sample is due and how many
//! were taken. The averaging of the samples is floating point and lives with
//! the daemon.

use vstd::prelude::*;

verus! {

/// What a meter is fed at an event.
#[derive(Clone, Copy, Debug, PartialEq, Eq, Structural)]
pub enum RateSample {
    /// The first event: the rate is fed as zero.
    Initial,
    /// A later event, this many nanoseconds after the previous one.
    Interval(u64),
}

/// `x + 1`, staying at the maximum.
pub open spec fn sat_inc_u16(x: u16) -> u16 {
    if x == u16::MAX {
        x
    } else {
        (x + 1) as u16
    }
}

/// The sample that an event at `now` gives, after one at `prev`.
/// An event that is not later than the previous one gives none.
pub open spec fn sample_at(prev: Option<u64>, now: u64) -> Option<RateSample> {
    match prev {
        Some(p) => if now > p {
            Some(RateSample::Interval((now - p) as u64))
        } else {
            None
        },
        None => Some(RateSample::Initial),
    }
}

/// The first event gives the initial sample; a later event gives the whole
/// time since the previous one, exactly, whatever its length; an event that
/// is not later gives no sample.
pub proof fn lemma_sample_is_elapsed_time(prev: Option<u64>, now: u64)
    ensures
        prev is None ==> sample_at(prev, now) == Some(RateSample::Initial),
        prev is Some && now > prev->0 ==> (sample_at(prev, now) matches Some(RateSample::Interval(n)) && n + prev->0 == now),
        prev matches Some(p) && now <= p ==> sample_at(prev, now) is None,
{
}

/// The event counter of a rate meter.
#[derive(Clone, Copy, Debug)]
pub struct Rate {
    prev_stamp: Option<u64>,
    count: u16,
}

impl Rate {
    /// The time of the last sampled event.
    pub closed spec fn prev(&self) -> Option<u64> {
        self.prev_stamp
    }

    /// The number of samples taken (saturating).
    pub closed spec fn samples(&self) -> u16 {
        self.count
    }

    pub fn new() -> (r: Self)
        ensures
            r.prev() is None,
            r.samples() == 0,
    {
        Self { prev_stamp: None, count: 0 }
    }

    /// An event at `now`: returns the sample to feed to the average, if any.
    pub fn feed(&mut self, now: u64) -> (r: Option<RateSample>)
        ensures
            r == sample_at(old(self).prev(), now),
            old(self).prev() is None ==> r == Some(RateSample::Initial),
            old(self).prev() is Some && now > old(self).prev()->0 ==> (r matches Some(RateSample::Interval(n)) && n + old(self).prev()->0 == now),
            old(self).prev() matches Some(p) && now <= p ==> r is None,
            r is Some ==> final(self).prev() == Some(now) && final(self).samples() == sat_inc_u16(
                old(self).samples(),
            ),
            r is None ==> *final(self) == *old(self),
            final(self).samples() >= old(self).samples(),
            old(self).prev() matches Some(p) ==> final(self).prev() matches Some(q) && q >= p,
    {
        match self.prev_stamp {
            Some(prev) => {
                if now > prev {
                    self.prev_stamp = Some(now);
                    self.count = if self.count < u16::MAX { self.count + 1 } else { self.count };
                    Some(RateSample::Interval(now - prev))
                } else {
                    None
                }
            },
            None => {
                self.prev_stamp = Some(now);
                self.count = if self.count < u16::MAX { self.count + 1 } else { self.count };
                Some(RateSample::Initial)
            },
        }
    }

    /// The number of samples taken.
    pub fn count(&self) -> (r: usize)
        ensures
            r == self.samples(),
    {
        self.count as usize
    }
}

} // verus!
