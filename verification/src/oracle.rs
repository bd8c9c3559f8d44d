//! The timestamp oracle: wall-clock timestamps that never repeat or go back.
use crate::clock::now_nanos;
use crate::msg::{TimestampRequest, TimestampResponse};
use vstd::prelude::*;

verus! {

/// The timestamp that follows `last` when the clock reads `now`: the clock's reading
/// where it lies beyond `last`, else the next integer; none once `last` is the
/// largest timestamp there is.
pub open spec fn next_timestamp(last: u64, now: u64) -> Option<u64> {
    if last == u64::MAX {
        None
    } else if now > last {
        Some(now)
    } else {
        Some((last + 1) as u64)
    }
}

/// Hands out timestamps, each larger than all it handed out before.
pub struct TimestampOracle {
    last: u64,
}

impl TimestampOracle {
    /// The largest timestamp handed out so far; `0` before the first.
    pub closed spec fn last(&self) -> u64 {
        self.last
    }

    /// An oracle that has handed out nothing yet.
    pub fn new() -> (r: Self)
        ensures
            r.last() == 0,
    {
        TimestampOracle { last: 0 }
    }

    /// The next timestamp when the clock reads `now`.
    pub fn advance(&mut self, now: u64) -> (r: Option<u64>)
        ensures
            r == next_timestamp(old(self).last(), now),
            r matches Some(ts) ==> ts > old(self).last() && final(self).last() == ts,
            r is None ==> final(self).last() == old(self).last(),
    {
        if self.last == u64::MAX {
            None
        } else {
            let ts: u64 = if now > self.last { now } else { self.last + 1 };
            self.last = ts;
            Some(ts)
        }
    }

    /// The next timestamp by the wall clock, where a clock that stands before the
    /// epoch counts as reading `0`. It is larger than every timestamp handed out
    /// before; there is none only once the largest timestamp is spent.
    pub fn get_timestamp(&mut self, req: TimestampRequest) -> (r: Option<TimestampResponse>)
        ensures
            r is None <==> old(self).last() == u64::MAX,
            r matches Some(reply) ==> reply.ts > old(self).last() && final(self).last() == reply.ts,
            r is None ==> final(self).last() == old(self).last(),
            exists|now: u64|
                next_timestamp(old(self).last(), now) == match r {
                    Some(reply) => Some(reply.ts),
                    None => None::<u64>,
                },
    {
        let now: u64 = match now_nanos() {
            Some(t) => t,
            None => 0,
        };
        let r = match self.advance(now) {
            Some(ts) => Some(TimestampResponse { ts }),
            None => None,
        };
        assert(next_timestamp(old(self).last(), now) == match r {
            Some(reply) => Some(reply.ts),
            None => None::<u64>,
        });
        r
    }
}

impl Default for TimestampOracle {
    /// An oracle that has handed out nothing yet.
    fn default() -> (r: Self)
        ensures
            r.last() == 0,
    {
        TimestampOracle::new()
    }
}

} // verus!
