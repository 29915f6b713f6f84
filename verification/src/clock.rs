//! Hybrid logical clock.
//!
//! The clock produces `(time, counter)` stamps that are strictly
//! increasing within a node whatever the wall clock does: if the
//! physical reading moved past the last stamp the stamp is `(now, 0)`,
//! otherwise the counter of the last stamp is bumped.  Observing a
//! remote stamp merges it in, so the next local stamp is strictly
//! greater than both the last local stamp and the observed one.
//!
//! Counter overflow is a logic error; callers keep it out by the
//! stated preconditions.

use vstd::prelude::*;

verus! {

/// Strict order on `(time, counter)` stamps.
pub open spec fn stamp_lt(t1: u64, c1: u32, t2: u64, c2: u32) -> bool {
    t1 < t2 || (t1 == t2 && c1 < c2)
}

/// A hybrid logical clock: the last stamp it handed out.
pub struct Hlc {
    /// Physical component of the last stamp, nanoseconds since epoch.
    pub last_time: u64,
    /// Logical counter of the last stamp.
    pub last_counter: u32,
}

impl Hlc {
    /// A fresh clock, before any stamp.
    pub fn new() -> (r: Hlc)
        ensures
            r.last_time == 0,
            r.last_counter == 0,
    {
        Hlc { last_time: 0, last_counter: 0 }
    }

    /// Produce the next stamp given a physical clock reading `now`:
    /// `(now, 0)` if the reading is past the last stamp, else the last
    /// stamp with its counter bumped.  Successive stamps are strictly
    /// increasing under arbitrary wall-clock jitter, regressions
    /// included.
    pub fn next_timestamp(&mut self, now: u64) -> (r: (u64, u32))
        requires
            old(self).last_counter < u32::MAX,
        ensures
            r == (final(self).last_time, final(self).last_counter),
            stamp_lt(old(self).last_time, old(self).last_counter, r.0, r.1),
            now > old(self).last_time ==> r == (now, 0u32),
            now <= old(self).last_time ==> r == (
                old(self).last_time,
                (old(self).last_counter + 1) as u32,
            ),
    {
        if now > self.last_time {
            self.last_time = now;
            self.last_counter = 0;
        } else {
            self.last_counter = self.last_counter + 1;
        }
        (self.last_time, self.last_counter)
    }

    /// Merge an observed remote stamp.  The clock advances to the
    /// greatest of the last local time, the remote time and `now`;
    /// the counter continues past whichever stamps share that time.
    /// The resulting stamp is strictly greater than both the last
    /// local stamp and the observed remote stamp.
    pub fn observe(&mut self, now: u64, remote_time: u64, remote_counter: u32) -> (r: (u64, u32))
        requires
            old(self).last_counter < u32::MAX,
            remote_counter < u32::MAX,
        ensures
            r == (final(self).last_time, final(self).last_counter),
            stamp_lt(old(self).last_time, old(self).last_counter, r.0, r.1),
            stamp_lt(remote_time, remote_counter, r.0, r.1),
            (now > old(self).last_time && now > remote_time) ==> r == (now, 0u32),
            !(now > old(self).last_time && now > remote_time) && old(self).last_time > remote_time
                ==> r == (old(self).last_time, (old(self).last_counter + 1) as u32),
            !(now > old(self).last_time && now > remote_time) && remote_time > old(self).last_time
                ==> r == (remote_time, (remote_counter + 1) as u32),
            !(now > old(self).last_time && now > remote_time) && remote_time == old(self).last_time
                ==> r == (
                old(self).last_time,
                (if old(self).last_counter >= remote_counter {
                    old(self).last_counter + 1
                } else {
                    remote_counter + 1
                }) as u32,
            ),
    {
        if now > self.last_time && now > remote_time {
            self.last_time = now;
            self.last_counter = 0;
        } else if self.last_time > remote_time {
            self.last_counter = self.last_counter + 1;
        } else if remote_time > self.last_time {
            self.last_time = remote_time;
            self.last_counter = remote_counter + 1;
        } else {
            let c = if self.last_counter >= remote_counter {
                self.last_counter
            } else {
                remote_counter
            };
            self.last_counter = c + 1;
        }
        (self.last_time, self.last_counter)
    }
}

} // verus!
