//! The alarm output of the basic monitor: while active, high for 7 periods
//! of 100 ms and low for 29, then again.

use vstd::prelude::*;

verus! {

pub struct Alarm {
    active: bool,
    count: u8,
}

impl Alarm {
    /// Whether the alarm is on.
    pub closed spec fn active(&self) -> bool {
        self.active
    }

    /// The step within the on/off period.
    pub closed spec fn count(&self) -> u8 {
        self.count
    }

    /// An inactive alarm; its output starts low.
    pub fn new() -> (r: Alarm)
        ensures
            !r.active(),
            r.count() == 0,
    {
        Alarm { active: false, count: 0 }
    }

    /// Switches the alarm on or off; returns whether that changed its state.
    pub fn activate(&mut self, active: bool) -> (changed: bool)
        ensures
            final(self).active() == active,
            final(self).count() == old(self).count(),
            changed == (old(self).active() != active),
    {
        let changed = self.active != active;
        self.active = active;
        changed
    }

    /// Advances the alarm by 100 ms; returns whether the output is high.
    pub fn run_100ms(&mut self) -> (high: bool)
        ensures
            final(self).active() == old(self).active(),
            high == (old(self).active() && old(self).count() <= 6),
            final(self).count() == if !old(self).active() || old(self).count() > 35 {
                0
            } else {
                old(self).count() + 1
            },
    {
        let mut high = false;
        if self.active {
            if self.count <= 6 {
                high = true;
                self.count += 1;
            } else if self.count <= 35 {
                self.count += 1;
            } else {
                self.count = 0;
            }
        } else {
            self.count = 0;
        }
        high
    }
}

} // verus!
