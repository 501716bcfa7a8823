//! The alarm output: while the alarm is active it is high for
//! `ALARM_ON_TIME` periods of 100 ms and low for `ALARM_OFF_TIME` periods.

use vstd::prelude::*;
use crate::config::{ALARM_ON_TIME, ALARM_OFF_TIME};

verus! {

/// `ms` in periods of 100 ms, rounded up.
pub fn alarm_time_ms(ms: u32) -> (r: u32)
    ensures
        r == (ms + 99) / 100,
{
    let q = ms / 100;
    if ms % 100 != 0 {
        q + 1
    } else {
        q
    }
}

/// Whether the output is high at step `count` of an active alarm.
pub open spec fn level_high(count: u32) -> bool {
    count < ALARM_ON_TIME || ALARM_OFF_TIME == 0
}

/// The step after `count` of an active alarm.
pub open spec fn next_count(count: u32) -> u32 {
    ((count + 1) % (ALARM_ON_TIME + ALARM_OFF_TIME) as int) as u32
}

pub struct Alarm {
    active: bool,
    count: u32,
}

impl Alarm {
    /// The step stays inside the on/off period.
    #[verifier::type_invariant]
    spec fn count_in_period(&self) -> bool {
        self.count < ALARM_ON_TIME + ALARM_OFF_TIME
    }

    /// Whether the alarm is on.
    pub closed spec fn active(&self) -> bool {
        self.active
    }

    /// The step within the on/off period.
    pub closed spec fn count(&self) -> u32 {
        self.count
    }

    /// An inactive alarm; its output starts low.
    pub fn new() -> (r: Alarm)
        ensures
            !r.active(),
            r.count() == 0,
    {
        Alarm { active: false, count: 0 }
    }

    /// Switches the alarm on or off; returns whether that changed its state.
    pub fn activate(&mut self, active: bool) -> (changed: bool)
        ensures
            final(self).active() == active,
            final(self).count() == old(self).count(),
            changed == (old(self).active() != active),
    {
        proof {
            use_type_invariant(&*self);
        }
        let changed = self.active != active;
        self.active = active;
        changed
    }

    /// Advances the alarm by 100 ms; returns whether the output is high.
    pub fn run_100ms(&mut self) -> (high: bool)
        ensures
            final(self).active() == old(self).active(),
            final(self).count() < ALARM_ON_TIME + ALARM_OFF_TIME,
            old(self).active() ==> high == level_high(old(self).count()) && final(self).count()
                == next_count(old(self).count()),
            !old(self).active() ==> !high && final(self).count() == 0,
    {
        proof {
            use_type_invariant(&*self);
        }
        let high;
        if self.active {
            if self.count < ALARM_ON_TIME || ALARM_OFF_TIME == 0 {
                high = true;
            } else {
                high = false;
            }
            self.count = (self.count + 1) % (ALARM_ON_TIME + ALARM_OFF_TIME);
        } else {
            high = false;
            self.count = 0;
        }
        high
    }

    /// While the alarm stays active, the output is high for the first
    /// `ALARM_ON_TIME` steps of every period of `ALARM_ON_TIME + ALARM_OFF_TIME`
    /// steps, and low for the rest.
    pub proof fn lemma_period(count: u32)
        requires
            count < ALARM_ON_TIME + ALARM_OFF_TIME,
        ensures
            next_count(count) == if count + 1 == ALARM_ON_TIME + ALARM_OFF_TIME { 0 } else { count + 1 },
            level_high(count) <==> count < ALARM_ON_TIME,
    {
        if count + 1 == ALARM_ON_TIME + ALARM_OFF_TIME {
            vstd::arithmetic::div_mod::lemma_mod_self_0((ALARM_ON_TIME + ALARM_OFF_TIME) as int);
        } else {
            vstd::arithmetic::div_mod::lemma_small_mod((count + 1) as nat, (ALARM_ON_TIME + ALARM_OFF_TIME) as nat);
        }
    }
}

} // verus!
