//! Alarm decisions of the basic monitor, from the relative humidity of the
//! last `MEAS_LEN` measurements.

use vstd::prelude::*;
use std::collections::VecDeque;
use crate::config::{D_HUM_ALARM_ON_THRES, HUM_ALARM_OFF_THRES, HUM_ALARM_ON_THRES, OFF_SEC_THRES};

verus! {

/// Measurement interval, in milliseconds.
pub const MEAS_INTERVAL_MS: u32 = 1_000;

/// Measurement buffer length, in milliseconds.
pub const MEAS_LEN_MS: u32 = 10_000;

/// Measurement buffer length, in entries.
pub const MEAS_LEN: usize = (MEAS_LEN_MS / MEAS_INTERVAL_MS) as usize;

/// The alarm and off counter after one evaluation with the newest humidity
/// `rel_hum` and the rise `d_hum` across the buffer.
pub open spec fn next_alarm(alarm: bool, off_sec: u32, rel_hum: u32, d_hum: int) -> (bool, u32) {
    if rel_hum > HUM_ALARM_ON_THRES || d_hum > D_HUM_ALARM_ON_THRES {
        (true, 0)
    } else if rel_hum < HUM_ALARM_OFF_THRES {
        if off_sec >= OFF_SEC_THRES {
            (false, off_sec)
        } else {
            (alarm, (off_sec + 1) as u32)
        }
    } else {
        (alarm, 0)
    }
}

/// The values of the buffer after adding `v`, dropping the oldest beyond
/// `MEAS_LEN - 1`.
pub open spec fn pushed(values: Seq<u32>, v: u32) -> Seq<u32> {
    if values.len() >= MEAS_LEN {
        values.skip(values.len() - (MEAS_LEN - 1)).push(v)
    } else {
        values.push(v)
    }
}

/// What one evaluation saw, for reporting.
pub struct Evaluation {
    /// The buffer became full with this evaluation.
    pub just_filled: bool,
    /// The alarm was decided on (the buffer has been full).
    pub evaluated: bool,
    /// The newest relative humidity.
    pub rel_hum: u32,
    /// The rise of relative humidity across the buffer.
    pub d_hum: i64,
    /// The alarm before the evaluation.
    pub alarm: bool,
    /// The off counter before the evaluation.
    pub off_sec: u32,
}

pub struct StateMachine {
    meas: VecDeque<u32>,
    alarm: bool,
    filled: bool,
    off_sec: u32,
}

impl StateMachine {
    /// The relative humidity of the buffered measurements, oldest first.
    pub closed spec fn measurements(&self) -> Seq<u32> {
        self.meas@
    }

    /// Whether the alarm is on.
    pub closed spec fn alarm(&self) -> bool {
        self.alarm
    }

    /// Whether the buffer has been full.
    pub closed spec fn filled(&self) -> bool {
        self.filled
    }

    /// Number of evaluations in a row below the off threshold, up to `OFF_SEC_THRES`.
    pub closed spec fn off_sec(&self) -> u32 {
        self.off_sec
    }

    /// The buffer stays within its length, and the counter within its range.
    pub closed spec fn inv(&self) -> bool {
        &&& self.meas@.len() <= MEAS_LEN
        &&& self.off_sec <= OFF_SEC_THRES
    }

    /// A state machine with an empty buffer and the alarm off.
    pub fn new() -> (r: StateMachine)
        ensures
            r.inv(),
            r.measurements() == Seq::<u32>::empty(),
            !r.alarm(),
            !r.filled(),
            r.off_sec() == 0,
    {
        StateMachine { meas: VecDeque::new(), alarm: false, filled: false, off_sec: 0 }
    }

    /// Adds the humidity of a measurement, dropping the oldest ones beyond
    /// `MEAS_LEN - 1`.
    pub fn feed_env_1000ms(&mut self, rel_hum: u32)
        requires
            old(self).inv(),
        ensures
            final(self).inv(),
            final(self).measurements() == pushed(old(self).measurements(), rel_hum),
            final(self).alarm() == old(self).alarm(),
            final(self).filled() == old(self).filled(),
            final(self).off_sec() == old(self).off_sec(),
    {
        let ghost m0 = self.meas@;
        while self.meas.len() >= MEAS_LEN
            invariant
                self.meas@.len() <= MEAS_LEN,
                m0.len() <= MEAS_LEN,
                m0.len() >= MEAS_LEN ==> self.meas@ == m0.skip(m0.len() - self.meas@.len()),
                m0.len() < MEAS_LEN ==> self.meas@ == m0,
                self.meas@.len() >= MEAS_LEN - 1 || m0.len() < MEAS_LEN,
                self.alarm == old(self).alarm,
                self.filled == old(self).filled,
                self.off_sec == old(self).off_sec,
                self.off_sec <= OFF_SEC_THRES,
            decreases self.meas@.len(),
        {
            let _ = self.meas.pop_front();
            assert(self.meas@ =~= m0.skip(m0.len() - self.meas@.len()));
        }
        self.meas.push_back(rel_hum);
    }

    /// Decides the alarm from the buffered measurements, once the buffer has
    /// been full.
    pub fn evaluate_1000ms(&mut self) -> (e: Evaluation)
        requires
            old(self).inv(),
        ensures
            final(self).inv(),
            final(self).measurements() == old(self).measurements(),
            final(self).filled() == (old(self).filled() || old(self).measurements().len() >= MEAS_LEN),
            e.just_filled == (!old(self).filled() && old(self).measurements().len() >= MEAS_LEN),
            e.alarm == old(self).alarm(),
            e.off_sec == old(self).off_sec(),
            e.evaluated == (final(self).filled() && old(self).measurements().len() > 0),
            e.evaluated ==> {
                let m = old(self).measurements();
                &&& e.rel_hum == m.last()
                &&& e.d_hum == m.last() - m[0]
                &&& (final(self).alarm(), final(self).off_sec()) == next_alarm(
                    old(self).alarm(),
                    old(self).off_sec(),
                    m.last(),
                    m.last() - m[0],
                )
            },
            !e.evaluated ==> final(self).alarm() == old(self).alarm() && final(self).off_sec()
                == old(self).off_sec(),
    {
        let mut e = Evaluation {
            just_filled: false,
            evaluated: false,
            rel_hum: 0,
            d_hum: 0,
            alarm: self.alarm,
            off_sec: self.off_sec,
        };
        if !self.filled && self.meas.len() >= MEAS_LEN {
            self.filled = true;
            e.just_filled = true;
        }
        let len = self.meas.len();
        if self.filled && len > 0 {
            let front = self.meas[0];
            let back = self.meas[len - 1];
            let rel_hum = back;
            let d_hum = back as i64 - front as i64;
            e.evaluated = true;
            e.rel_hum = rel_hum;
            e.d_hum = d_hum;
            if rel_hum > HUM_ALARM_ON_THRES || d_hum > D_HUM_ALARM_ON_THRES as i64 {
                self.alarm = true;
                self.off_sec = 0;
            } else if rel_hum < HUM_ALARM_OFF_THRES {
                if self.off_sec >= OFF_SEC_THRES {
                    self.alarm = false;
                } else {
                    self.off_sec += 1;
                }
            } else {
                self.off_sec = 0;
            }
        }
        e
    }

    /// Whether the alarm is on.
    pub fn alarm_active(&self) -> (r: bool)
        ensures
            r == self.alarm(),
    {
        self.alarm
    }
}


/// A reading, as the state machine sees it: the newest relative humidity and
/// the rise across the buffer.
pub struct Reading {
    pub rel_hum: u32,
    pub d_hum: int,
}

/// Whether a reading turns the alarm on.
pub open spec fn triggers(r: Reading) -> bool {
    r.rel_hum > HUM_ALARM_ON_THRES || r.d_hum > D_HUM_ALARM_ON_THRES
}

/// Whether a reading counts towards turning the alarm off.
pub open spec fn low(r: Reading) -> bool {
    !triggers(r) && r.rel_hum < HUM_ALARM_OFF_THRES
}

/// The alarm and off counter after evaluating `readings` in order.
pub open spec fn run(alarm: bool, off_sec: u32, readings: Seq<Reading>) -> (bool, u32)
    decreases readings.len(),
{
    if readings.len() == 0 {
        (alarm, off_sec)
    } else {
        let (a, o) = run(alarm, off_sec, readings.drop_last());
        next_alarm(a, o, readings.last().rel_hum, readings.last().d_hum)
    }
}

/// Number of low readings at the end of `readings`.
pub open spec fn trailing_low(readings: Seq<Reading>) -> nat
    decreases readings.len(),
{
    if readings.len() == 0 {
        0
    } else if low(readings.last()) {
        trailing_low(readings.drop_last()) + 1
    } else {
        0
    }
}

proof fn lemma_trailing_low(readings: Seq<Reading>, m: nat)
    requires
        trailing_low(readings) >= m,
    ensures
        m <= readings.len(),
        forall|i: int| readings.len() - m <= i < readings.len() ==> low(#[trigger] readings[i]),
    decreases readings.len(),
{
    if m > 0 {
        lemma_trailing_low(readings.drop_last(), (m - 1) as nat);
        assert forall|i: int| readings.len() - m <= i < readings.len() implies low(#[trigger] readings[i]) by {
            if i < readings.len() - 1 {
                assert(readings[i] == readings.drop_last()[i]);
            }
        }
    }
}

/// The `OFF_SEC_THRES + 1` readings before position `k` are all low.
pub open spec fn low_window(readings: Seq<Reading>, k: int) -> bool {
    &&& OFF_SEC_THRES + 1 <= k <= readings.len()
    &&& forall|i: int| k - (OFF_SEC_THRES + 1) <= i < k ==> low(#[trigger] readings[i])
}

/// The off counter never exceeds the number of low readings at the end.
proof fn lemma_off_sec_counts_low(alarm: bool, readings: Seq<Reading>)
    ensures
        run(alarm, 0, readings).1 <= trailing_low(readings),
        run(alarm, 0, readings).1 <= OFF_SEC_THRES,
    decreases readings.len(),
{
    if readings.len() > 0 {
        lemma_off_sec_counts_low(alarm, readings.drop_last());
    }
}

/// At the evaluation that turns the alarm off, the last `OFF_SEC_THRES + 1`
/// readings, that one included, were all low: none turned the alarm on and
/// each showed relative humidity below the off threshold.
pub proof fn lemma_turns_off_after_low_tail(alarm: bool, readings: Seq<Reading>)
    requires
        readings.len() > 0,
        run(alarm, 0, readings.drop_last()).0,
        !run(alarm, 0, readings).0,
    ensures
        low_window(readings, readings.len() as int),
{
    let prefix = readings.drop_last();
    let k = readings.len() as int;
    lemma_off_sec_counts_low(alarm, prefix);
    lemma_trailing_low(prefix, OFF_SEC_THRES as nat);
    assert forall|i: int| k - (OFF_SEC_THRES + 1) <= i < k implies low(#[trigger] readings[i]) by {
        if i < k - 1 {
            assert(readings[i] == prefix[i]);
        }
    }
}

/// Once the alarm is on, it goes off only after `OFF_SEC_THRES + 1` low
/// readings in a row.
pub proof fn lemma_off_only_after_low_readings(readings: Seq<Reading>)
    ensures
        !run(true, 0, readings).0 ==> exists|k: int| #[trigger] low_window(readings, k),
    decreases readings.len(),
{
    if readings.len() > 0 && !run(true, 0, readings).0 {
        let prefix = readings.drop_last();
        if !run(true, 0, prefix).0 {
            lemma_off_only_after_low_readings(prefix);
            let k = choose|k: int| #[trigger] low_window(prefix, k);
            assert forall|i: int| k - (OFF_SEC_THRES + 1) <= i < k implies low(#[trigger] readings[i]) by {
                assert(readings[i] == prefix[i]);
            }
            assert(low_window(readings, k));
        } else {
            lemma_turns_off_after_low_tail(true, readings);
        }
    }
}

/// How one evaluation decides the basic alarm, for every previous alarm,
/// off counter, humidity and rise: humidity above the on threshold, or a
/// rise above its threshold, turns the alarm on and clears the off counter.
/// Otherwise the alarm stays as it was or goes off, and it goes off only
/// from a full off counter and a humidity below the off threshold; at or
/// above the off threshold it stays and the off counter is cleared.
pub proof fn lemma_alarm_decision(alarm: bool, off_sec: u32, rel_hum: u32, d_hum: int)
    ensures
        rel_hum > HUM_ALARM_ON_THRES ==> next_alarm(alarm, off_sec, rel_hum, d_hum) == (true, 0u32),
        d_hum > D_HUM_ALARM_ON_THRES ==> next_alarm(alarm, off_sec, rel_hum, d_hum) == (true, 0u32),
        rel_hum <= HUM_ALARM_ON_THRES && d_hum <= D_HUM_ALARM_ON_THRES ==> {
            let (a, o) = next_alarm(alarm, off_sec, rel_hum, d_hum);
            &&& a == alarm || !a
            &&& !a && alarm ==> rel_hum < HUM_ALARM_OFF_THRES && off_sec >= OFF_SEC_THRES
            &&& rel_hum < HUM_ALARM_OFF_THRES && off_sec >= OFF_SEC_THRES ==> !a
            &&& rel_hum < HUM_ALARM_OFF_THRES && off_sec < OFF_SEC_THRES ==> a == alarm && o == off_sec + 1
            &&& rel_hum >= HUM_ALARM_OFF_THRES ==> a == alarm && o == 0
        },
{
}

/// The buffer spans `MEAS_LEN_MS` of measurements.
pub proof fn lemma_buffer_span()
    ensures
        MEAS_LEN * MEAS_INTERVAL_MS == MEAS_LEN_MS,
{
}

/// The relative humidity that feeding `xs` in order, from an empty buffer,
/// leaves in the buffer.
pub open spec fn fed(xs: Seq<u32>) -> Seq<u32>
    decreases xs.len(),
{
    if xs.len() == 0 {
        Seq::empty()
    } else {
        pushed(fed(xs.drop_last()), xs.last())
    }
}

/// Adding a value to a buffer of at most `MEAS_LEN` values keeps the last
/// `min(len + 1, MEAS_LEN)` of the values followed by the new one.
pub proof fn lemma_pushed_keeps_last(values: Seq<u32>, v: u32)
    requires
        values.len() <= MEAS_LEN,
    ensures
        pushed(values, v).len() == if values.len() + 1 < MEAS_LEN { (values.len() + 1) as int } else { MEAS_LEN as int },
        pushed(values, v) == values.push(v).skip(values.len() + 1 - pushed(values, v).len()),
{
    assert(pushed(values, v) =~= values.push(v).skip(values.len() + 1 - pushed(values, v).len()));
}

/// The buffer holds exactly the last `MEAS_LEN` values fed, or all of them
/// while fewer were fed.
pub proof fn lemma_buffer_holds_last_values(xs: Seq<u32>)
    ensures
        fed(xs).len() == if xs.len() < MEAS_LEN { xs.len() as int } else { MEAS_LEN as int },
        fed(xs) == xs.skip(xs.len() - fed(xs).len()),
    decreases xs.len(),
{
    if xs.len() > 0 {
        let prev = xs.drop_last();
        lemma_buffer_holds_last_values(prev);
        lemma_pushed_keeps_last(fed(prev), xs.last());
        assert(prev.skip(prev.len() - fed(prev).len()).push(xs.last()) =~= xs.skip(xs.len() - fed(prev).len() - 1));
        assert(fed(xs) =~= xs.skip(xs.len() - fed(xs).len()));
    }
}

} // verus!
