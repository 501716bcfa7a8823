//! Alarm decisions of the monitor, from a short-term buffer of the last
//! `MEAS_LEN` measurements and a long-term buffer of every `MEAS_LT_FACT`-th.

use vstd::prelude::*;
use crate::config::{
    D_HUM_LT_ALARM_ON_THRES, D_HUM_ST_ALARM_ON_THRES, HUM_ALARM_OFF_THRES, HUM_ALARM_ON_THRES,
    MEAS_LEN_S, MEAS_LT_FACT, OFF_SEC_THRES,
};
use crate::logentry::AlarmState;
use crate::meas_buffer::{buffered_values, meas_new, meas_len, meas_pop_front, meas_push_back, meas_front, meas_back};

verus! {

/// Measurement interval, in milliseconds.
pub const MEAS_INTERVAL_MS: u32 = 1_000;

/// Measurement buffer length, in entries: `MEAS_LEN_S` seconds of
/// measurements, rounded up.
pub const MEAS_LEN: usize = ((MEAS_LEN_S * 1_000 + MEAS_INTERVAL_MS - 1) / MEAS_INTERVAL_MS) as usize;

/// Minimum number of measurements in the short-term buffer before
/// evaluation starts: `min(MEAS_LEN, 10)` (`lemma_meas_min_fill`).
pub const MEAS_MIN_FILL: usize = 10;

/// The minimum fill is the smaller of the buffer length and 10, and the
/// buffer holds `MEAS_LEN_S` seconds of measurements, rounded up.
pub proof fn lemma_meas_min_fill()
    ensures
        MEAS_MIN_FILL == (if MEAS_LEN < 10 { MEAS_LEN } else { 10 }),
        0 < MEAS_MIN_FILL <= MEAS_LEN,
        MEAS_LEN * MEAS_INTERVAL_MS >= MEAS_LEN_S * 1_000,
        (MEAS_LEN - 1) * MEAS_INTERVAL_MS < MEAS_LEN_S * 1_000,
{
}

/// The alarm and off counter after one evaluation with the newest humidity
/// `rel_hum` and the rises `d_st` and `d_lt` across the two buffers.
pub open spec fn next_state(alarm: AlarmState, off_sec: u32, rel_hum: u32, d_st: int, d_lt: int) -> (AlarmState, u32) {
    if rel_hum > HUM_ALARM_ON_THRES {
        (AlarmState::OnThres, 0)
    } else if d_st > D_HUM_ST_ALARM_ON_THRES {
        (AlarmState::OnStThres, 0)
    } else if d_lt > D_HUM_LT_ALARM_ON_THRES {
        (AlarmState::OnLtThres, 0)
    } else if rel_hum < HUM_ALARM_OFF_THRES {
        if off_sec >= OFF_SEC_THRES {
            (AlarmState::Off, off_sec)
        } else {
            (alarm, (off_sec + 1) as u32)
        }
    } else {
        (alarm, 0)
    }
}

/// The values of a buffer after adding `v`, dropping the oldest beyond
/// `MEAS_LEN - 1`.
pub open spec fn pushed(values: Seq<u32>, v: u32) -> Seq<u32> {
    if values.len() >= MEAS_LEN {
        values.skip(values.len() - (MEAS_LEN - 1)).push(v)
    } else {
        values.push(v)
    }
}

/// What one evaluation saw, for reporting.
pub struct Evaluation {
    /// The short-term buffer reached `MEAS_MIN_FILL` values with this evaluation.
    pub just_filled: bool,
    /// The alarm was decided on.
    pub evaluated: bool,
    /// The newest relative humidity.
    pub rel_hum: u32,
    /// The rise of relative humidity across the short-term buffer.
    pub d_hum_st: i64,
    /// The rise of relative humidity across the long-term buffer.
    pub d_hum_lt: i64,
    /// The alarm before the evaluation.
    pub alarm: AlarmState,
    /// The off counter before the evaluation.
    pub off_sec: u32,
}

pub struct StateMachine {
    meas_st: heapless::Deque<u32, MEAS_LEN>,
    meas_lt: heapless::Deque<u32, MEAS_LEN>,
    meas_lt_count: usize,
    alarm: AlarmState,
    filled: bool,
    off_sec: u32,
}

impl StateMachine {
    /// The relative humidity of the short-term buffer, oldest first.
    pub closed spec fn short_term(&self) -> Seq<u32> {
        buffered_values(self.meas_st)
    }

    /// The relative humidity of the long-term buffer, oldest first.
    pub closed spec fn long_term(&self) -> Seq<u32> {
        buffered_values(self.meas_lt)
    }

    /// Measurements fed since the last one that went into the long-term buffer.
    pub closed spec fn lt_count(&self) -> usize {
        self.meas_lt_count
    }

    /// The state of the alarm.
    pub closed spec fn alarm(&self) -> AlarmState {
        self.alarm
    }

    /// Whether the short-term buffer has held `MEAS_MIN_FILL` values.
    pub closed spec fn filled(&self) -> bool {
        self.filled
    }

    /// Number of evaluations in a row below the off threshold, up to `OFF_SEC_THRES`.
    pub closed spec fn off_sec(&self) -> u32 {
        self.off_sec
    }

    /// The buffers stay within their length, and the counters within their range.
    pub closed spec fn inv(&self) -> bool {
        &&& self.short_term().len() <= MEAS_LEN
        &&& self.long_term().len() <= MEAS_LEN
        &&& self.meas_lt_count < MEAS_LT_FACT
        &&& self.off_sec <= OFF_SEC_THRES
    }

    /// A state machine with empty buffers and the alarm off.
    pub fn new() -> (r: StateMachine)
        ensures
            r.inv(),
            r.short_term() == Seq::<u32>::empty(),
            r.long_term() == Seq::<u32>::empty(),
            r.lt_count() == 0,
            r.alarm() == AlarmState::Off,
            !r.filled(),
            r.off_sec() == 0,
    {
        StateMachine {
            meas_st: meas_new(),
            meas_lt: meas_new(),
            meas_lt_count: 0,
            alarm: AlarmState::Off,
            filled: false,
            off_sec: 0,
        }
    }

    fn push_meas(meas: &mut heapless::Deque<u32, MEAS_LEN>, rel_hum: u32)
        requires
            buffered_values(*old(meas)).len() <= MEAS_LEN,
        ensures
            buffered_values(*final(meas)) == pushed(buffered_values(*old(meas)), rel_hum),
            buffered_values(*final(meas)).len() <= MEAS_LEN,
    {
        let ghost m0 = buffered_values(*meas);
        while meas_len(meas) >= MEAS_LEN
            invariant
                buffered_values(*meas).len() <= MEAS_LEN,
                m0.len() <= MEAS_LEN,
                m0.len() >= MEAS_LEN ==> buffered_values(*meas) == m0.skip(m0.len() - buffered_values(*meas).len()),
                m0.len() < MEAS_LEN ==> buffered_values(*meas) == m0,
                buffered_values(*meas).len() >= MEAS_LEN - 1 || m0.len() < MEAS_LEN,
            decreases buffered_values(*meas).len(),
        {
            let _ = meas_pop_front(meas);
            assert(buffered_values(*meas) =~= m0.skip(m0.len() - buffered_values(*meas).len()));
        }
        let result = meas_push_back(meas, rel_hum);
        if result.is_err() {
            // Unreachable: the buffer has room after dropping the oldest values.
            assert(false);
        }
    }

    /// Adds the humidity of a measurement to the short-term buffer, and to the
    /// long-term buffer every `MEAS_LT_FACT`-th time.
    pub fn feed_env_1000ms(&mut self, rel_hum: u32)
        requires
            old(self).inv(),
        ensures
            final(self).inv(),
            final(self).short_term() == pushed(old(self).short_term(), rel_hum),
            final(self).long_term() == if old(self).lt_count() == 0 {
                pushed(old(self).long_term(), rel_hum)
            } else {
                old(self).long_term()
            },
            final(self).lt_count() == (old(self).lt_count() + 1) % (MEAS_LT_FACT as int),
            final(self).alarm() == old(self).alarm(),
            final(self).filled() == old(self).filled(),
            final(self).off_sec() == old(self).off_sec(),
    {
        Self::push_meas(&mut self.meas_st, rel_hum);
        if self.meas_lt_count == 0 {
            Self::push_meas(&mut self.meas_lt, rel_hum);
        }
        self.meas_lt_count = (self.meas_lt_count + 1) % MEAS_LT_FACT;
    }

    /// Decides the alarm from the buffers, once the short-term buffer has
    /// held `MEAS_MIN_FILL` values.
    pub fn evaluate_1000ms(&mut self) -> (e: Evaluation)
        requires
            old(self).inv(),
        ensures
            final(self).inv(),
            final(self).short_term() == old(self).short_term(),
            final(self).long_term() == old(self).long_term(),
            final(self).lt_count() == old(self).lt_count(),
            final(self).filled() == (old(self).filled() || old(self).short_term().len() >= MEAS_MIN_FILL),
            e.just_filled == (!old(self).filled() && old(self).short_term().len() >= MEAS_MIN_FILL),
            e.alarm == old(self).alarm(),
            e.off_sec == old(self).off_sec(),
            e.evaluated == (final(self).filled() && old(self).short_term().len() > 0
                && old(self).long_term().len() > 0),
            e.evaluated ==> {
                let st = old(self).short_term();
                let lt = old(self).long_term();
                &&& e.rel_hum == st.last()
                &&& e.d_hum_st == st.last() - st[0]
                &&& e.d_hum_lt == lt.last() - lt[0]
                &&& (final(self).alarm(), final(self).off_sec()) == next_state(
                    old(self).alarm(),
                    old(self).off_sec(),
                    st.last(),
                    st.last() - st[0],
                    lt.last() - lt[0],
                )
            },
            !e.evaluated ==> final(self).alarm() == old(self).alarm() && final(self).off_sec()
                == old(self).off_sec(),
    {
        let mut e = Evaluation {
            just_filled: false,
            evaluated: false,
            rel_hum: 0,
            d_hum_st: 0,
            d_hum_lt: 0,
            alarm: self.alarm,
            off_sec: self.off_sec,
        };
        if !self.filled && meas_len(&self.meas_st) >= MEAS_MIN_FILL {
            self.filled = true;
            e.just_filled = true;
        }
        if self.filled {
            if let (Some(st_front), Some(st_back), Some(lt_front), Some(lt_back)) = (
                meas_front(&self.meas_st),
                meas_back(&self.meas_st),
                meas_front(&self.meas_lt),
                meas_back(&self.meas_lt),
            ) {
                let rel_hum = st_back;
                let d_hum_st = st_back as i64 - st_front as i64;
                let d_hum_lt = lt_back as i64 - lt_front as i64;
                e.evaluated = true;
                e.rel_hum = rel_hum;
                e.d_hum_st = d_hum_st;
                e.d_hum_lt = d_hum_lt;
                if rel_hum > HUM_ALARM_ON_THRES {
                    self.alarm = AlarmState::OnThres;
                    self.off_sec = 0;
                } else if d_hum_st > D_HUM_ST_ALARM_ON_THRES as i64 {
                    self.alarm = AlarmState::OnStThres;
                    self.off_sec = 0;
                } else if d_hum_lt > D_HUM_LT_ALARM_ON_THRES as i64 {
                    self.alarm = AlarmState::OnLtThres;
                    self.off_sec = 0;
                } else if rel_hum < HUM_ALARM_OFF_THRES {
                    if self.off_sec >= OFF_SEC_THRES {
                        self.alarm = AlarmState::Off;
                    } else {
                        self.off_sec += 1;
                    }
                } else {
                    self.off_sec = 0;
                }
            }
        }
        e
    }

    /// The state of the alarm.
    pub fn alarm_state(&self) -> (r: AlarmState)
        ensures
            r == self.alarm(),
    {
        self.alarm
    }
}


/// A reading, as the state machine sees it: the newest relative humidity and
/// the rises across the short-term and the long-term buffer.
pub struct Reading {
    pub rel_hum: u32,
    pub d_st: int,
    pub d_lt: int,
}

/// Whether a reading turns the alarm on.
pub open spec fn triggers(r: Reading) -> bool {
    r.rel_hum > HUM_ALARM_ON_THRES || r.d_st > D_HUM_ST_ALARM_ON_THRES || r.d_lt
        > D_HUM_LT_ALARM_ON_THRES
}

/// Whether a reading counts towards turning the alarm off.
pub open spec fn quiet(r: Reading) -> bool {
    !triggers(r) && r.rel_hum < HUM_ALARM_OFF_THRES
}

/// The alarm and off counter after evaluating `readings` in order.
pub open spec fn run(alarm: AlarmState, off_sec: u32, readings: Seq<Reading>) -> (AlarmState, u32)
    decreases readings.len(),
{
    if readings.len() == 0 {
        (alarm, off_sec)
    } else {
        let (a, o) = run(alarm, off_sec, readings.drop_last());
        let r = readings.last();
        next_state(a, o, r.rel_hum, r.d_st, r.d_lt)
    }
}

/// Number of quiet readings at the end of `readings`.
pub open spec fn trailing_quiet(readings: Seq<Reading>) -> nat
    decreases readings.len(),
{
    if readings.len() == 0 {
        0
    } else if quiet(readings.last()) {
        trailing_quiet(readings.drop_last()) + 1
    } else {
        0
    }
}

proof fn lemma_trailing_quiet(readings: Seq<Reading>, m: nat)
    requires
        trailing_quiet(readings) >= m,
    ensures
        m <= readings.len(),
        forall|i: int| readings.len() - m <= i < readings.len() ==> quiet(#[trigger] readings[i]),
    decreases readings.len(),
{
    if m > 0 {
        lemma_trailing_quiet(readings.drop_last(), (m - 1) as nat);
        assert forall|i: int| readings.len() - m <= i < readings.len() implies quiet(#[trigger] readings[i]) by {
            if i < readings.len() - 1 {
                assert(readings[i] == readings.drop_last()[i]);
            }
        }
    }
}

/// The `OFF_SEC_THRES + 1` readings before position `k` are all quiet.
pub open spec fn quiet_window(readings: Seq<Reading>, k: int) -> bool {
    &&& OFF_SEC_THRES + 1 <= k <= readings.len()
    &&& forall|i: int| k - (OFF_SEC_THRES + 1) <= i < k ==> quiet(#[trigger] readings[i])
}

/// The off counter never exceeds the number of quiet readings at the end.
proof fn lemma_off_sec_counts_quiet(alarm: AlarmState, readings: Seq<Reading>)
    ensures
        run(alarm, 0, readings).1 <= trailing_quiet(readings),
        run(alarm, 0, readings).1 <= OFF_SEC_THRES,
    decreases readings.len(),
{
    if readings.len() > 0 {
        lemma_off_sec_counts_quiet(alarm, readings.drop_last());
    }
}

/// Once the alarm is on, it goes off only after `OFF_SEC_THRES + 1` quiet
/// readings in a row: readings that trigger nothing and show relative
/// humidity below the off threshold.
pub proof fn lemma_off_only_after_quiet_period(alarm: AlarmState, readings: Seq<Reading>)
    requires
        alarm != AlarmState::Off,
    ensures
        run(alarm, 0, readings).0 == AlarmState::Off ==> exists|k: int| #[trigger] quiet_window(readings, k),
    decreases readings.len(),
{
    if readings.len() > 0 && run(alarm, 0, readings).0 == AlarmState::Off {
        let prefix = readings.drop_last();
        if run(alarm, 0, prefix).0 == AlarmState::Off {
            lemma_off_only_after_quiet_period(alarm, prefix);
            let k = choose|k: int| #[trigger] quiet_window(prefix, k);
            assert forall|i: int| k - (OFF_SEC_THRES + 1) <= i < k implies quiet(#[trigger] readings[i]) by {
                assert(readings[i] == prefix[i]);
            }
            assert(quiet_window(readings, k));
        } else {
            lemma_off_sec_counts_quiet(alarm, prefix);
            lemma_trailing_quiet(prefix, OFF_SEC_THRES as nat);
            let k = readings.len() as int;
            assert forall|i: int| k - (OFF_SEC_THRES + 1) <= i < k implies quiet(#[trigger] readings[i]) by {
                if i < k - 1 {
                    assert(readings[i] == prefix[i]);
                }
            }
            assert(quiet_window(readings, k));
        }
    }
}

/// At the evaluation that turns the alarm off, the last `OFF_SEC_THRES + 1`
/// readings, that one included, were all quiet: none triggered the alarm and
/// each showed relative humidity below the off threshold.
pub proof fn lemma_turns_off_after_quiet_tail(alarm: AlarmState, readings: Seq<Reading>)
    requires
        readings.len() > 0,
        run(alarm, 0, readings.drop_last()).0 != AlarmState::Off,
        run(alarm, 0, readings).0 == AlarmState::Off,
    ensures
        quiet_window(readings, readings.len() as int),
{
    let prefix = readings.drop_last();
    let k = readings.len() as int;
    lemma_off_sec_counts_quiet(alarm, prefix);
    lemma_trailing_quiet(prefix, OFF_SEC_THRES as nat);
    assert forall|i: int| k - (OFF_SEC_THRES + 1) <= i < k implies quiet(#[trigger] readings[i]) by {
        if i < k - 1 {
            assert(readings[i] == prefix[i]);
        }
    }
}

/// How one evaluation decides the alarm, for every previous alarm, off
/// counter, humidity and rises:
/// - humidity above the on threshold turns the alarm on as `OnThres`;
/// - otherwise a short-term rise above its threshold turns it on as
///   `OnStThres`;
/// - otherwise a long-term rise above its threshold turns it on as
///   `OnLtThres`;
/// each of these clears the off counter. With no rise above its threshold
/// and humidity not above the on threshold, the alarm either stays as it
/// was or goes off, and it goes off only from a full off counter and a
/// humidity below the off threshold; at or above the off threshold it stays
/// and the off counter is cleared.
pub proof fn lemma_alarm_decision(alarm: AlarmState, off_sec: u32, rel_hum: u32, d_st: int, d_lt: int)
    ensures
        rel_hum > HUM_ALARM_ON_THRES ==> next_state(alarm, off_sec, rel_hum, d_st, d_lt) == (AlarmState::OnThres, 0u32),
        rel_hum <= HUM_ALARM_ON_THRES && d_st > D_HUM_ST_ALARM_ON_THRES ==> next_state(alarm, off_sec, rel_hum, d_st, d_lt)
            == (AlarmState::OnStThres, 0u32),
        rel_hum <= HUM_ALARM_ON_THRES && d_st <= D_HUM_ST_ALARM_ON_THRES && d_lt > D_HUM_LT_ALARM_ON_THRES
            ==> next_state(alarm, off_sec, rel_hum, d_st, d_lt) == (AlarmState::OnLtThres, 0u32),
        rel_hum <= HUM_ALARM_ON_THRES && d_st <= D_HUM_ST_ALARM_ON_THRES && d_lt <= D_HUM_LT_ALARM_ON_THRES ==> {
            let (a, o) = next_state(alarm, off_sec, rel_hum, d_st, d_lt);
            &&& a == alarm || a == AlarmState::Off
            &&& a == AlarmState::Off && alarm != AlarmState::Off ==> rel_hum < HUM_ALARM_OFF_THRES && off_sec >= OFF_SEC_THRES
            &&& rel_hum < HUM_ALARM_OFF_THRES && off_sec >= OFF_SEC_THRES ==> a == AlarmState::Off
            &&& rel_hum < HUM_ALARM_OFF_THRES && off_sec < OFF_SEC_THRES ==> a == alarm && o == off_sec + 1
            &&& rel_hum >= HUM_ALARM_OFF_THRES ==> a == alarm && o == 0
        },
{
}

/// The relative humidity of the measurements that feeding `xs` in order,
/// from empty buffers, leaves in the short-term buffer.
pub open spec fn fed(xs: Seq<u32>) -> Seq<u32>
    decreases xs.len(),
{
    if xs.len() == 0 {
        Seq::empty()
    } else {
        pushed(fed(xs.drop_last()), xs.last())
    }
}

/// Adding a value to a buffer of at most `MEAS_LEN` values keeps the last
/// `min(len + 1, MEAS_LEN)` of the values followed by the new one.
pub proof fn lemma_pushed_keeps_last(values: Seq<u32>, v: u32)
    requires
        values.len() <= MEAS_LEN,
    ensures
        pushed(values, v).len() == if values.len() + 1 < MEAS_LEN { (values.len() + 1) as int } else { MEAS_LEN as int },
        pushed(values, v) == values.push(v).skip(values.len() + 1 - pushed(values, v).len()),
{
    assert(pushed(values, v) =~= values.push(v).skip(values.len() + 1 - pushed(values, v).len()));
}

/// The short-term buffer holds exactly the last `MEAS_LEN` values fed, or
/// all of them while fewer were fed.
pub proof fn lemma_buffer_holds_last_values(xs: Seq<u32>)
    ensures
        fed(xs).len() == if xs.len() < MEAS_LEN { xs.len() as int } else { MEAS_LEN as int },
        fed(xs) == xs.skip(xs.len() - fed(xs).len()),
    decreases xs.len(),
{
    if xs.len() > 0 {
        let prev = xs.drop_last();
        lemma_buffer_holds_last_values(prev);
        lemma_pushed_keeps_last(fed(prev), xs.last());
        assert(prev.skip(prev.len() - fed(prev).len()).push(xs.last()) =~= xs.skip(xs.len() - fed(prev).len() - 1));
        assert(fed(xs) =~= xs.skip(xs.len() - fed(xs).len()));
    }
}

} // verus!
