//! Tunable parameters of the humidity monitor.
//!
//! Relative humidity is counted in millionths of saturation: 1_000_000 is
//! 100 %rel, and 10_000 is one percent.

use vstd::prelude::*;

verus! {

/// One percent of relative humidity.
pub const PERCENT: u32 = 10_000;

/// Whether the state of the system is reported on the console.
pub const PRINT_STATE: bool = true;

/// Length of the short-term measurement buffer, in seconds.
pub const MEAS_LEN_S: u32 = 120;

/// Every how many measurements one goes into the long-term buffer.
pub const MEAS_LT_FACT: usize = 10;

/// Relative humidity above which the alarm goes on.
pub const HUM_ALARM_ON_THRES: u32 = 70 * PERCENT;

/// Rise of relative humidity across the buffer that turns the alarm on
/// (single-buffer monitor).
pub const D_HUM_ALARM_ON_THRES: u32 = 5 * PERCENT;

/// Rise of relative humidity across the short-term buffer that turns the alarm on.
pub const D_HUM_ST_ALARM_ON_THRES: u32 = 5 * PERCENT;

/// Rise of relative humidity across the long-term buffer that turns the alarm on.
pub const D_HUM_LT_ALARM_ON_THRES: u32 = 10 * PERCENT;

/// Relative humidity below which the alarm may go off.
pub const HUM_ALARM_OFF_THRES: u32 = 50 * PERCENT;

/// Seconds that the humidity must stay below the off threshold before the
/// alarm goes off.
pub const OFF_SEC_THRES: u32 = 15;

/// Number of 100 ms periods that the alarm output is high (700 ms, rounded up).
pub const ALARM_ON_TIME: u32 = (700 + 99) / 100;

/// Number of 100 ms periods that the alarm output is low (3000 ms, rounded
/// up); with 0 the output stays high while the alarm is active.
pub const ALARM_OFF_TIME: u32 = (3000 + 99) / 100;

/// The configured values: alarm above 70 %rel or on a rise of more than
/// 5 %rel, off after 15 s below 50 %rel, a 120 s measurement buffer, and an
/// alarm output of 700 ms high and 3000 ms low.
pub proof fn lemma_configured_values()
    ensures
        HUM_ALARM_ON_THRES == 700_000,
        D_HUM_ALARM_ON_THRES == 50_000,
        HUM_ALARM_OFF_THRES == 500_000,
        OFF_SEC_THRES == 15,
        MEAS_LEN_S == 120,
        ALARM_ON_TIME == 7,
        ALARM_OFF_TIME == 30,
{
}

} // verus!
