//! The record that the monitor logs once per measurement.

use vstd::prelude::*;
use crate::envsensor::EnvSensorResult;

verus! {

/// The state of the alarm, and what turned it on.
#[derive(Clone, Copy, Debug, PartialEq, Eq, Hash, Structural)]
pub enum AlarmState {
    Off,
    /// Relative humidity above the on threshold.
    OnThres,
    /// Short-term rise of relative humidity.
    OnStThres,
    /// Long-term rise of relative humidity.
    OnLtThres,
}

/// Marks a log entry as written by the monitor.
pub const LOG_ENTRY_VALID: u32 = 0xA5A5A5A5;

/// One logged measurement; temperature, pressure and relative humidity in
/// thousandths of °C, hPa and of saturation.
#[derive(Clone, Debug)]
pub struct LogEntry {
    valid: u32,
    pub boot_id: u32,
    pub serial: u32,
    pub temp_c: u32,
    pub pres_hpa: u32,
    pub rel_hum: u32,
    pub alarm: AlarmState,
}

impl LogEntry {
    /// The `boot_id` field.
    pub closed spec fn boot_id(&self) -> u32 {
        self.boot_id
    }

    /// The `serial` field.
    pub closed spec fn serial(&self) -> u32 {
        self.serial
    }

    /// The `temp_c` field.
    pub closed spec fn temp_c(&self) -> u32 {
        self.temp_c
    }

    /// The `pres_hpa` field.
    pub closed spec fn pres_hpa(&self) -> u32 {
        self.pres_hpa
    }

    /// The `rel_hum` field.
    pub closed spec fn rel_hum(&self) -> u32 {
        self.rel_hum
    }

    /// The `alarm` field.
    pub closed spec fn alarm(&self) -> AlarmState {
        self.alarm
    }

    /// The marker word of the entry.
    pub closed spec fn marker(&self) -> u32 {
        self.valid
    }

    /// A valid entry with the given values.
    pub fn new(boot_id: u32, serial: u32, temp_c: u32, pres_hpa: u32, rel_hum: u32, alarm: AlarmState) -> (r: LogEntry)
        ensures
            r.marker() == LOG_ENTRY_VALID,
            r.boot_id() == boot_id,
            r.serial() == serial,
            r.temp_c() == temp_c,
            r.pres_hpa() == pres_hpa,
            r.rel_hum() == rel_hum,
            r.alarm() == alarm,
    {
        LogEntry { valid: LOG_ENTRY_VALID, boot_id, serial, temp_c, pres_hpa, rel_hum, alarm }
    }

    /// The valid entry that logs `env`: temperatures below zero are stored as
    /// zero, and relative humidity in thousandths of saturation.
    pub fn from_reading(boot_id: u32, serial: u32, env: &EnvSensorResult, alarm: AlarmState) -> (r: LogEntry)
        ensures
            r.marker() == LOG_ENTRY_VALID,
            r.boot_id() == boot_id,
            r.serial() == serial,
            r.temp_c() == if env.temp_c < 0 { 0 } else { env.temp_c as u32 },
            r.pres_hpa() == env.pres_hpa,
            r.rel_hum() == env.rel_hum / 1000,
            r.alarm() == alarm,
    {
        let temp_c: u32 = if env.temp_c < 0 { 0 } else { env.temp_c as u32 };
        Self::new(boot_id, serial, temp_c, env.pres_hpa, env.rel_hum / 1000, alarm)
    }

    /// An entry with every field given, the marker word included, as it is
    /// read back from storage.
    pub fn from_parts(valid: u32, boot_id: u32, serial: u32, temp_c: u32, pres_hpa: u32, rel_hum: u32, alarm: AlarmState) -> (r: LogEntry)
        ensures
            r.marker() == valid,
            r.boot_id() == boot_id,
            r.serial() == serial,
            r.temp_c() == temp_c,
            r.pres_hpa() == pres_hpa,
            r.rel_hum() == rel_hum,
            r.alarm() == alarm,
    {
        LogEntry { valid, boot_id, serial, temp_c, pres_hpa, rel_hum, alarm }
    }

    /// The marker word of the entry.
    pub fn valid_word(&self) -> (r: u32)
        ensures
            r == self.marker(),
    {
        self.valid
    }

    /// Whether the entry carries the marker of the monitor.
    pub fn is_valid(&self) -> (r: bool)
        ensures
            r == (self.marker() == LOG_ENTRY_VALID),
    {
        self.valid == LOG_ENTRY_VALID
    }

    /// The largest size of a stored entry, length prefix included.
    pub fn max_size() -> (r: usize)
        ensures
            r == 255,
    {
        255
    }
}

} // verus!
