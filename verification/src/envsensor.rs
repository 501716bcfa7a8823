//! Checks on environment sensor readings: the first readings after start-up
//! and after a sample error are skipped, implausible readings are refused,
//! and persistent errors are fatal.

use vstd::prelude::*;
use crate::errordeb::{ErrorDeb, count_after_error};

verus! {

/// Readings skipped after start-up and after a sample error.
pub const NUM_SKIP: u8 = 2;

/// Plausible temperatures, in thousandths of °C.
pub const TEMP_C_MIN: i32 = -40_000;
pub const TEMP_C_MAX: i32 = 80_000;

/// Plausible pressures, in thousandths of hPa.
pub const PRES_HPA_MIN: u32 = 900_000;
pub const PRES_HPA_MAX: u32 = 1_100_000;

/// Plausible relative humidity, in millionths of saturation.
pub const REL_HUM_MIN: u32 = 0;
pub const REL_HUM_MAX: u32 = 1_000_000;

/// One reading: temperature in thousandths of °C, pressure in thousandths
/// of hPa, relative humidity in millionths of saturation.
#[derive(Clone, Copy, Debug, Default)]
pub struct EnvSensorResult {
    pub temp_c: i32,
    pub pres_hpa: u32,
    pub rel_hum: u32,
}

/// What was wrong with a reading.
#[derive(Clone, Copy, Debug, PartialEq, Eq, Structural)]
pub enum Fault {
    /// The sensor could not be read.
    Read,
    Temperature,
    Pressure,
    Humidity,
}

/// The outcome of a check.
#[derive(Clone, Copy, Debug)]
pub enum Verdict {
    /// The reading is plausible.
    Accept(EnvSensorResult),
    /// The reading is dropped.
    Reject(Fault),
    /// The errors are persistent: the monitor stops.
    Fatal(Fault),
}

/// The first implausible value of a reading, if any.
pub open spec fn fault_of(r: EnvSensorResult) -> Option<Fault> {
    if r.temp_c < TEMP_C_MIN || r.temp_c > TEMP_C_MAX {
        Some(Fault::Temperature)
    } else if r.pres_hpa < PRES_HPA_MIN || r.pres_hpa > PRES_HPA_MAX {
        Some(Fault::Pressure)
    } else if r.rel_hum < REL_HUM_MIN || r.rel_hum > REL_HUM_MAX {
        Some(Fault::Humidity)
    } else {
        None
    }
}

pub struct SensorCheck {
    error: ErrorDeb<3, 5>,
    skip: u8,
}

impl SensorCheck {
    /// Readings still to be skipped.
    pub closed spec fn skip(&self) -> u8 {
        self.skip
    }

    /// The weighted count of recent errors.
    pub closed spec fn error_count(&self) -> u8 {
        self.error.count()
    }

    /// Checks that start by skipping `NUM_SKIP` readings, with no errors seen.
    pub fn new() -> (r: SensorCheck)
        ensures
            r.skip() == NUM_SKIP,
            r.error_count() == 0,
    {
        SensorCheck { error: ErrorDeb::new(), skip: NUM_SKIP }
    }

    /// Whether the next reading is to be taken; counts down the readings to skip.
    pub fn begin_read(&mut self) -> (take: bool)
        ensures
            take == (old(self).skip() == 0),
            final(self).skip() == if old(self).skip() > 0 { old(self).skip() - 1 } else { 0 },
            final(self).error_count() == old(self).error_count(),
    {
        if self.skip > 0 {
            self.skip -= 1;
            return false;
        }
        true
    }

    /// Records that the sensor could not be read; `sample_error` tells a
    /// failed sample, after which readings are skipped again.
    pub fn read_failed(&mut self, sample_error: bool) -> (v: Verdict)
        ensures
            final(self).error_count() == count_after_error(old(self).error_count() as nat, 3),
            final(self).error_count() >= 15 ==> v == Verdict::Fatal(Fault::Read),
            final(self).error_count() < 15 ==> v == Verdict::Reject(Fault::Read),
            final(self).error_count() < 15 && sample_error ==> final(self).skip() == NUM_SKIP,
            !(final(self).error_count() < 15 && sample_error) ==> final(self).skip() == old(self).skip(),
    {
        if self.error.error() {
            return Verdict::Fatal(Fault::Read);
        }
        if sample_error {
            self.skip = NUM_SKIP;
        }
        Verdict::Reject(Fault::Read)
    }

    /// Checks a reading; an implausible one counts as an error, a plausible
    /// one as a success.
    pub fn check(&mut self, r: EnvSensorResult) -> (v: Verdict)
        ensures
            final(self).skip() == old(self).skip(),
            match fault_of(r) {
                Some(f) => {
                    &&& final(self).error_count() == count_after_error(old(self).error_count() as nat, 3)
                    &&& final(self).error_count() >= 15 ==> v == Verdict::Fatal(f)
                    &&& final(self).error_count() < 15 ==> v == Verdict::Reject(f)
                },
                None => {
                    &&& final(self).error_count() == if old(self).error_count() == 0 { 0 } else { old(self).error_count() - 1 }
                    &&& v == Verdict::Accept(r)
                },
            },
    {
        let fault = if r.temp_c < TEMP_C_MIN || r.temp_c > TEMP_C_MAX {
            Some(Fault::Temperature)
        } else if r.pres_hpa < PRES_HPA_MIN || r.pres_hpa > PRES_HPA_MAX {
            Some(Fault::Pressure)
        } else if r.rel_hum < REL_HUM_MIN || r.rel_hum > REL_HUM_MAX {
            Some(Fault::Humidity)
        } else {
            None
        };
        match fault {
            Some(f) => {
                if self.error.error() {
                    Verdict::Fatal(f)
                } else {
                    Verdict::Reject(f)
                }
            },
            None => {
                self.error.ok();
                Verdict::Accept(r)
            },
        }
    }
}

/// A reading is plausible exactly when its temperature lies in -40..=80 °C,
/// its pressure in 900..=1100 hPa and its relative humidity in 0..=100 %rel;
/// an implausible one is refused for the first of the three that is out of
/// its range.
pub proof fn lemma_plausible_readings(r: EnvSensorResult)
    ensures
        fault_of(r) is None <==> (-40_000 <= r.temp_c <= 80_000 && 900_000 <= r.pres_hpa <= 1_100_000
            && r.rel_hum <= 1_000_000),
        !(-40_000 <= r.temp_c <= 80_000) ==> fault_of(r) == Some(Fault::Temperature),
        -40_000 <= r.temp_c <= 80_000 && !(900_000 <= r.pres_hpa <= 1_100_000) ==> fault_of(r) == Some(Fault::Pressure),
        -40_000 <= r.temp_c <= 80_000 && 900_000 <= r.pres_hpa <= 1_100_000 && r.rel_hum > 1_000_000
            ==> fault_of(r) == Some(Fault::Humidity),
{
}

} // verus!
