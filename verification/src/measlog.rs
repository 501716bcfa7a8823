//! The record of the measurement log of the monitor without alarm state.

use vstd::prelude::*;
use crate::logentry::LOG_ENTRY_VALID;

verus! {

/// Number of log entries that may wait in the queue of the log.
pub const QUEUE_LEN: usize = 61;

/// One logged measurement; temperature, pressure and relative humidity in
/// thousandths of °C, hPa and of saturation.
#[derive(Clone, Copy, Debug)]
pub struct LogEntry {
    valid: u32,
    pub boot_id: u32,
    pub serial: u32,
    pub temp_c: u32,
    pub pres_hpa: u32,
    pub rel_hum: u32,
}

impl LogEntry {
    /// The `boot_id` field.
    pub closed spec fn boot_id(&self) -> u32 {
        self.boot_id
    }

    /// The `serial` field.
    pub closed spec fn serial(&self) -> u32 {
        self.serial
    }

    /// The `temp_c` field.
    pub closed spec fn temp_c(&self) -> u32 {
        self.temp_c
    }

    /// The `pres_hpa` field.
    pub closed spec fn pres_hpa(&self) -> u32 {
        self.pres_hpa
    }

    /// The `rel_hum` field.
    pub closed spec fn rel_hum(&self) -> u32 {
        self.rel_hum
    }

    /// The marker word of the entry.
    pub closed spec fn marker(&self) -> u32 {
        self.valid
    }

    /// A valid entry with the given values.
    pub fn new(boot_id: u32, serial: u32, temp_c: u32, pres_hpa: u32, rel_hum: u32) -> (r: LogEntry)
        ensures
            r.marker() == LOG_ENTRY_VALID,
            r.boot_id() == boot_id,
            r.serial() == serial,
            r.temp_c() == temp_c,
            r.pres_hpa() == pres_hpa,
            r.rel_hum() == rel_hum,
    {
        LogEntry { valid: LOG_ENTRY_VALID, boot_id, serial, temp_c, pres_hpa, rel_hum }
    }

    /// An entry with every field given, the marker word included.
    pub fn from_parts(valid: u32, boot_id: u32, serial: u32, temp_c: u32, pres_hpa: u32, rel_hum: u32) -> (r: LogEntry)
        ensures
            r.marker() == valid,
            r.boot_id() == boot_id,
            r.serial() == serial,
            r.temp_c() == temp_c,
            r.pres_hpa() == pres_hpa,
            r.rel_hum() == rel_hum,
    {
        LogEntry { valid, boot_id, serial, temp_c, pres_hpa, rel_hum }
    }

    /// The marker word of the entry.
    pub fn valid_word(&self) -> (r: u32)
        ensures
            r == self.marker(),
    {
        self.valid
    }

    /// Whether the entry carries the marker of the monitor.
    pub fn is_valid(&self) -> (r: bool)
        ensures
            r == (self.marker() == LOG_ENTRY_VALID),
    {
        self.valid == LOG_ENTRY_VALID
    }

    /// The largest size of a stored entry, length prefix included.
    pub fn max_size() -> (r: usize)
        ensures
            r == 255,
    {
        255
    }
}


/// The largest card size that block indices of 32 bits can address, in bytes.
pub const MAX_SD_SIZE: u64 = 0xffff_ffff * 512;

/// The card size that the log uses: at most `MAX_SD_SIZE`; and whether the
/// card was larger.
pub fn usable_sd_size(sd_size: u64) -> (r: (u64, bool))
    ensures
        r.1 == (sd_size > MAX_SD_SIZE),
        r.0 == if r.1 { MAX_SD_SIZE } else { sd_size },
{
    if sd_size > MAX_SD_SIZE {
        (MAX_SD_SIZE, true)
    } else {
        (sd_size, false)
    }
}

/// The number of 512-byte blocks of a card of `sd_size` bytes, if it fits 32 bits.
pub fn card_num_blocks(sd_size: u64) -> (r: Option<u64>)
    ensures
        sd_size / 512 > 0xffff_ffff ==> r is None,
        sd_size / 512 <= 0xffff_ffff ==> r == Some(sd_size / 512),
{
    let num_blocks = sd_size / 512;
    if num_blocks > 0xffff_ffff {
        None
    } else {
        Some(num_blocks)
    }
}

/// A block index as the card addresses it, if it fits 32 bits.
pub fn card_block_index(index: u64) -> (r: Option<u32>)
    ensures
        index > 0xffff_ffff ==> r is None,
        index <= 0xffff_ffff ==> r == Some(index as u32),
{
    if index > 0xffff_ffff {
        None
    } else {
        Some(index as u32)
    }
}

} // verus!
