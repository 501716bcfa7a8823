//! Humidity monitor: alarm state machines, sensor debouncing and a ring-buffer
//! log of length-prefixed records on a block device.

pub mod util;
pub mod errordeb;
pub mod config;
pub mod alarm;
pub mod basic;
pub mod logentry;
pub mod measlog;
pub mod meas_buffer;
pub mod statemachine;
pub mod envsensor;

pub mod sdlog;
