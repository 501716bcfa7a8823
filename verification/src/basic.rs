//! The basic monitor: one buffer of recent measurements, and an alarm that
//! is either on or off.

pub mod alarm;
pub mod statemachine;
