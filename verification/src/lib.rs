//! Core logic of a small resident alarm clock: alarm-file parsing, the
//! history of rung alarms, the "next alarm" label, the per-minute firing
//! decision and the beeper's schedule.

pub mod alarm;
pub mod beep;
pub mod clock;
pub mod history;
pub mod label;
pub mod text;
