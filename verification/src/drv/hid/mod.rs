//! Drivers of input devices

pub mod atkbd;

