//! Drivers

pub mod gfx;
pub mod hid;

