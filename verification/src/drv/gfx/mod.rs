//! Graphics drivers

pub mod vga;

