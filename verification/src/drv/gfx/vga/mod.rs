//! VGA drivers

pub mod text_buffer;

