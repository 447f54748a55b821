[package]
name = "kernel"
version = "0.1.0"
edition = "2021"
publish = false

[dependencies]
bit_field = "=0.10.3"
bitflags = "=2.13.2"
lazy_static = "=1.5.1"
linked_list_allocator = "=0.10.6"
multiboot2 = "=0.28.0"
rlibc = "=1.0.0"
spin = "=0.12.3"
volatile = "=0.6.1"
x86_64 = { version = "=0.15.5", default-features = false, features = ["instructions"] }
