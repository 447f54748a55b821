//! The memory and interrupt substrate of a small x86_64 kernel, verified
//! against an abstract machine.
//!
//! The machine (`mem::paging::Machine`) holds the physical frames that serve
//! as page tables and the register that names the active hierarchy. All table
//! edits go through virtual addresses that the machine resolves the way the
//! processor does, so the recursive self-mapping is part of what is proved.
//! The I/O ports (`kio::port::PortSpace`) and the text screen
//! (`drv::gfx::vga::text_buffer::VgaTextVideo`) are values of the same
//! kind: what the kernel does to the hardware is what it does to them.
//!
//! - `mem`: frames and pages, page table entries, the hierarchy of page
//!   tables and its mapper, the allocators of frames and of stacks, the
//!   remapping of the kernel and the set-up of the heap.
//! - `kio`: ports, the interrupt controller, the interrupt descriptor table
//!   and the kernel's output.
//! - `interrupts`: the tables that the processor needs to deliver
//!   interrupts.
//! - `dev`, `drv`: the text screen, the keyboard and the registry of
//!   devices.
//! - `shell`: the calculator and what the shell makes of keys and lines.
//! - `boot_info`: what the kernel reads from the boot loader.

pub mod boot_info;
pub mod dev;
pub mod drv;
pub mod interrupts;
pub mod kio;
pub mod mem;
pub mod shell;

