//! What the kernel reads from the boot loader's information block, as plain
//! values: the areas of available memory, the sections of the kernel image
//! and the place of the block itself.

use vstd::prelude::*;

verus! {

/// An area of available physical memory.
#[derive(Clone, Copy, Debug, PartialEq, Eq, Structural)]
pub struct MemoryArea {
    pub base_addr: u64,
    pub length: u64,
}

impl MemoryArea {
    /// The area's last byte has an address, and that address fits into 64 bits.
    pub open spec fn in_bounds(&self) -> bool {
        1 <= self.base_addr + self.length <= 0x1_0000_0000_0000_0000
    }

    /// Number of the frame that holds the area's first byte.
    pub open spec fn first_frame(&self) -> nat {
        (self.base_addr / 4096) as nat
    }

    /// Number of the frame that holds the area's last byte.
    pub open spec fn last_frame(&self) -> nat {
        ((self.base_addr + self.length - 1) / 4096) as nat
    }

    /// Whether the frame with the given number lies in the area.
    pub open spec fn holds(&self, frame: nat) -> bool {
        self.first_frame() <= frame <= self.last_frame()
    }
}

/// Whether one of the areas holds the frame with the given number.
pub open spec fn areas_hold(areas: Seq<MemoryArea>, frame: nat) -> bool {
    exists|i: int| 0 <= i < areas.len() && (#[trigger] areas[i]).holds(frame)
}

/// The section is writable at run time.
pub const ELF_SECTION_WRITABLE: u64 = 0x1;

/// The section occupies memory at run time.
pub const ELF_SECTION_ALLOCATED: u64 = 0x2;

/// The section holds machine instructions.
pub const ELF_SECTION_EXECUTABLE: u64 = 0x4;

/// A section of the kernel image.
#[derive(Clone, Copy, Debug, PartialEq, Eq, Structural)]
pub struct ElfSection {
    pub addr: u64,
    pub size: u64,
    pub flags: u64,
}

impl ElfSection {
    pub open spec fn spec_is_allocated(&self) -> bool {
        self.flags & ELF_SECTION_ALLOCATED == ELF_SECTION_ALLOCATED
    }

    /// Address of the section's first byte.
    pub fn start_address(&self) -> (r: u64)
        ensures
            r == self.addr,
    {
        self.addr
    }

    /// Address after the section's last byte.
    pub fn end_address(&self) -> (r: u64)
        requires
            self.addr + self.size <= u64::MAX,
        ensures
            r == self.addr + self.size,
    {
        self.addr + self.size
    }

    /// The section's flags, as the boot loader gives them.
    pub fn flags(&self) -> (r: u64)
        ensures
            r == self.flags,
    {
        self.flags
    }

    /// Whether the section occupies memory at run time.
    #[verifier::when_used_as_spec(spec_is_allocated)]
    pub fn is_allocated(&self) -> (r: bool)
        ensures
            r == self.spec_is_allocated(),
    {
        self.flags & ELF_SECTION_ALLOCATED == ELF_SECTION_ALLOCATED
    }
}

/// The boot loader's information block.
#[derive(Debug)]
pub struct BootInformation {
    /// Address of the block's first byte.
    pub start_address: u64,
    /// Address after the block's last byte.
    pub end_address: u64,
    /// The areas of available memory.
    pub memory_areas: Vec<MemoryArea>,
    /// The sections of the kernel image.
    pub elf_sections: Vec<ElfSection>,
}

} // verus!
