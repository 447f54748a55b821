//! Page table entries and their flags.

use vstd::prelude::*;

use super::frame::Frame;
use crate::boot_info::{
    ElfSection, ELF_SECTION_ALLOCATED, ELF_SECTION_EXECUTABLE, ELF_SECTION_WRITABLE,
};
use super::{start_of, PAGE_SIZE};

verus! {

/// Bits 12 to 51 of an entry hold the physical address of a frame.
pub const ENTRY_ADDR_MASK: u64 = 0x000f_ffff_ffff_f000;

/// Frames whose start address fits into an entry have a number below this.
pub const ENTRY_FRAME_LIMIT: u64 = 0x0000_0100_0000_0000;

/// Page table entry flags
///
/// Bits 9-11 and 52-62 of an entry can be freely used by the system and are
/// no flags; a flag set never holds them.
#[derive(Clone, Copy, Debug, PartialEq, Eq)]
pub struct EntryFlags {
    bits: u64,
}

impl View for EntryFlags {
    type V = u64;

    /// The flags as the bits of an entry.
    closed spec fn view(&self) -> u64 {
        self.bits
    }
}

/// Whether every bit of `flag` is set in `bits`.
pub open spec fn has_flag(bits: u64, flag: u64) -> bool {
    bits & flag == flag
}

impl EntryFlags {
    /// Page is currently in memory.
    pub const PRESENT: u64 = 0x001;

    /// Writing to this page is allowed.
    pub const WRITABLE: u64 = 0x002;

    /// Page is accessible from user mode.
    pub const USER_ACCESSIBLE: u64 = 0x004;

    /// Writes go directly to memory.
    pub const WRITE_THROUGH: u64 = 0x008;

    /// No cache is used for this page.
    pub const NO_CACHE: u64 = 0x010;

    /// CPU sets this bit when this page is used.
    pub const ACCESSED: u64 = 0x020;

    /// CPU sets this bit when this page is being written.
    pub const DIRTY: u64 = 0x040;

    /// Must be 0 in P1 and P4, creates a 1GiB page in P3, creates a 2MiB page in P2.
    pub const HUGE_PAGE: u64 = 0x080;

    /// Page isn't flushed from caches on address space switch.
    pub const GLOBAL: u64 = 0x100;

    /// Forbid executing code on this page (the NXE bit in the EFER register must be set).
    pub const NO_EXECUTE: u64 = 0x8000_0000_0000_0000;

    /// Every bit that is a flag.
    pub const ALL: u64 = 0x8000_0000_0000_01ff;

    #[verifier::type_invariant]
    spec fn inv(self) -> bool {
        self.bits & !Self::ALL == 0
    }

    /// The set without any flag.
    pub fn empty() -> (r: EntryFlags)
        ensures
            r@ == 0,
    {
        assert(0u64 & !0x8000_0000_0000_01ffu64 == 0) by (bit_vector);
        EntryFlags { bits: 0 }
    }

    /// The flags among `bits`; bits that are no flag are dropped.
    pub fn from_bits_truncate(bits: u64) -> (r: EntryFlags)
        ensures
            r@ == bits & Self::ALL,
    {
        let kept: u64 = bits & Self::ALL;
        assert((bits & 0x8000_0000_0000_01ffu64) & !0x8000_0000_0000_01ffu64 == 0)
            by (bit_vector);
        EntryFlags { bits: kept }
    }

    /// The flags as the bits of an entry.
    pub fn bits(&self) -> (r: u64)
        ensures
            r == self@,
            r & !Self::ALL == 0,
    {
        proof {
            use_type_invariant(self);
        }
        self.bits
    }

    /// Whether every flag of `other` is in this set.
    pub fn contains(&self, other: EntryFlags) -> (r: bool)
        ensures
            r == has_flag(self@, other@),
    {
        self.bits & other.bits == other.bits
    }

    /// Whether the flag (or every one of the flags) `flag` is in this set.
    pub fn has(&self, flag: u64) -> (r: bool)
        ensures
            r == has_flag(self@, flag),
    {
        self.bits & flag == flag
    }

    /// The set that holds the flag `PRESENT` alone.
    pub fn present() -> (r: EntryFlags)
        ensures
            r@ == Self::PRESENT,
            has_flag(r@, Self::PRESENT),
            !has_flag(r@, Self::WRITABLE),
            !has_flag(r@, Self::HUGE_PAGE),
            !has_flag(r@, Self::NO_EXECUTE),
    {
        proof {
            lemma_flag_bits();
        }
        EntryFlags::from_bits_truncate(Self::PRESENT)
    }

    /// The set that holds the flag `WRITABLE` alone.
    pub fn writable() -> (r: EntryFlags)
        ensures
            r@ == Self::WRITABLE,
            has_flag(r@, Self::WRITABLE),
            !has_flag(r@, Self::PRESENT),
            !has_flag(r@, Self::HUGE_PAGE),
            !has_flag(r@, Self::NO_EXECUTE),
    {
        proof {
            lemma_flag_bits();
        }
        EntryFlags::from_bits_truncate(Self::WRITABLE)
    }

    /// The set that holds the flag `NO_EXECUTE` alone.
    pub fn no_execute() -> (r: EntryFlags)
        ensures
            r@ == Self::NO_EXECUTE,
            has_flag(r@, Self::NO_EXECUTE),
            !has_flag(r@, Self::PRESENT),
            !has_flag(r@, Self::WRITABLE),
            !has_flag(r@, Self::HUGE_PAGE),
    {
        proof {
            lemma_flag_bits();
        }
        EntryFlags::from_bits_truncate(Self::NO_EXECUTE)
    }

    /// The flags for the pages of a section of the kernel image: PRESENT
    /// where the section is allocated, WRITABLE where it is writable, and
    /// NO_EXECUTE where it is not executable.
    pub fn from_elf_section_flags(section: &ElfSection) -> (r: EntryFlags)
        ensures
            r@ == elf_entry_flags(section.flags),
    {
        let mut flags = EntryFlags::empty();
        if section.flags() & ELF_SECTION_ALLOCATED == ELF_SECTION_ALLOCATED {
            // section is loaded to memory
            flags = flags.union(EntryFlags::present());
        }
        if section.flags() & ELF_SECTION_WRITABLE == ELF_SECTION_WRITABLE {
            flags = flags.union(EntryFlags::writable());
        }
        if !(section.flags() & ELF_SECTION_EXECUTABLE == ELF_SECTION_EXECUTABLE) {
            flags = flags.union(EntryFlags::no_execute());
        }
        flags
    }

    /// The flags of both sets.
    pub fn union(self, other: EntryFlags) -> (r: EntryFlags)
        ensures
            r@ == self@ | other@,
    {
        proof {
            use_type_invariant(self);
            use_type_invariant(other);
        }
        let a: u64 = self.bits;
        let b: u64 = other.bits;
        assert((a | b) & !0x8000_0000_0000_01ffu64 == 0) by (bit_vector)
            requires
                a & !0x8000_0000_0000_01ffu64 == 0,
                b & !0x8000_0000_0000_01ffu64 == 0,
        ;
        EntryFlags { bits: a | b }
    }
}

/// Each of the flags that this crate sets is a flag.
pub proof fn lemma_flag_bits()
    ensures
        EntryFlags::PRESENT & EntryFlags::ALL == EntryFlags::PRESENT,
        EntryFlags::WRITABLE & EntryFlags::ALL == EntryFlags::WRITABLE,
        EntryFlags::NO_EXECUTE & EntryFlags::ALL == EntryFlags::NO_EXECUTE,
        EntryFlags::HUGE_PAGE & EntryFlags::ALL == EntryFlags::HUGE_PAGE,
        EntryFlags::WRITABLE | EntryFlags::PRESENT == 3,
        EntryFlags::PRESENT | EntryFlags::PRESENT == EntryFlags::PRESENT,
        has_flag(EntryFlags::PRESENT, EntryFlags::PRESENT),
        !has_flag(EntryFlags::PRESENT, EntryFlags::WRITABLE),
        !has_flag(EntryFlags::PRESENT, EntryFlags::HUGE_PAGE),
        !has_flag(EntryFlags::PRESENT, EntryFlags::NO_EXECUTE),
        has_flag(EntryFlags::WRITABLE, EntryFlags::WRITABLE),
        !has_flag(EntryFlags::WRITABLE, EntryFlags::PRESENT),
        !has_flag(EntryFlags::WRITABLE, EntryFlags::HUGE_PAGE),
        !has_flag(EntryFlags::WRITABLE, EntryFlags::NO_EXECUTE),
        has_flag(EntryFlags::NO_EXECUTE, EntryFlags::NO_EXECUTE),
        !has_flag(EntryFlags::NO_EXECUTE, EntryFlags::PRESENT),
        !has_flag(EntryFlags::NO_EXECUTE, EntryFlags::WRITABLE),
        !has_flag(EntryFlags::NO_EXECUTE, EntryFlags::HUGE_PAGE),
        forall|bits: u64| #[trigger] has_flag(bits | EntryFlags::PRESENT, EntryFlags::PRESENT),
        forall|bits: u64|
            bits & !EntryFlags::ALL == 0 ==> #[trigger] (bits | EntryFlags::PRESENT)
                & !EntryFlags::ALL == 0,
{
    assert(0x1u64 & 0x8000_0000_0000_01ffu64 == 0x1u64 && 0x2u64 & 0x8000_0000_0000_01ffu64
        == 0x2u64 && 0x8000_0000_0000_0000u64 & 0x8000_0000_0000_01ffu64 == 0x8000_0000_0000_0000u64
        && 0x80u64 & 0x8000_0000_0000_01ffu64 == 0x80u64 && 0x2u64 | 0x1u64 == 3 && 0x1u64 | 0x1u64
        == 0x1u64 && 0x1u64 & 0x1u64 == 0x1u64 && 0x1u64 & 0x2u64 != 0x2u64 && 0x1u64 & 0x80u64
        != 0x80u64 && 0x1u64 & 0x8000_0000_0000_0000u64 != 0x8000_0000_0000_0000u64 && 0x2u64
        & 0x2u64 == 0x2u64 && 0x2u64 & 0x1u64 != 0x1u64 && 0x2u64 & 0x80u64 != 0x80u64 && 0x2u64
        & 0x8000_0000_0000_0000u64 != 0x8000_0000_0000_0000u64 && 0x8000_0000_0000_0000u64
        & 0x8000_0000_0000_0000u64 == 0x8000_0000_0000_0000u64 && 0x8000_0000_0000_0000u64 & 0x1u64
        != 0x1u64 && 0x8000_0000_0000_0000u64 & 0x2u64 != 0x2u64 && 0x8000_0000_0000_0000u64
        & 0x80u64 != 0x80u64) by (bit_vector);
    assert forall|bits: u64| #[trigger] has_flag(bits | EntryFlags::PRESENT, EntryFlags::PRESENT) by {
        assert((bits | 0x1u64) & 0x1u64 == 0x1u64) by (bit_vector);
    }
    assert forall|bits: u64| bits & !EntryFlags::ALL == 0 implies #[trigger] (bits
        | EntryFlags::PRESENT) & !EntryFlags::ALL == 0 by {
        assert((bits | 0x1u64) & !0x8000_0000_0000_01ffu64 == 0) by (bit_vector)
            requires
                bits & !0x8000_0000_0000_01ffu64 == 0,
        ;
    }
}

/// The entry flags for the pages of a section with the given section
/// flags.
pub open spec fn elf_entry_flags(flags: u64) -> u64 {
    let allocated = if flags & ELF_SECTION_ALLOCATED == ELF_SECTION_ALLOCATED {
        0 | EntryFlags::PRESENT
    } else {
        0
    };
    let writable = if flags & ELF_SECTION_WRITABLE == ELF_SECTION_WRITABLE {
        allocated | EntryFlags::WRITABLE
    } else {
        allocated
    };
    if !(flags & ELF_SECTION_EXECUTABLE == ELF_SECTION_EXECUTABLE) {
        writable | EntryFlags::NO_EXECUTE
    } else {
        writable
    }
}

/// Whether the raw entry has its PRESENT bit set.
pub open spec fn raw_present(raw: u64) -> bool {
    has_flag(raw, EntryFlags::PRESENT)
}

/// Whether the raw entry has its HUGE_PAGE bit set.
pub open spec fn raw_huge(raw: u64) -> bool {
    has_flag(raw, EntryFlags::HUGE_PAGE)
}

/// Number of the frame whose address the raw entry holds.
pub open spec fn raw_frame(raw: u64) -> nat {
    ((raw & ENTRY_ADDR_MASK) / PAGE_SIZE) as nat
}

/// The flags that the raw entry holds.
pub open spec fn raw_flags(raw: u64) -> u64 {
    raw & EntryFlags::ALL
}

/// The raw entry that points to the frame with the given number and carries
/// the given flags.
pub open spec fn raw_entry(frame: nat, flags: u64) -> u64 {
    ((frame * 4096) as u64) | flags
}

/// What an entry holds can be read back: the frame and the flags that it was
/// made of, none of the two disturbing the other.
pub proof fn lemma_raw_entry(frame: nat, flags: u64)
    requires
        frame < ENTRY_FRAME_LIMIT,
        flags & !EntryFlags::ALL == 0,
    ensures
        raw_frame(raw_entry(frame, flags)) == frame,
        raw_flags(raw_entry(frame, flags)) == flags,
        raw_present(raw_entry(frame, flags)) == has_flag(flags, EntryFlags::PRESENT),
        raw_huge(raw_entry(frame, flags)) == has_flag(flags, EntryFlags::HUGE_PAGE),
        raw_entry(frame, flags) != 0 || (frame == 0 && flags == 0),
{
    let n: u64 = frame as u64;
    let a: u64 = (frame * 4096) as u64;
    assert(a == n * 4096);
    assert(((a | flags) & 0x000f_ffff_ffff_f000u64) / 4096 == n && (a | flags)
        & 0x8000_0000_0000_01ffu64 == flags && (((a | flags) & 1 == 1) <==> (flags & 1 == 1))
            && (((a
        | flags) & 0x80 == 0x80) <==> (flags & 0x80 == 0x80))
            && ((a | flags) != 0 || (n == 0 && flags
        == 0))) by (bit_vector)
        requires
            n < 0x0000_0100_0000_0000u64,
            a == n * 4096,
            flags & !0x8000_0000_0000_01ffu64 == 0,
    ;
}

/// The frame that a raw entry names always fits into an entry again.
pub proof fn lemma_raw_frame_bounded(raw: u64)
    ensures
        raw_frame(raw) < ENTRY_FRAME_LIMIT,
        raw_frame(raw) == (raw & ENTRY_ADDR_MASK) / 4096,
        raw == 0 ==> !raw_present(raw) && !raw_huge(raw),
{
    assert((raw & 0x000f_ffff_ffff_f000u64) / 4096 < 0x0000_0100_0000_0000u64 && (raw == 0 ==> raw
        & 1 != 1 && raw & 0x80 != 0x80)) by (bit_vector);
}

/// A frame is below `ENTRY_FRAME_LIMIT` just when its start address fits into
/// the address bits of an entry.
pub proof fn lemma_frame_fits(frame: nat)
    requires
        frame < super::FRAME_LIMIT,
    ensures
        frame < ENTRY_FRAME_LIMIT <==> (start_of(frame) as u64) & !ENTRY_ADDR_MASK == 0,
{
    let n: u64 = frame as u64;
    let a: u64 = (frame * 4096) as u64;
    assert(a == n * 4096);
    assert(n < 0x0000_0100_0000_0000u64 <==> a & !0x000f_ffff_ffff_f000u64 == 0) by (bit_vector)
        requires
            n < 0x0010_0000_0000_0000u64,
            a == n * 4096,
    ;
}

/// Single page table entry
#[derive(Copy, Clone, Debug, Eq, PartialEq, Structural)]
pub struct Entry(pub u64);

impl Entry {
    /// An entry is unused when all of its bits are zero.
    pub open spec fn spec_is_unused(&self) -> bool {
        self.0 == 0
    }

    #[verifier::when_used_as_spec(spec_is_unused)]
    pub fn is_unused(&self) -> (r: bool)
        ensures
            r == (self.0 == 0),
    {
        self.0 == 0
    }

    /// The flags of the entry; bits that are no flag are left out.
    pub fn flags(&self) -> (r: EntryFlags)
        ensures
            r@ == raw_flags(self.0),
            has_flag(r@, EntryFlags::PRESENT) == raw_present(self.0),
            has_flag(r@, EntryFlags::HUGE_PAGE) == raw_huge(self.0),
    {
        let raw: u64 = self.0;
        assert(((raw & 0x8000_0000_0000_01ffu64) & 1 == 1 <==> raw & 1 == 1) && ((raw
            & 0x8000_0000_0000_01ffu64) & 0x80 == 0x80 <==> raw & 0x80 == 0x80)) by (bit_vector);
        EntryFlags::from_bits_truncate(self.0)
    }

    /// The frame that the entry points to, if the entry is present.
    pub fn pointed_frame(&self) -> (r: Option<Frame>)
        ensures
            raw_present(self.0) ==> r.is_some() && r.unwrap()@ == raw_frame(self.0),
            !raw_present(self.0) ==> r.is_none(),
            r.is_some() ==> r.unwrap()@ < ENTRY_FRAME_LIMIT,
    {
        proof {
            lemma_raw_frame_bounded(self.0);
        }
        if self.flags().has(EntryFlags::PRESENT) {
            Some(Frame::containing_address(self.0 & ENTRY_ADDR_MASK))
        } else {
            None
        }
    }

    /// Clears the entry.
    pub fn set_unused(&mut self)
        ensures
            final(self).is_unused(),
    {
        self.0 = 0;
    }

    /// Set value of this entry: it points to the frame and carries the
    /// flags, and PRESENT with them.
    ///
    /// The start address of a frame should be page aligned and smaller than 2^52
    /// (since x86 uses 52bit physical addresses): the frame's number must be
    /// below `ENTRY_FRAME_LIMIT`.
    pub fn set(&mut self, frame: Frame, flags: EntryFlags)
        requires
            frame@ < ENTRY_FRAME_LIMIT,
        ensures
            final(self).0 == raw_entry(frame@, flags@ | EntryFlags::PRESENT),
            has_flag(flags@, EntryFlags::PRESENT) ==> final(self).0 == raw_entry(frame@, flags@),
            raw_frame(final(self).0) == frame@,
            raw_flags(final(self).0) == flags@ | EntryFlags::PRESENT,
            raw_present(final(self).0),
            raw_huge(final(self).0) == has_flag(flags@, EntryFlags::HUGE_PAGE),
    {
        let bits: u64 = flags.bits() | EntryFlags::PRESENT;
        proof {
            lemma_set_round_trip(frame@, flags@);
        }
        self.0 = frame.start_address() | bits;
    }
}

/// An entry that was set to a frame and to flags points to that frame and
/// carries those flags and PRESENT; where the flags hold PRESENT already,
/// it carries just them.
pub proof fn lemma_set_round_trip(frame: nat, flags: u64)
    requires
        frame < ENTRY_FRAME_LIMIT,
        flags & !EntryFlags::ALL == 0,
    ensures
        (flags | EntryFlags::PRESENT) & !EntryFlags::ALL == 0,
        raw_present(raw_entry(frame, flags | EntryFlags::PRESENT)),
        raw_frame(raw_entry(frame, flags | EntryFlags::PRESENT)) == frame,
        raw_flags(raw_entry(frame, flags | EntryFlags::PRESENT)) == flags | EntryFlags::PRESENT,
        raw_huge(raw_entry(frame, flags | EntryFlags::PRESENT)) == has_flag(
            flags,
            EntryFlags::HUGE_PAGE,
        ),
        has_flag(flags, EntryFlags::PRESENT) ==> flags | EntryFlags::PRESENT == flags,
{
    assert((flags | 1) & !0x8000_0000_0000_01ffu64 == 0 && (flags | 1) & 1 == 1 && (((flags | 1)
        & 0x80 == 0x80) <==> (flags & 0x80 == 0x80)) && (flags & 1 == 1 ==> flags | 1 == flags))
        by (bit_vector)
        requires
            flags & !0x8000_0000_0000_01ffu64 == 0,
    ;
    lemma_raw_entry(frame, flags | EntryFlags::PRESENT);
}

/// Addresses are expected to be canonical (bits 48-63 must be the same as bit 47),
/// otherwise the CPU will #GP when we ask it to translate it. This is the
/// canonical address with the same low 48 bits.
pub open spec fn canonical_of(address: u64) -> u64 {
    if address & 0x0000_8000_0000_0000 == 0 {
        address & 0x0000_ffff_ffff_ffff
    } else {
        address | 0xffff_0000_0000_0000
    }
}

/// Replaces bits 48 to 63 of the address with copies of bit 47.
pub fn make_address_canonical(address: u64) -> (r: u64)
    ensures
        r == canonical_of(address),
        super::is_canonical(r),
        r & 0x0000_ffff_ffff_ffff == address & 0x0000_ffff_ffff_ffff,
        (address / 0x8000_0000_0000) % 2 == 0 ==> r == address % 0x1_0000_0000_0000,
        (address / 0x8000_0000_0000) % 2 != 0 ==> r == address % 0x1_0000_0000_0000
            + 0xffff_0000_0000_0000,
{
    let bit: u64 = (address >> 47) & 0b1;
    let low: u64 = address & 0x0000_ffff_ffff_ffff;
    assert(bit <= 1 && (bit == 0 <==> address & 0x0000_8000_0000_0000 == 0)) by (bit_vector)
        requires
            bit == (address >> 47) & 1,
    ;
    let sign_extension: u64 = 0o177777_000_000_000_000_0000 * bit;
    let r: u64 = low | sign_extension;
    assert(r == (if address & 0x0000_8000_0000_0000 == 0 {
        address & 0x0000_ffff_ffff_ffff
    } else {
        address | 0xffff_0000_0000_0000
    }) && (r < 0x0000_8000_0000_0000 || r >= 0xffff_8000_0000_0000) && r & 0x0000_ffff_ffff_ffff
        == address & 0x0000_ffff_ffff_ffff && ((address / 0x8000_0000_0000) % 2 == 0 ==> r == address
        % 0x1_0000_0000_0000) && ((address / 0x8000_0000_0000) % 2 != 0 ==> r == address
        % 0x1_0000_0000_0000 + 0xffff_0000_0000_0000)) by (bit_vector)
        requires
            low == address & 0x0000_ffff_ffff_ffff,
            address & 0x0000_8000_0000_0000 == 0 ==> sign_extension == 0,
            address & 0x0000_8000_0000_0000 != 0 ==> sign_extension == 0xffff_0000_0000_0000,
            r == low | sign_extension,
    ;
    r
}

} // verus!
