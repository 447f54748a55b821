//! A bump allocator over a range of addresses.

use vstd::prelude::*;

verus! {

/// Why an allocation failed.
#[derive(Clone, Copy, Debug, PartialEq, Eq, Structural)]
pub enum AllocErr {
    /// The range holds no room for the request any more.
    Exhausted { size: usize, align: usize },
}

/// The address rounded up to a multiple of `align`, which must be a power
/// of two.
pub open spec fn aligned_up(address: nat, align: nat) -> nat {
    if address % align == 0 {
        address
    } else {
        (address + align - address % align) as nat
    }
}

/// Rounds the address up to a multiple of `align`, or returns `None` where
/// that multiple does not fit the address space.
pub fn align_up(address: usize, align: usize) -> (r: Option<usize>)
    requires
        align > 0,
    ensures
        r.is_some() <==> aligned_up(address as nat, align as nat) <= usize::MAX,
        r.is_some() ==> r.unwrap() == aligned_up(address as nat, align as nat),
{
    let rest = address % align;
    if rest == 0 {
        Some(address)
    } else {
        let step = align - rest;
        if address > usize::MAX - step {
            None
        } else {
            Some(address + step)
        }
    }
}

/// Hands out the addresses of a range once, in ascending order, and never
/// takes one back.
#[derive(Debug)]
pub struct KernelAlloc {
    heap_start: usize,
    heap_end: usize,
    next: usize,
}

impl KernelAlloc {
    /// Address of the first byte of the range.
    pub closed spec fn heap_start(&self) -> usize {
        self.heap_start
    }

    /// Address after the last byte of the range.
    pub closed spec fn heap_end(&self) -> usize {
        self.heap_end
    }

    /// The lowest address that has not been handed out.
    pub closed spec fn next(&self) -> usize {
        self.next
    }

    /// The allocator for the addresses from `heap_start` up to `heap_end`,
    /// the latter not included.
    pub fn new(heap_start: usize, heap_end: usize) -> (r: KernelAlloc)
        ensures
            r.heap_start() == heap_start,
            r.heap_end() == heap_end,
            r.next() == heap_start,
    {
        KernelAlloc { heap_start, heap_end, next: heap_start }
    }

    /// Hands out `size` bytes at the lowest free address that is a multiple
    /// of `align`, if they end within the range.
    pub fn allocate(&mut self, size: usize, align: usize) -> (r: Result<usize, AllocErr>)
        requires
            align > 0,
        ensures
            final(self).heap_start() == old(self).heap_start(),
            final(self).heap_end() == old(self).heap_end(),
            r.is_ok()
                <==> aligned_up(old(self).next() as nat, align as nat)
                    + size <= old(self).heap_end(),
            r.is_ok()
                ==> r.unwrap() == aligned_up(old(self).next() as nat, align as nat)
                    && final(self).next() == r.unwrap() + size,
            r.is_err() ==> r == Err::<usize, AllocErr>(AllocErr::Exhausted { size, align })
                && final(self).next() == old(self).next(),
    {
        let old_next = self.next;
        match align_up(old_next, align) {
            Some(alloc_start) => {
                if alloc_start <= self.heap_end && size <= self.heap_end - alloc_start {
                    self.next = alloc_start + size;
                    Ok(alloc_start)
                } else {
                    Err(AllocErr::Exhausted { size, align })
                }
            },
            None => Err(AllocErr::Exhausted { size, align }),
        }
    }

    /// Memory is never taken back.
    pub fn deallocate(&mut self, address: usize, size: usize, align: usize)
        ensures
            *final(self) == *old(self),
    {
    }
}

} // verus!
