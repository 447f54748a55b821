//! The interrupt descriptor table of the kernel, as the values that it is
//! made of.

use vstd::prelude::*;

verus! {

/// Index of the stack of the double-fault handler in the interrupt stack
/// table.
pub const DOUBLE_FAULT_IST_INDEX: u16 = 0;

/// Index of the stack of the machine-check handler in the interrupt stack
/// table.
pub const MACHINE_CHECK_IST_INDEX: u16 = 1;

/// Number of entries of the table.
pub const IDT_ENTRIES: usize = 256;

/// The first vector that is free for interrupts of devices.
pub const FIRST_INTERRUPT: u8 = 32;

/// The function that handles an interrupt.
#[derive(Clone, Copy, Debug, PartialEq, Eq, Structural)]
pub enum Handler {
    DivideByZero,
    Breakpoint,
    Overflow,
    InvalidOpcode,
    DoubleFault,
    PageFault,
    MachineCheck,
    /// Hands the key that has arrived to the keyboard.
    Keyboard,
    /// Does nothing.
    Default,
    /// A handler that was registered, named by the address of its code.
    Registered(u64),
}

/// An entry of the table: the handler, if one is set, and the index of the
/// stack of the interrupt stack table that the processor switches to, if it
/// is to switch.
#[derive(Clone, Copy, Debug, PartialEq, Eq, Structural)]
pub struct IdtEntry {
    pub handler: Option<Handler>,
    pub stack_index: Option<u16>,
}

/// The entry that the kernel's table has for a vector before any handler is
/// registered.
pub open spec fn initial_entry(vector: int) -> IdtEntry {
    if vector == 0 {
        IdtEntry { handler: Some(Handler::DivideByZero), stack_index: None }
    } else if vector == 3 {
        IdtEntry { handler: Some(Handler::Breakpoint), stack_index: None }
    } else if vector == 4 {
        IdtEntry { handler: Some(Handler::Overflow), stack_index: None }
    } else if vector == 6 {
        IdtEntry { handler: Some(Handler::InvalidOpcode), stack_index: None }
    } else if vector == 8 {
        IdtEntry { handler: Some(Handler::DoubleFault), stack_index: Some(DOUBLE_FAULT_IST_INDEX) }
    } else if vector == 14 {
        IdtEntry { handler: Some(Handler::PageFault), stack_index: Some(DOUBLE_FAULT_IST_INDEX) }
    } else if vector == 18 {
        IdtEntry { handler: Some(Handler::MachineCheck), stack_index: Some(MACHINE_CHECK_IST_INDEX) }
    } else if 32 <= vector < 256 {
        IdtEntry { handler: Some(Handler::Default), stack_index: None }
    } else {
        IdtEntry { handler: None, stack_index: None }
    }
}

/// The interrupt descriptor table.
#[derive(Debug)]
pub struct Idt {
    entries: Vec<IdtEntry>,
}

impl View for Idt {
    type V = Seq<IdtEntry>;

    closed spec fn view(&self) -> Seq<IdtEntry> {
        self.entries@
    }
}

impl Idt {
    #[verifier::type_invariant]
    spec fn inv(self) -> bool {
        self.entries@.len() == 256
    }

    /// A table without handlers.
    pub fn new() -> (r: Idt)
        ensures
            r@.len() == 256,
            forall|v: int| 0 <= v < 256
                ==> r@[v] == (IdtEntry { handler: None, stack_index: None }),
    {
        let mut entries: Vec<IdtEntry> = Vec::new();
        let mut i: usize = 0;
        while i < IDT_ENTRIES
            invariant
                i <= 256,
                entries@.len() == i,
                forall|v: int|
                    0 <= v < i ==> entries@[v] == (IdtEntry { handler: None, stack_index: None }),
            decreases 256 - i,
        {
            entries.push(IdtEntry { handler: None, stack_index: None });
            i = i + 1;
        }
        Idt { entries }
    }

    /// The entry of a vector.
    pub fn entry(&self, vector: u8) -> (r: IdtEntry)
        ensures
            self@.len() == 256,
            r == self@[vector as int],
    {
        proof {
            use_type_invariant(self);
        }
        self.entries[vector as usize]
    }

    /// Sets the handler of a vector; the processor stays on the current
    /// stack when the interrupt arrives.
    pub fn set_handler_fn(&mut self, vector: u8, handler: Handler)
        ensures
            final(self)@ == old(self)@.update(
                vector as int,
                IdtEntry { handler: Some(handler), stack_index: None },
            ),
            final(self)@.len() == 256,
    {
        proof {
            use_type_invariant(&*self);
        }
        self.entries[vector as usize] = IdtEntry { handler: Some(handler), stack_index: None };
    }

    /// Sets the stack of the interrupt stack table that the processor
    /// switches to when the interrupt of the vector arrives.
    pub fn set_stack_index(&mut self, vector: u8, index: u16)
        ensures
            final(self)@ == old(self)@.update(
                vector as int,
                IdtEntry { handler: old(self)@[vector as int].handler, stack_index: Some(index) },
            ),
            final(self)@.len() == 256,
    {
        proof {
            use_type_invariant(&*self);
        }
        let handler = self.entries[vector as usize].handler;
        self.entries[vector as usize] = IdtEntry { handler, stack_index: Some(index) };
    }
}

/// The kernel's table: handlers for the exceptions that the kernel knows,
/// the double-fault and the page-fault handler on the first stack of the
/// interrupt stack table, the machine-check handler on the second, and a
/// handler that does nothing for every vector from 32 on.
pub fn create_idt() -> (r: Idt)
    ensures
        r@.len() == 256,
        forall|v: int| 0 <= v < 256 ==> #[trigger] r@[v] == initial_entry(v),
{
    let mut idt = Idt::new();
    idt.set_handler_fn(0, Handler::DivideByZero);
    idt.set_handler_fn(3, Handler::Breakpoint);
    idt.set_handler_fn(4, Handler::Overflow);
    idt.set_handler_fn(6, Handler::InvalidOpcode);
    idt.set_handler_fn(8, Handler::DoubleFault);
    idt.set_stack_index(8, DOUBLE_FAULT_IST_INDEX);
    idt.set_handler_fn(14, Handler::PageFault);
    idt.set_stack_index(14, DOUBLE_FAULT_IST_INDEX);
    idt.set_handler_fn(18, Handler::MachineCheck);
    idt.set_stack_index(18, MACHINE_CHECK_IST_INDEX);
    let mut irq: u8 = FIRST_INTERRUPT;
    loop
        invariant_except_break
            32 <= irq,
            idt@.len() == 256,
            forall|v: int| 0 <= v < 32 ==> #[trigger] idt@[v] == initial_entry(v),
            forall|v: int| 32 <= v < irq ==> #[trigger] idt@[v] == initial_entry(v),
            forall|v: int|
                irq <= v < 256 ==> #[trigger] idt@[v] == (IdtEntry {
                    handler: None,
                    stack_index: None,
                }),
        ensures
            forall|v: int| 0 <= v < 256 ==> #[trigger] idt@[v] == initial_entry(v),
            idt@.len() == 256,
        decreases 255 - irq,
    {
        idt.set_handler_fn(irq, Handler::Default);
        if irq == 255 {
            break ;
        }
        irq = irq + 1;
    }
    idt
}

/// Registers handler function for custom interrupts (INTn >= 32): the
/// handler takes the place of the one that the vector had.
pub fn register_interrupt(idt: &mut Idt, vector: u8, handler: Handler)
    requires
        32 <= vector,
    ensures
        final(idt)@.len() == 256,
        final(idt)@ == old(idt)@.update(
            vector as int,
            IdtEntry { handler: Some(handler), stack_index: None },
        ),
{
    idt.set_handler_fn(vector, handler);
}

/// The name that the banner of an exception shows, for the handlers of
/// exceptions.
pub open spec fn spec_exception_name(handler: Handler) -> Option<Seq<char>> {
    match handler {
        Handler::DivideByZero => Some("DIVIDE BY ZERO"@),
        Handler::Breakpoint => Some("BREAKPOINT"@),
        Handler::Overflow => Some("OVERFLOW"@),
        Handler::InvalidOpcode => Some("INVALID OPCODE"@),
        Handler::DoubleFault => Some("DOUBLE FAULT"@),
        Handler::PageFault => Some("PAGE FAULT"@),
        Handler::MachineCheck => Some("OOPS MACHINE CHECK"@),
        Handler::Keyboard => None,
        Handler::Default => None,
        Handler::Registered(_) => None,
    }
}

/// Whether the kernel halts after the handler has reported: every
/// exception but the breakpoint is fatal.
pub open spec fn spec_is_fatal(handler: Handler) -> bool {
    match handler {
        Handler::DivideByZero => true,
        Handler::Breakpoint => false,
        Handler::Overflow => true,
        Handler::InvalidOpcode => true,
        Handler::DoubleFault => true,
        Handler::PageFault => true,
        Handler::MachineCheck => true,
        Handler::Keyboard => false,
        Handler::Default => false,
        Handler::Registered(_) => false,
    }
}

impl Handler {
    /// The name that the banner of the exception shows.
    pub fn exception_name(&self) -> (r: Option<&'static str>)
        ensures
            r.is_some() == spec_exception_name(*self).is_some(),
            r.is_some() ==> r.unwrap()@ == spec_exception_name(*self).unwrap(),
    {
        match self {
            Handler::DivideByZero => Some("DIVIDE BY ZERO"),
            Handler::Breakpoint => Some("BREAKPOINT"),
            Handler::Overflow => Some("OVERFLOW"),
            Handler::InvalidOpcode => Some("INVALID OPCODE"),
            Handler::DoubleFault => Some("DOUBLE FAULT"),
            Handler::PageFault => Some("PAGE FAULT"),
            Handler::MachineCheck => Some("OOPS MACHINE CHECK"),
            Handler::Keyboard => None,
            Handler::Default => None,
            Handler::Registered(_) => None,
        }
    }

    /// Whether the kernel halts after the handler has reported.
    pub fn is_fatal(&self) -> (r: bool)
        ensures
            r == spec_is_fatal(*self),
    {
        match self {
            Handler::Breakpoint => false,
            Handler::Keyboard => false,
            Handler::Default => false,
            Handler::Registered(_) => false,
            _ => true,
        }
    }
}

} // verus!
