//! The I/O ports of the machine and typed handles for single ports.
//!
//! The port space is a model: each port holds the value that was written to
//! it last, and every write is recorded in the order in which it was made.

use std::marker::PhantomData;
use vstd::prelude::*;

verus! {

/// A write to a port: the port's address and the value, widened to 32 bits.
#[derive(Clone, Copy, Debug, PartialEq, Eq, Structural)]
pub struct PortWrite {
    pub port: u16,
    pub value: u32,
}

/// The port space as a mathematical value.
pub struct PortState {
    /// For each port the value that it holds.
    pub values: Map<u16, u32>,
    /// The writes made so far, oldest first.
    pub writes: Seq<PortWrite>,
}

impl PortState {
    /// The value that the port holds; zero where nothing was written.
    pub open spec fn value(self, port: u16) -> u32 {
        if self.values.contains_key(port) {
            self.values[port]
        } else {
            0
        }
    }
}

/// The I/O ports of the machine.
pub struct PortSpace {
    values: Vec<u32>,
    writes: Vec<PortWrite>,
}

impl View for PortSpace {
    type V = PortState;

    closed spec fn view(&self) -> PortState {
        PortState {
            values: Map::new(
                |port: u16| (port as int) < self.values@.len() && self.values@[port as int] != 0,
                |port: u16| self.values@[port as int],
            ),
            writes: self.writes@,
        }
    }
}

impl PortSpace {
    #[verifier::type_invariant]
    spec fn inv(self) -> bool {
        self.values@.len() == 0x1_0000
    }

    /// A port space in which every port holds zero and nothing was written.
    pub fn new() -> (r: PortSpace)
        ensures
            r@.writes == Seq::<PortWrite>::empty(),
            forall|port: u16| r@.value(port) == 0,
    {
        let mut values: Vec<u32> = Vec::new();
        let mut i: usize = 0;
        while i < 0x1_0000
            invariant
                i <= 0x1_0000,
                values@.len() == i,
                forall|k: int| 0 <= k < i ==> values@[k] == 0,
            decreases 0x1_0000 - i,
        {
            values.push(0);
            i = i + 1;
        }
        PortSpace { values, writes: Vec::new() }
    }

    /// Reads the value that a port holds.
    pub fn read(&self, port: u16) -> (r: u32)
        ensures
            r == self@.value(port),
    {
        proof {
            use_type_invariant(self);
        }
        self.values[port as usize]
    }

    /// Writes a value to a port.
    pub fn write(&mut self, port: u16, value: u32)
        ensures
            final(self)@.writes == old(self)@.writes.push(PortWrite { port, value }),
            final(self)@.value(port) == value,
            forall|other: u16| other != port
                ==> final(self)@.value(other) == old(self)@.value(other),
    {
        proof {
            use_type_invariant(&*self);
        }
        self.values[port as usize] = value;
        let mut writes: Vec<PortWrite> = Vec::new();
        std::mem::swap(&mut writes, &mut self.writes);
        writes.push(PortWrite { port, value });
        self.writes = writes;
    }

    /// Takes a value that a device has put on a port: the port holds it
    /// from now on, and no write is recorded.
    pub fn receive(&mut self, port: u16, value: u32)
        ensures
            final(self)@.writes == old(self)@.writes,
            final(self)@.value(port) == value,
            forall|other: u16| other != port
                ==> final(self)@.value(other) == old(self)@.value(other),
    {
        proof {
            use_type_invariant(&*self);
        }
        self.values[port as usize] = value;
    }

    /// The writes made so far, oldest first.
    pub fn writes(&self) -> (r: &Vec<PortWrite>)
        ensures
            r@ == self@.writes,
    {
        &self.writes
    }
}

/// This trait is defined for any type which can be read or written over a
/// port.  The processor supports I/O with `u8`, `u16` and `u32`.
pub trait InOut: Sized {
    /// The value as the port space holds it.
    spec fn widened(self) -> u32;

    /// The value of this type that the port space's value stands for.
    spec fn narrowed(word: u32) -> Self;

    /// Read a value from the specified port.
    fn port_in(ports: &PortSpace, port: u16) -> (r: Self)
        ensures
            r == Self::narrowed(ports@.value(port)),
    ;

    /// Write a value to the specified port.
    fn port_out(ports: &mut PortSpace, port: u16, value: Self)
        ensures
            final(ports)@.writes == old(ports)@.writes.push(
                PortWrite { port, value: value.widened() },
            ),
            final(ports)@.value(port) == value.widened(),
            forall|other: u16|
                other != port ==> final(ports)@.value(other) == old(ports)@.value(other),
    ;
}

impl InOut for u8 {
    open spec fn widened(self) -> u32 {
        self as u32
    }

    open spec fn narrowed(word: u32) -> u8 {
        (word % 0x100) as u8
    }

    fn port_in(ports: &PortSpace, port: u16) -> u8 {
        (ports.read(port) % 0x100) as u8
    }

    fn port_out(ports: &mut PortSpace, port: u16, value: u8) {
        ports.write(port, value as u32);
    }
}

impl InOut for u16 {
    open spec fn widened(self) -> u32 {
        self as u32
    }

    open spec fn narrowed(word: u32) -> u16 {
        (word % 0x1_0000) as u16
    }

    fn port_in(ports: &PortSpace, port: u16) -> u16 {
        (ports.read(port) % 0x1_0000) as u16
    }

    fn port_out(ports: &mut PortSpace, port: u16, value: u16) {
        ports.write(port, value as u32);
    }
}

impl InOut for u32 {
    open spec fn widened(self) -> u32 {
        self
    }

    open spec fn narrowed(word: u32) -> u32 {
        word
    }

    fn port_in(ports: &PortSpace, port: u16) -> u32 {
        ports.read(port)
    }

    fn port_out(ports: &mut PortSpace, port: u16, value: u32) {
        ports.write(port, value);
    }
}

/// An I/O port over an arbitrary type supporting the `InOut` interface.
///
/// This version of `Port` is appropriate for communicating with hardware
/// that can't violate Rust's safety guarantees.
#[derive(Debug)]
pub struct Port<T: InOut> {
    // Port address.
    port: u16,
    // Zero-byte placeholder.  This is only here so that we can have a
    // type parameter `T` without a compiler error.
    ty: PhantomData<T>,
}

impl<T: InOut> Port<T> {
    /// The port's address.
    pub closed spec fn address(&self) -> u16 {
        self.port
    }

    /// Create a new I/O port.
    pub fn new(port: u16) -> (r: Port<T>)
        ensures
            r.address() == port,
    {
        Port { port, ty: PhantomData }
    }

    /// Read data from the port.
    pub fn read(&self, ports: &PortSpace) -> (r: T)
        ensures
            r == T::narrowed(ports@.value(self.address())),
    {
        T::port_in(ports, self.port)
    }

    /// Write data to the port.
    pub fn write(&self, ports: &mut PortSpace, value: T)
        ensures
            final(ports)@.writes == old(ports)@.writes.push(
                PortWrite { port: self.address(), value: value.widened() },
            ),
            final(ports)@.value(self.address()) == value.widened(),
            forall|other: u16|
                other != self.address() ==> final(ports)@.value(other) == old(ports)@.value(other),
    {
        T::port_out(ports, self.port, value);
    }
}

/// An I/O port over an arbitrary type supporting the `InOut` interface.
///
/// This version of `Port` is appropriate for speaking to hardware that can
/// potentially corrupt memory or cause undefined behavior.
#[derive(Debug)]
pub struct UnsafePort<T: InOut> {
    port: u16,
    ty: PhantomData<T>,
}

impl<T: InOut> UnsafePort<T> {
    /// The port's address.
    pub closed spec fn address(&self) -> u16 {
        self.port
    }

    /// Create a new I/O port.
    pub fn new(port: u16) -> (r: UnsafePort<T>)
        ensures
            r.address() == port,
    {
        UnsafePort { port, ty: PhantomData }
    }

    /// Read data from the port.
    pub fn read(&self, ports: &PortSpace) -> (r: T)
        ensures
            r == T::narrowed(ports@.value(self.address())),
    {
        T::port_in(ports, self.port)
    }

    /// Write data to the port.
    pub fn write(&self, ports: &mut PortSpace, value: T)
        ensures
            final(ports)@.writes == old(ports)@.writes.push(
                PortWrite { port: self.address(), value: value.widened() },
            ),
            final(ports)@.value(self.address()) == value.widened(),
            forall|other: u16|
                other != self.address() ==> final(ports)@.value(other) == old(ports)@.value(other),
    {
        T::port_out(ports, self.port, value);
    }
}

} // verus!
