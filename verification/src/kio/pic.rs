//! IBM PC/AT 8259 PIC initialization code
//!
//! This module configures master and slave PICs to signal IRQs 0-15
//! as IRQs 32-48. It also provides primitives for handling these interrupts.

use vstd::prelude::*;

use super::port::{Port, PortSpace, PortWrite, UnsafePort};

verus! {

pub const MASTER_OFFSET: u8 = 0x20;

pub const SLAVE_OFFSET: u8 = 0x28;

pub const MASTER_CMD: u16 = 0x20;

pub const MASTER_DATA: u16 = 0x21;

pub const SLAVE_CMD: u16 = 0xA0;

pub const SLAVE_DATA: u16 = 0xA1;

/// Scumbag port used to generate delays to wait for PICs to catch up with changes.
pub const WAIT_PORT: u16 = 0x80;

/// End-of-interrupt command code.
pub const PIC_EOI: u8 = 0x20;

/// ICW4 (not) needed
pub const ICW1_ICW4: u8 = 0x01;

/// Initialization - required!
pub const ICW1_INIT: u8 = 0x10;

/// 8086/88 (MCS-80/85) mode
pub const ICW4_8086: u8 = 0x01;

/// A write of one byte to a port, followed by the write to the wait port
/// that gives the PIC time to catch up.
pub open spec fn step(port: u16, value: u8) -> Seq<PortWrite> {
    seq![PortWrite { port, value: value as u32 }, PortWrite { port: WAIT_PORT, value: 0 }]
}

/// The writes that initialize the two PICs, in order: the announcement of
/// the sequence, the vector offsets, the chaining, the mode, and the
/// cleared interrupt masks, each first to the master and then to the slave,
/// and each followed by a write to the wait port.
pub open spec fn init_sequence() -> Seq<PortWrite> {
    step(MASTER_CMD, 0x11) + step(SLAVE_CMD, 0x11) + step(MASTER_DATA, MASTER_OFFSET) + step(
        SLAVE_DATA,
        SLAVE_OFFSET,
    ) + step(MASTER_DATA, 4) + step(SLAVE_DATA, 2) + step(MASTER_DATA, ICW4_8086) + step(
        SLAVE_DATA,
        ICW4_8086,
    ) + step(MASTER_DATA, 0) + step(SLAVE_DATA, 0)
}

/// The vector belongs to one of the two PICs.
pub open spec fn spec_valid_irq(irq: u8) -> bool {
    MASTER_OFFSET <= irq && irq < SLAVE_OFFSET + 8
}

/// The data port of the PIC that the vector belongs to.
pub open spec fn data_port_of(irq: u8) -> u16 {
    if irq >= SLAVE_OFFSET {
        SLAVE_DATA
    } else {
        MASTER_DATA
    }
}

/// The line of its PIC that the vector belongs to.
pub open spec fn line_of(irq: u8) -> u8 {
    if irq >= SLAVE_OFFSET {
        (irq - SLAVE_OFFSET) as u8
    } else {
        (irq - MASTER_OFFSET) as u8
    }
}

/// Writes a byte to a port of a PIC and waits.
fn write_step(ports: &mut PortSpace, port: u16, value: u8)
    requires
        port != WAIT_PORT,
    ensures
        final(ports)@.writes == old(ports)@.writes + step(port, value),
        final(ports)@.value(port) == value,
        forall|other: u16|
            other != port && other != WAIT_PORT
                ==> final(ports)@.value(other) == old(ports)@.value(other),
{
    let target: UnsafePort<u8> = UnsafePort::new(port);
    target.write(ports, value);
    io_wait(ports);
    proof {
        assert(ports@.writes =~= old(ports)@.writes + step(port, value));
    }
}

/// Initializes PIC: the master signals its interrupts at the vectors from
/// 32 on, the slave at the vectors from 40 on, and no interrupt is masked.
pub fn init(ports: &mut PortSpace)
    ensures
        final(ports)@.writes == old(ports)@.writes + init_sequence(),
        final(ports)@.value(MASTER_DATA) == 0,
        final(ports)@.value(SLAVE_DATA) == 0,
{
    // Tell each PIC that we're going to send it a three-byte
    // initialization sequence on its data port.
    write_step(ports, MASTER_CMD, ICW1_INIT + ICW1_ICW4);
    write_step(ports, SLAVE_CMD, ICW1_INIT + ICW1_ICW4);
    // Byte 1: set vector offsets
    write_step(ports, MASTER_DATA, MASTER_OFFSET);
    write_step(ports, SLAVE_DATA, SLAVE_OFFSET);
    // Byte 2: configure chaining between PIC1 and PIC2
    write_step(ports, MASTER_DATA, 4);
    write_step(ports, SLAVE_DATA, 2);
    // Byte 3: set PIC mode
    write_step(ports, MASTER_DATA, ICW4_8086);
    write_step(ports, SLAVE_DATA, ICW4_8086);
    // Clear IMRs
    write_step(ports, MASTER_DATA, 0);
    write_step(ports, SLAVE_DATA, 0);
    proof {
        assert(ports@.writes =~= old(ports)@.writes + init_sequence());
    }
}

/// Notifies end of interrupt: to the slave first where the vector is one of
/// its own, and to the master in any case.
pub fn eoi(ports: &mut PortSpace, irq: u8)
    requires
        spec_valid_irq(irq),
    ensures
        irq >= SLAVE_OFFSET ==> final(ports)@.writes == old(ports)@.writes.push(
            PortWrite { port: SLAVE_CMD, value: PIC_EOI as u32 },
        ).push(PortWrite { port: MASTER_CMD, value: PIC_EOI as u32 }),
        irq < SLAVE_OFFSET ==> final(ports)@.writes == old(ports)@.writes.push(
            PortWrite { port: MASTER_CMD, value: PIC_EOI as u32 },
        ),
{
    if irq >= SLAVE_OFFSET {
        let slave: UnsafePort<u8> = UnsafePort::new(SLAVE_CMD);
        slave.write(ports, PIC_EOI);
    }
    let master: UnsafePort<u8> = UnsafePort::new(MASTER_CMD);
    master.write(ports, PIC_EOI);
}

/// Sets mask of IRQ in IMR
pub fn mask(ports: &mut PortSpace, irq: u8)
    requires
        spec_valid_irq(irq),
    ensures
        final(ports)@.value(data_port_of(irq))
            == ((old(ports)@.value(data_port_of(irq)) % 0x100) as u8
            | (1u8 << line_of(irq))),
        final(ports)@.writes == old(ports)@.writes.push(
            PortWrite { port: data_port_of(irq), value: final(ports)@.value(data_port_of(irq)) },
        ),
        forall|other: u16|
            other != data_port_of(irq) ==> final(ports)@.value(other) == old(ports)@.value(other),
{
    let (port, irqline) = get_data_port_and_irqline(irq);
    let val: u8 = port.read(ports) | (1u8 << irqline);
    port.write(ports, val);
}

/// Clears mask of IRQ in IMR
pub fn unmask(ports: &mut PortSpace, irq: u8)
    requires
        spec_valid_irq(irq),
    ensures
        final(ports)@.value(data_port_of(irq))
            == ((old(ports)@.value(data_port_of(irq)) % 0x100) as u8
            & !(1u8 << line_of(irq))),
        final(ports)@.writes == old(ports)@.writes.push(
            PortWrite { port: data_port_of(irq), value: final(ports)@.value(data_port_of(irq)) },
        ),
        forall|other: u16|
            other != data_port_of(irq) ==> final(ports)@.value(other) == old(ports)@.value(other),
{
    let (port, irqline) = get_data_port_and_irqline(irq);
    let val: u8 = port.read(ports) & !(1u8 << irqline);
    port.write(ports, val);
}

/// Whether the vector belongs to one of the two PICs.
#[verifier::when_used_as_spec(spec_valid_irq)]
pub fn valid_irq(irq: u8) -> (r: bool)
    ensures
        r == spec_valid_irq(irq),
{
    MASTER_OFFSET <= irq && irq < SLAVE_OFFSET + 8
}

/// The data port of the PIC that the vector belongs to, and the vector's
/// line of that PIC.
pub fn get_data_port_and_irqline(irq: u8) -> (r: (UnsafePort<u8>, u8))
    requires
        spec_valid_irq(irq),
    ensures
        r.0.address() == data_port_of(irq),
        r.1 == line_of(irq),
        r.1 < 8,
{
    if irq >= SLAVE_OFFSET {
        (UnsafePort::new(SLAVE_DATA), irq - SLAVE_OFFSET)
    } else {
        (UnsafePort::new(MASTER_DATA), irq - MASTER_OFFSET)
    }
}

/// Gives the PICs time: a write to a port that nothing listens to.
pub fn io_wait(ports: &mut PortSpace)
    ensures
        final(ports)@.writes == old(ports)@.writes.push(PortWrite { port: WAIT_PORT, value: 0 }),
        final(ports)@.value(WAIT_PORT) == 0,
        forall|other: u16|
            other != WAIT_PORT ==> final(ports)@.value(other) == old(ports)@.value(other),
{
    let wait: Port<u8> = Port::new(WAIT_PORT);
    wait.write(ports, 0);
}

} // verus!
