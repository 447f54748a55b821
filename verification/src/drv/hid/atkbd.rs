//! Keyboard driver for PCs and ATs

use vstd::prelude::*;

use crate::dev::kbd::{Kbd, KeyCode};
use crate::dev::Driver;
use crate::kio::idt::{register_interrupt, Handler, Idt, IdtEntry};
use crate::kio::pic;
use crate::kio::port::{PortSpace, PortWrite, UnsafePort};

verus! {

/// The vector at which the keyboard's interrupt arrives.
pub const IRQ: u8 = 33;

/// The port from which scan codes are read.
pub const DATA_PORT: u16 = 0x60;

pub struct AtkbdDriver {
    kbd: Option<Kbd>,
}

impl AtkbdDriver {
    /// The keys that the driver's keyboard holds, if the driver has one.
    pub closed spec fn keys(&self) -> Option<Seq<KeyCode>> {
        match self.kbd {
            Some(kbd) => Some(kbd@),
            None => None,
        }
    }

    /// A driver that has no keyboard to hand keys to.
    pub fn uninitialized() -> (r: AtkbdDriver)
        ensures
            r.keys().is_none(),
    {
        AtkbdDriver { kbd: None }
    }

    /// Makes the keyboard's interrupt arrive at the driver: registers the
    /// handler and unmasks the interrupt, with one write to the data port
    /// of the first PIC.
    pub fn start(&mut self, idt: &mut Idt, ports: &mut PortSpace)
        ensures
            final(self).keys() == old(self).keys(),
            final(idt)@ == old(idt)@.update(
                IRQ as int,
                IdtEntry { handler: Some(Handler::Keyboard), stack_index: None },
            ),
            final(ports)@.value(pic::MASTER_DATA) == ((old(ports)@.value(pic::MASTER_DATA)
                % 0x100) as u8 & !(1u8 << 1u8)),
            final(ports)@.writes == old(ports)@.writes.push(
                PortWrite {
                    port: pic::MASTER_DATA,
                    value: final(ports)@.value(pic::MASTER_DATA),
                },
            ),
            forall|other: u16|
                other != pic::MASTER_DATA ==> final(ports)@.value(other) == old(ports)@.value(
                    other,
                ),
    {
        register_interrupt(idt, IRQ, Handler::Keyboard);
        pic::unmask(ports, IRQ);
    }

    /// Takes the oldest key of the driver's keyboard, if there is one.
    pub fn poll_key(&mut self) -> (r: Option<KeyCode>)
        ensures
            old(self).keys().is_none() ==> r.is_none() && final(self).keys().is_none(),
            old(self).keys().is_some() && old(self).keys().unwrap().len() == 0 ==> r.is_none()
                && final(self).keys() == old(self).keys(),
            old(self).keys().is_some() && old(self).keys().unwrap().len() > 0 ==> r == Some(
                old(self).keys().unwrap()[0],
            ) && final(self).keys() == Some(
                old(self).keys().unwrap().subrange(1, old(self).keys().unwrap().len() as int),
            ),
    {
        match &mut self.kbd {
            Some(kbd) => kbd.poll(),
            None => None,
        }
    }

    /// Hands the key of the scan code to the keyboard, if there is one.
    pub fn process_scancode(&mut self, scancode: u8)
        requires
            old(self).keys().is_some() ==> old(self).keys().unwrap().len() < usize::MAX,
        ensures
            old(self).keys().is_none() ==> final(self).keys().is_none(),
            old(self).keys().is_some() ==> final(self).keys() == Some(
                old(self).keys().unwrap().push(KeyCode(scancode)),
            ),
    {
        let key = parse_scancode(scancode);
        match &mut self.kbd {
            Some(kbd) => {
                kbd.process_key(key);
            },
            None => {},
        }
    }

    /// Handles the keyboard's interrupt: reads the scan code, hands its key
    /// on, and tells the PIC that the interrupt is done.
    pub fn handle_irq(&mut self, ports: &mut PortSpace)
        requires
            old(self).keys().is_some() ==> old(self).keys().unwrap().len() < usize::MAX,
        ensures
            old(self).keys().is_none() ==> final(self).keys().is_none(),
            old(self).keys().is_some() ==> final(self).keys() == Some(
                old(self).keys().unwrap().push(KeyCode((old(ports)@.value(DATA_PORT) % 0x100) as u8)),
            ),
            final(ports)@.writes == old(ports)@.writes.push(
                PortWrite { port: pic::MASTER_CMD, value: pic::PIC_EOI as u32 },
            ),
    {
        let data: UnsafePort<u8> = UnsafePort::new(DATA_PORT);
        let scancode = data.read(ports);
        self.process_scancode(scancode);
        pic::eoi(ports, IRQ);
    }
}

impl Driver<Kbd> for AtkbdDriver {
    /// Gives the driver the keyboard that it hands keys to.
    fn init(&mut self, api: Kbd)
        ensures
            final(self).keys() == Some(api@),
    {
        self.kbd = Some(api);
    }
}

/// The key of a scan code.
pub fn parse_scancode(scancode: u8) -> (r: KeyCode)
    ensures
        r == KeyCode(scancode),
{
    KeyCode(scancode)
}

} // verus!
