//! Universal keyboard device abstraction

use std::collections::VecDeque;
use vstd::prelude::*;
use vstd::string::StringSliceAdditionalSpecFns;

pub mod keys;

pub use self::keys::KeyCode;

use crate::dev::Device;

verus! {

/// Number of keys that the buffer has room for from the start.
pub const BUFFER_SIZE: usize = 256;

/// Whether a key went down or up.
#[derive(Debug, Copy, Clone, Eq, PartialEq, Hash, Structural)]
pub enum KeyState {
    Pressed,
    Released,
}

/// The keys that have arrived and have not been read, oldest first.
pub struct KbdInner {
    buffer: VecDeque<KeyCode>,
}

impl View for KbdInner {
    type V = Seq<KeyCode>;

    closed spec fn view(&self) -> Seq<KeyCode> {
        self.buffer@
    }
}

impl KbdInner {
    pub fn new() -> (r: KbdInner)
        ensures
            r@ == Seq::<KeyCode>::empty(),
    {
        KbdInner { buffer: VecDeque::with_capacity(BUFFER_SIZE) }
    }

    /// Takes the oldest key, if there is one.
    pub fn poll(&mut self) -> (r: Option<KeyCode>)
        ensures
            old(self)@.len() == 0 ==> r.is_none() && final(self)@ == old(self)@,
            old(self)@.len() > 0
                ==> r == Some(old(self)@[0]) && final(self)@ == old(self)@.subrange(
                1,
                old(self)@.len() as int,
            ),
    {
        self.buffer.pop_front()
    }

    /// Adds a key as the newest.
    pub fn push(&mut self, key: KeyCode)
        requires
            old(self)@.len() < usize::MAX,
        ensures
            final(self)@ == old(self)@.push(key),
    {
        self.buffer.push_back(key);
    }
}

/// Keyboard device
pub struct Kbd {
    inner: KbdInner,
}

impl View for Kbd {
    type V = Seq<KeyCode>;

    closed spec fn view(&self) -> Seq<KeyCode> {
        self.inner@
    }
}

impl Kbd {
    /// A keyboard on which no key has arrived.
    pub fn new() -> (r: Kbd)
        ensures
            r@ == Seq::<KeyCode>::empty(),
    {
        Kbd { inner: KbdInner::new() }
    }

    /// Asynchronously checks if there is key input from keyboard and pulls it,
    /// or returns `None` if there are not any.
    pub fn poll(&mut self) -> (r: Option<KeyCode>)
        ensures
            old(self)@.len() == 0 ==> r.is_none() && final(self)@ == old(self)@,
            old(self)@.len() > 0
                ==> r == Some(old(self)@[0]) && final(self)@ == old(self)@.subrange(
                1,
                old(self)@.len() as int,
            ),
    {
        self.inner.poll()
    }

    /// Takes a key from the driver into the buffer.
    pub fn process_key(&mut self, key: KeyCode)
        requires
            old(self)@.len() < usize::MAX,
        ensures
            final(self)@ == old(self)@.push(key),
    {
        self.inner.push(key);
    }
}

impl Device for Kbd {
    open spec fn spec_class_name() -> Seq<u8> {
        "kbd".spec_bytes()
    }

    fn class_name() -> &'static str {
        "kbd"
    }
}

} // verus!
