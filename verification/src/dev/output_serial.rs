//! Output serials.

use vstd::prelude::*;

use crate::kio::port::PortSpace;

verus! {

/// Common interface for output serials for messaging text
pub trait OutputSerial {
    /// What the device needs to be in order.
    spec fn ready(&self) -> bool;

    /// Print single ASCII character
    ///
    /// Special characters are expected to be treated as their are intended, e.g. `\n` is expected
    /// to start new line.
    fn put_byte(&mut self, ports: &mut PortSpace, char: u8)
        requires
            old(self).ready(),
        ensures
            final(self).ready(),
    ;

    /// Print while ASCII string
    ///
    /// UTF-8 is not expected to be supported: every byte of `s` is printed
    /// as a character of its own.
    fn put_str(&mut self, ports: &mut PortSpace, s: &str)
        requires
            old(self).ready(),
        ensures
            final(self).ready(),
    ;
}

} // verus!
