//! Device abstractions

use vstd::prelude::*;
use vstd::string::StringSliceAdditionalSpecFns;

pub mod console;
pub mod kbd;
pub mod mgr;
pub mod output_serial;
pub mod text_video;

verus! {

/// Devices are required to be externally immutable.
pub trait Device {
    /// The name of the class of devices that the device belongs to, as
    /// bytes.
    spec fn spec_class_name() -> Seq<u8>;

    /// The name of the class of devices that the device belongs to.
    fn class_name() -> (r: &'static str)
        ensures
            r.spec_bytes() == Self::spec_class_name(),
    ;
}

pub trait Driver<D> {
    fn init(&mut self, api: D);
}

} // verus!
