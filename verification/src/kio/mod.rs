//! Kernel Input Output subsystem

use vstd::prelude::*;
use vstd::string::StringSliceAdditionalSpecFns;

pub mod idt;
pub mod pic;
pub mod port;

use crate::dev::output_serial::OutputSerial;
use crate::dev::text_video::{TextStyle, TextVideo};
use crate::drv::gfx::vga::text_buffer::{cursor_writes, VgaTextVideo};

use self::port::PortSpace;

verus! {

/// Performs early initialization of KIO subsystem, setting up
/// so called *early console*: shows the cursor, clears the screen and
/// prints a line that tells that the console works.
pub fn early_init(video: &mut VgaTextVideo, ports: &mut PortSpace)
    requires
        old(video)@.wf(),
    ensures
        final(video)@.wf(),
        final(video)@ == old(video)@.cleared().put_bytes("early console works\n".spec_bytes()),
{
    video.enable_cursor(ports);
    video.clear(ports);
    proof {
        assert(video@ == old(video)@.cleared()) by {
            assert(video@.chars =~= old(video)@.cleared().chars);
        }
    }
    _print(video, ports, "early console works\n");
}

/// Temporarily applies text style to current kernel output device: `f`
/// runs with the style set, and afterwards the style is the one that it
/// was before.
pub fn with_output_style<F: FnOnce(&mut VgaTextVideo, &mut PortSpace)>(
    video: &mut VgaTextVideo,
    ports: &mut PortSpace,
    text_style: TextStyle,
    f: F,
)
    requires
        old(video)@.wf(),
        forall|screen: &mut VgaTextVideo, space: &mut PortSpace|
            screen@.wf() && screen.spec_style() == text_style ==> call_requires(f, (screen, space)),
        forall|screen: &mut VgaTextVideo, space: &mut PortSpace|
            call_ensures(f, (screen, space), ()) ==> final(screen)@.wf(),
    ensures
        final(video)@.wf(),
        final(video).spec_style() == old(video).spec_style(),
        exists|screen: &mut VgaTextVideo, space: &mut PortSpace|
            screen@.chars == old(video)@.chars && screen@.cursor == old(video)@.cursor
                && screen.spec_style() == text_style && *space == *old(ports) && call_ensures(
                f,
                (screen, space),
                (),
            ) && final(video)@.chars == final(screen)@.chars && final(video)@.cursor
                == final(screen)@.cursor && *final(ports) == *final(space),
{
    let prev_style = video.current_style();
    video.set_current_style(text_style);
    f(video, ports);
    video.set_current_style(prev_style);
}

/// Prints the text on the kernel's output device.
pub fn _print(video: &mut VgaTextVideo, ports: &mut PortSpace, text: &str)
    requires
        old(video)@.wf(),
    ensures
        final(video)@.wf(),
        final(video)@ == old(video)@.put_bytes(text.spec_bytes()),
        final(ports)@.writes == old(ports)@.writes + cursor_writes(final(video)@.cursor),
{
    video.put_str(ports, text);
}

} // verus!
