//! Running a VM on its own, answering requests for frames, and turning the
//! VM's screen into the bytes of a video frame.

use vstd::prelude::*;

use super::cycle::{cycles_run, screen};
use super::{SpecVM, VM};

verus! {

/// What the VM's runner can be asked.
#[derive(Debug, Clone, Copy, PartialEq, Eq)]
pub enum VMMessage {
    SendFrame,
    Quit,
}

/// A rendered screen, sent in answer to `SendFrame`.
pub struct VMFrame {
    pub framebuffer: [bool; 12000],
}

/// Cycles run between two looks at the message queue.
pub const CYCLES_PER_POLL: usize = 50;

/// What one turn of the runner leads to: the runner stops on `Quit`;
/// otherwise it hands out the frame asked for, if one was, and goes on with
/// the new count of cycles since the last frame.
pub enum RuntimeStep {
    Quit,
    Continue { frame: Option<VMFrame>, cycles_since_frame: u64 },
}

/// The VM once the message is handled, before the cycles run: a frame
/// request renders the screen.
pub open spec fn answered(v: SpecVM, message: Option<VMMessage>) -> SpecVM {
    if message == Some(VMMessage::SendFrame) {
        SpecVM { framebuffer: screen(v.exas, v.exas.len() as int), ..v }
    } else {
        v
    }
}

/// The count of cycles since the last frame, after a turn.
pub open spec fn counted(message: Option<VMMessage>, cycles_since_frame: u64) -> int {
    (if message == Some(VMMessage::SendFrame) {
        0
    } else {
        cycles_since_frame as int
    }) + CYCLES_PER_POLL
}

impl VM {
    /// One turn of the runner, given the message found in the queue, if
    /// any: `Quit` stops it; `SendFrame` renders a frame to hand out and
    /// restarts the count; then 50 cycles run and are counted.
    pub fn runtime_step(&mut self, message: Option<VMMessage>, cycles_since_frame: u64) -> (r: RuntimeStep)
        requires
            old(self)@.wf(),
            old(self).cycle + CYCLES_PER_POLL <= u64::MAX,
            cycles_since_frame + CYCLES_PER_POLL <= u64::MAX,
        ensures
            message == Some(VMMessage::Quit) ==> r is Quit && final(self)@ == old(self)@,
            message != Some(VMMessage::Quit) ==> (r matches RuntimeStep::Continue { frame, cycles_since_frame: c } && {
                &&& c == counted(message, cycles_since_frame)
                &&& (message == Some(VMMessage::SendFrame) <==> frame is Some)
                &&& frame matches Some(f) ==> f.framebuffer@ == screen(
                    old(self)@.exas,
                    old(self)@.exas.len() as int,
                )
                &&& cycles_run(answered(old(self)@, message), final(self)@, CYCLES_PER_POLL as nat)
            }),
            final(self)@.wf(),
            final(self).redshift == old(self).redshift,
    {
        let mut count = cycles_since_frame;
        let mut frame: Option<VMFrame> = None;
        match message {
            Some(VMMessage::Quit) => {
                return RuntimeStep::Quit;
            },
            Some(VMMessage::SendFrame) => {
                let fb = *self.render();
                frame = Some(VMFrame { framebuffer: fb });
                count = 0;
            },
            None => {},
        }
        self.run_cycles(CYCLES_PER_POLL);
        RuntimeStep::Continue { frame, cycles_since_frame: count + CYCLES_PER_POLL as u64 }
    }
}

/// Turns the screen into a 16-bit video frame: two bytes per pixel, both
/// 255 where the pixel is lit and 0 where it is dark.
pub fn update_video_frame(video_frame: &mut [u8; 24000], framebuffer: &[bool; 12000])
    ensures
        forall|i: int|
            0 <= i < 24000 ==> #[trigger] final(video_frame)@[i] == (if framebuffer@[i / 2] {
                255u8
            } else {
                0u8
            }),
{
    let mut idx: usize = 0;
    while idx < 12000
        invariant
            idx <= 12000,
            video_frame@.len() == 24000,
            forall|i: int|
                0 <= i < 2 * idx ==> #[trigger] video_frame@[i] == (if framebuffer@[i / 2] {
                    255u8
                } else {
                    0u8
                }),
        decreases 12000 - idx,
    {
        let v: u8 = if framebuffer[idx] { 255 } else { 0 };
        video_frame[idx * 2] = v;
        video_frame[idx * 2 + 1] = v;
        idx = idx + 1;
    }
}

} // verus!
