//! Pacing of the video render loop: on each wake-up, whether a frame is
//! drawn and at what size, whether the drawing target must be made anew,
//! and whether a drawn frame is handed to the window.

use vstd::prelude::*;

verus! {

/// What the render loop remembers between wake-ups.
#[derive(Debug, Clone, Copy, PartialEq, Eq, Structural)]
pub struct RenderLoop {
    /// The size the last frame was drawn at (0×0 before the first).
    pub last_w: u32,
    pub last_h: u32,
    /// A drawing target of the last size exists.
    pub has_target: bool,
}

impl Default for RenderLoop {
    fn default() -> (r: RenderLoop)
        ensures
            r == (RenderLoop { last_w: 0, last_h: 0, has_target: false }),
    {
        RenderLoop { last_w: 0, last_h: 0, has_target: false }
    }
}

/// What one wake-up of the render loop does.
#[derive(Debug, Clone, Copy, PartialEq, Eq, Structural)]
pub enum FrameStep {
    /// Nothing to draw: no size yet, or no new frame at an unchanged size.
    Skip,
    /// Draw a frame of `w`×`h`; `resized` when the size changed since the
    /// last frame, `new_target` when the drawing target must be (re)made
    /// first.
    Draw { w: u32, h: u32, resized: bool, new_target: bool },
}

/// Whether the player's update flags announce a new frame (their lowest
/// bit).
pub open spec fn frame_ready_spec(flags: u64) -> bool {
    flags % 2 == 1
}

pub open spec fn frame_step_spec(s: RenderLoop, w: u32, h: u32, flags: u64) -> (
    RenderLoop,
    FrameStep,
) {
    let resized = w != s.last_w || h != s.last_h;
    if w == 0 || h == 0 {
        (s, FrameStep::Skip)
    } else if !frame_ready_spec(flags) && !resized {
        (s, FrameStep::Skip)
    } else {
        (
            RenderLoop { last_w: w, last_h: h, has_target: true },
            FrameStep::Draw { w, h, resized, new_target: resized || !s.has_target },
        )
    }
}

/// One wake-up: the window asks for `w`×`h`, and the player's update
/// flags are `flags`. A frame is drawn when the player has a new one or
/// the size changed (so a paused picture is redrawn at the new size).
pub fn frame_step(s: RenderLoop, w: u32, h: u32, flags: u64) -> (r: (RenderLoop, FrameStep))
    ensures
        r == frame_step_spec(s, w, h, flags),
{
    if w == 0 || h == 0 {
        return (s, FrameStep::Skip);
    }
    let resized = w != s.last_w || h != s.last_h;
    let ready = flags & 1 != 0;
    assert(ready == frame_ready_spec(flags)) by {
        assert((flags & 1 != 0) == (flags % 2 == 1)) by (bit_vector);
    }
    if !ready && !resized {
        (s, FrameStep::Skip)
    } else {
        (
            RenderLoop { last_w: w, last_h: h, has_target: true },
            FrameStep::Draw { w, h, resized, new_target: resized || !s.has_target },
        )
    }
}

/// Milliseconds that must pass between two frames handed to the window at
/// an unchanged size.
pub const FRAME_THROTTLE_MS: u64 = 33;

/// Whether a drawn frame is handed to the window: always after a resize,
/// otherwise once `elapsed_ms` since the last one reach the throttle.
pub fn send_frame(resized: bool, elapsed_ms: u64) -> (r: bool)
    ensures
        r == (resized || elapsed_ms >= FRAME_THROTTLE_MS),
{
    resized || elapsed_ms >= FRAME_THROTTLE_MS
}

/// An RGBA picture of `w`×`h` opaque black pixels, rows one after another.
pub fn black_frame(w: u32, h: u32) -> (r: Vec<u8>)
    requires
        w as int * 4 <= u32::MAX,
        w as int * 4 * h as int <= usize::MAX,
    ensures
        r@.len() == w as int * 4 * h as int,
        forall|i: int| 0 <= i < r@.len() ==> r@[i] == if i % 4 == 3 { 255u8 } else { 0u8 },
{
    let stride: u32 = w * 4;
    assert(stride as int * h as int == w as int * 4 * h as int) by (nonlinear_arith)
        requires
            stride == w * 4,
    ;
    let n: usize = (stride as usize) * (h as usize);
    let mut buf: Vec<u8> = Vec::with_capacity(n);
    let mut i: usize = 0;
    while i < n
        invariant
            i <= n,
            buf@.len() == i,
            forall|k: int| 0 <= k < i ==> buf@[k] == if k % 4 == 3 { 255u8 } else { 0u8 },
        decreases n - i,
    {
        if i % 4 == 3 {
            buf.push(255u8);
        } else {
            buf.push(0u8);
        }
        i += 1;
    }
    buf
}

/// An unchanged size with no new frame never draws, and drawing remembers
/// the size, so the next wake-up at that size draws only a new frame and
/// keeps the drawing target.
pub proof fn lemma_redraw_only_on_change(s: RenderLoop, w: u32, h: u32, f1: u64, f2: u64)
    requires
        frame_step_spec(s, w, h, f1).1 != FrameStep::Skip,
    ensures
        frame_step_spec(frame_step_spec(s, w, h, f1).0, w, h, f2).1 == if frame_ready_spec(f2) {
            FrameStep::Draw { w, h, resized: false, new_target: false }
        } else {
            FrameStep::Skip
        },
{
}

} // verus!
