//! The decisions of animated GIF playback: how often to loop, how long each
//! frame stays, and when to move the cursor back up for the next frame.

use vstd::prelude::*;

verus! {

/// How often an animation asks to be played.
#[derive(Clone, Copy, Debug, PartialEq, Eq, Structural)]
pub enum GifRepeat {
    /// A fixed number of times.
    Finite(u16),
    /// Forever.
    Infinite,
}

/// How many times to play an animation: once when `once` is set, else as often as
/// it asks (without end for an endless animation).
pub fn loop_count(repeat: GifRepeat, once: bool) -> (n: usize)
    ensures
        n == if once {
            1
        } else {
            match repeat {
                GifRepeat::Infinite => usize::MAX,
                GifRepeat::Finite(k) => k as usize,
            }
        },
{
    if once {
        return 1;
    }
    match repeat {
        GifRepeat::Infinite => usize::MAX,
        GifRepeat::Finite(k) => k as usize,
    }
}

/// How long a frame stays, in milliseconds: its delay, except that delays under
/// 20 ms (often meant as "unset") become 100 ms.
pub fn frame_delay_ms(delay_ms: u64) -> (d: u64)
    ensures
        d == if delay_ms < 20 { 100 } else { delay_ms },
        d >= 20,
{
    if delay_ms < 20 {
        100
    } else {
        delay_ms
    }
}

/// How long to wait after showing a frame whose delay is `delay_ms` when `elapsed_ms`
/// have already passed since it started.
pub fn remaining_delay(delay_ms: u64, elapsed_ms: u64) -> (wait: u64)
    ensures
        wait == if elapsed_ms < delay_ms { delay_ms - elapsed_ms } else { 0 },
        elapsed_ms + wait >= delay_ms,
{
    if elapsed_ms < delay_ms {
        delay_ms - elapsed_ms
    } else {
        0
    }
}

/// Whether the cursor moves back up after frame `frame_i` of pass `loop_i`, so that
/// the next frame overwrites it: always, except after the last frame of the last
/// pass.
pub fn rewinds_after(loop_i: usize, loops: usize, frame_i: usize, frames: usize) -> (r: bool)
    requires
        loop_i < loops,
        frame_i < frames,
    ensures
        r == !(loop_i + 1 == loops && frame_i + 1 == frames),
{
    !(loop_i + 1 == loops && frame_i + 1 == frames)
}

} // verus!
