//! Frame timing and transient input state of the viewer.
use vstd::prelude::*;

verus! {

#[verifier::external_type_specification]
#[verifier::external_body]
pub struct ExInstant(std::time::Instant);

/// Relies on std::time::Instant::now: a reading of the monotonic clock.
/// Nothing is promised of the value.
#[verifier::external_body]
fn now() -> (r: std::time::Instant) {
    std::time::Instant::now()
}

/// When the last frame was drawn, how long it took, and a running average of
/// frame times. Durations are in nanoseconds.
pub struct FrameTiming {
    pub last_render_time: std::time::Instant,
    pub dt: u64,
    pub average_frame_time: u64,
}

impl FrameTiming {
    /// Timing that starts now, with no frame time recorded.
    pub fn new() -> (r: FrameTiming)
        ensures
            r.dt == 0,
            r.average_frame_time == 0,
    {
        FrameTiming { last_render_time: now(), dt: 0, average_frame_time: 0 }
    }

    /// Records a frame that took `dt`: the average becomes the mean of the old
    /// average and `dt`, rounded down.
    pub fn update(&mut self, dt: u64)
        ensures
            final(self).dt == dt,
            final(self).average_frame_time == (old(self).average_frame_time + dt) / 2,
            final(self).last_render_time == old(self).last_render_time,
    {
        self.dt = dt;
        let sum = self.average_frame_time as u128 + dt as u128;
        self.average_frame_time = (sum / 2) as u64;
    }

    /// Forgets the average.
    pub fn reset(&mut self)
        ensures
            final(self).average_frame_time == 0,
            final(self).dt == old(self).dt,
            final(self).last_render_time == old(self).last_render_time,
    {
        self.average_frame_time = 0;
    }
}

/// Viewer toggles that live only for a session.
#[derive(Clone, Copy, Debug, PartialEq, Eq, Structural)]
pub struct TmpResources {
    pub use_mouse: bool,
    pub mouse_pressed: bool,
    pub fullscreen: bool,
    pub low_res: bool,
}

impl Default for TmpResources {
    fn default() -> (r: TmpResources)
        ensures
            r == (TmpResources {
                use_mouse: false,
                mouse_pressed: false,
                fullscreen: false,
                low_res: false,
            }),
    {
        TmpResources { use_mouse: false, mouse_pressed: false, fullscreen: false, low_res: false }
    }
}

} // verus!
