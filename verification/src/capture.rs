//! What to do with the answer of the capture provider.

use vstd::prelude::*;

verus! {

/// The refresh rate that frames are polled at, per second.
pub const REFRESH_RATE: u64 = 60;

/// The time between two frames, in nanoseconds.
pub const FRAME_INTERVAL_NANOS: u64 = 1_000_000_000 / 60;

/// What the capture provider answered when asked for a frame.
#[derive(Clone, Copy, Debug, PartialEq, Eq, Structural)]
pub enum CaptureOutcome {
    /// A frame is there.
    Frame,
    /// No frame is ready yet.
    NotReady,
    /// The capture failed for another reason.
    Failed,
}

/// What the caller does next.
#[derive(Clone, Copy, Debug, PartialEq, Eq, Structural)]
pub enum CaptureStep {
    /// Hand the frame to the normalizer.
    Normalize,
    /// Wait, then ask again.
    Retry { wait_nanos: u64 },
    /// Give up: without a capture the engine is of no use.
    Abort,
}

/// A frame that is not ready is asked for again after one frame interval;
/// any other failure is final.
pub open spec fn step_after(outcome: CaptureOutcome) -> CaptureStep {
    match outcome {
        CaptureOutcome::Frame => CaptureStep::Normalize,
        CaptureOutcome::NotReady => CaptureStep::Retry { wait_nanos: FRAME_INTERVAL_NANOS },
        CaptureOutcome::Failed => CaptureStep::Abort,
    }
}

/// Decides what to do with the provider's answer.
pub fn capture_step(outcome: CaptureOutcome) -> (step: CaptureStep)
    ensures
        step == step_after(outcome),
{
    match outcome {
        CaptureOutcome::Frame => CaptureStep::Normalize,
        CaptureOutcome::NotReady => CaptureStep::Retry { wait_nanos: FRAME_INTERVAL_NANOS },
        CaptureOutcome::Failed => CaptureStep::Abort,
    }
}

} // verus!
