use encounter::capture::{capture_step, CaptureOutcome, CaptureStep, FRAME_INTERVAL_NANOS};

#[test]
fn a_frame_goes_to_the_normalizer() {
    assert_eq!(capture_step(CaptureOutcome::Frame), CaptureStep::Normalize);
}

#[test]
fn a_frame_that_is_not_ready_is_asked_for_again_after_one_interval() {
    assert_eq!(FRAME_INTERVAL_NANOS, 16_666_666);
    assert_eq!(
        capture_step(CaptureOutcome::NotReady),
        CaptureStep::Retry { wait_nanos: 16_666_666 }
    );
}

#[test]
fn any_other_failure_is_final() {
    assert_eq!(capture_step(CaptureOutcome::Failed), CaptureStep::Abort);
}
