use audio_keeper::naming::Stamp;
use audio_keeper::session::{
    Delivery, Phase, Rotation, Segment, SegmentError, SegmentState, Session, SessionError,
};

fn stamp(minute: u32) -> Stamp {
    Stamp::new(2024, 1, 1, 10, minute).unwrap()
}

#[test]
fn push_during_swap_is_dropped_and_new_segment_is_clean() {
    let mut s = Session::new();
    assert_eq!(s.start(stamp(0), true), Ok(()));
    assert_eq!(s.push(true), Delivery::Appended);
    let r = s.rotate(stamp(1), true);
    assert_eq!(
        r,
        Ok(Rotation::Swapped { finished: Segment { start: stamp(0), state: SegmentState::Finalized } })
    );
    assert_eq!(s.push(false), Delivery::Dropped);
    assert_eq!(s.active(), Some(Segment { start: stamp(1), state: SegmentState::Open }));
    assert_eq!(s.push(true), Delivery::Appended);
}

#[test]
fn frames_before_start_and_after_stop_are_dropped() {
    let mut s = Session::new();
    assert_eq!(s.push(true), Delivery::Dropped);
    s.start(stamp(0), true).unwrap();
    assert_eq!(s.phase(), Phase::Streaming);
    assert_eq!(s.stop(), Ok(Segment { start: stamp(0), state: SegmentState::Finalized }));
    assert_eq!(s.phase(), Phase::Stopped);
    assert_eq!(s.active(), None);
    assert_eq!(s.push(true), Delivery::Dropped);
}

#[test]
fn failed_creation_keeps_current_segment() {
    let mut s = Session::new();
    s.start(stamp(0), true).unwrap();
    assert_eq!(s.rotate(stamp(1), false), Ok(Rotation::Skipped));
    assert_eq!(s.active(), Some(Segment { start: stamp(0), state: SegmentState::Open }));
}

#[test]
fn failed_first_segment_leaves_session_idle() {
    let mut s = Session::new();
    assert_eq!(s.start(stamp(0), false), Err(SessionError::SegmentCreate));
    assert_eq!(s.phase(), Phase::Idle);
    assert_eq!(s.active(), None);
}

#[test]
fn misuse_is_invalid_state() {
    let mut s = Session::new();
    assert_eq!(s.rotate(stamp(1), true), Err(SessionError::InvalidState));
    assert_eq!(s.stop(), Err(SessionError::InvalidState));
    s.start(stamp(0), true).unwrap();
    assert_eq!(s.start(stamp(0), true), Err(SessionError::InvalidState));
    s.stop().unwrap();
    assert_eq!(s.stop(), Err(SessionError::InvalidState));
    assert_eq!(s.rotate(stamp(2), true), Err(SessionError::InvalidState));
}

#[test]
fn segment_finalizes_once() {
    let mut seg = Segment::open(stamp(3));
    assert_eq!(seg.check_append(), Ok(()));
    assert_eq!(seg.finalize(), Ok(()));
    assert_eq!(seg.state, SegmentState::Finalized);
    assert_eq!(seg.finalize(), Err(SegmentError::InvalidState));
    assert_eq!(seg.check_append(), Err(SegmentError::InvalidState));
}

#[test]
fn rotation_needs_a_later_minute() {
    let mut s = Session::new();
    assert!(!s.may_rotate_to(stamp(1)));
    s.start(stamp(5), true).unwrap();
    assert!(!s.may_rotate_to(stamp(5)));
    assert!(!s.may_rotate_to(stamp(4)));
    assert!(s.may_rotate_to(stamp(6)));
    assert_eq!(s.rotate(stamp(5), true), Ok(Rotation::Skipped));
    assert_eq!(s.rotate(stamp(4), true), Ok(Rotation::Skipped));
    assert_eq!(s.active(), Some(Segment { start: stamp(5), state: SegmentState::Open }));
    let next_day = Stamp::new(2024, 1, 2, 0, 0).unwrap();
    assert!(s.may_rotate_to(next_day));
}
