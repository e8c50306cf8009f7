use raytrace::shading::{Event, PathState, MAX_DEPTH};

#[test]
fn path_at_max_depth_is_black() {
    let s = PathState::start(MAX_DEPTH);
    assert_eq!(s, PathState::CutOff);
    assert!(s.is_black());
    // whatever the world answers, nothing changes
    assert_eq!(s.advance(Event::Missed), PathState::CutOff);
    assert_eq!(s.advance(Event::Scattered), PathState::CutOff);
    assert_eq!(PathState::start(MAX_DEPTH + 7), PathState::CutOff);
    assert_eq!(PathState::start(usize::MAX), PathState::CutOff);
}

#[test]
fn path_below_max_depth_traces() {
    assert_eq!(PathState::start(0), PathState::Tracing { depth: 0 });
    assert_eq!(PathState::start(49), PathState::Tracing { depth: 49 });
    assert!(!PathState::start(0).is_black());
}

#[test]
fn path_events() {
    let s = PathState::start(3);
    assert_eq!(s.advance(Event::Missed), PathState::Escaped);
    assert!(!PathState::Escaped.is_black());
    assert_eq!(s.advance(Event::Absorbed), PathState::Absorbed);
    assert!(PathState::Absorbed.is_black());
    assert_eq!(s.advance(Event::Scattered), PathState::Tracing { depth: 4 });
    assert_eq!(PathState::start(49).advance(Event::Scattered), PathState::CutOff);
    assert_eq!(PathState::Escaped.advance(Event::Absorbed), PathState::Escaped);
}

#[test]
fn path_ends_within_max_depth_bounces() {
    let mut s = PathState::start(0);
    let mut bounces = 0;
    while let PathState::Tracing { .. } = s {
        s = s.advance(Event::Scattered);
        bounces += 1;
    }
    assert_eq!(bounces, MAX_DEPTH);
    assert_eq!(s, PathState::CutOff);
}
