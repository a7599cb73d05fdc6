use badtv::scan::{scan_start, scan_step, ScanAction, ScanEvent, ScanState};

#[test]
fn scan_one_per_clip_until_quota() {
    let (s, a) = scan_start(3, 2);
    assert_eq!(a, ScanAction::ReadCaptions(0));
    let (s, a) = scan_step(3, 2, s, ScanEvent::Captions(2));
    assert_eq!(a, ScanAction::TryHit { clip: 0, hit: 0 });
    let (s, a) = scan_step(3, 2, s, ScanEvent::HitFailed);
    assert_eq!(a, ScanAction::TryHit { clip: 0, hit: 1 });
    let (s, a) = scan_step(3, 2, s, ScanEvent::HitExtracted);
    assert_eq!(a, ScanAction::ReadCaptions(1));
    let (s, a) = scan_step(3, 2, s, ScanEvent::Captions(0));
    assert_eq!(a, ScanAction::ReadCaptions(2));
    let (s, a) = scan_step(3, 2, s, ScanEvent::Captions(3));
    assert_eq!(a, ScanAction::TryHit { clip: 2, hit: 0 });
    let (s, a) = scan_step(3, 2, s, ScanEvent::HitExtracted);
    assert_eq!(a, ScanAction::Finish);
    assert_eq!(s, ScanState::Done { collected: 2 });
}

#[test]
fn scan_first_success_with_quota_one() {
    let (s, _) = scan_start(5, 1);
    let (s, _) = scan_step(5, 1, s, ScanEvent::Captions(1));
    let (s, a) = scan_step(5, 1, s, ScanEvent::HitExtracted);
    assert_eq!(a, ScanAction::Finish);
    assert_eq!(s, ScanState::Done { collected: 1 });
}

#[test]
fn scan_runs_out_of_clips() {
    let (s, _) = scan_start(1, 3);
    let (s, _) = scan_step(1, 3, s, ScanEvent::Captions(1));
    let (s, a) = scan_step(1, 3, s, ScanEvent::HitFailed);
    assert_eq!(a, ScanAction::Finish);
    assert_eq!(s, ScanState::Done { collected: 0 });
    assert_eq!(scan_start(0, 3).1, ScanAction::Finish);
    assert_eq!(scan_start(4, 0).1, ScanAction::Finish);
}

#[test]
fn scan_ignores_unexpected_event() {
    let (s, a) = scan_start(2, 1);
    let (t, b) = scan_step(2, 1, s, ScanEvent::HitFailed);
    assert_eq!((t, b), (s, a));
}
