use nomouse::render::get_pixel;
use nomouse::selector::SelectorState;
use nomouse::session::{redraw, OutputGeometry, PointerTarget, Session};
use nomouse::surface::PixelSurface;
use nomouse::CoreError;

fn qwerty_keys() -> Vec<u32> {
    vec![
        16, 17, 18, 19, 22, 23, 24, 25, 30, 31, 32, 33, 36, 37, 38, 39, 44, 45, 46, 47, 50, 51,
        52, 53,
    ]
}

fn full_hd() -> OutputGeometry {
    OutputGeometry { x: 0, y: 0, width: 1920, height: 1080 }
}

#[test]
fn end_to_end_selection_emits_center_target() {
    let mut session = Session::new(qwerty_keys(), 12, 16, 1920, 1080).unwrap();
    assert!(!session.is_complete());
    session.on_key_event(1, 16, true);
    session.on_key_event(2, 17, true);
    assert!(!session.is_complete());
    // Coarse region (0, 67, 160, 67); key 22 is index 4 of the 3x8 fine
    // grid: sub-region (80, 67, 20, 22), center (90, 78).
    session.on_key_event(3, 22, true);
    assert!(session.is_complete());
    assert_eq!(
        session.resolved_target(full_hd()),
        Some(PointerTarget { x: 90, y: 78, bounds_width: 1920, bounds_height: 1080 })
    );
}

#[test]
fn duplicate_serials_are_processed_once() {
    let mut session = Session::new(qwerty_keys(), 12, 16, 1920, 1080).unwrap();
    session.on_key_event(1, 16, true);
    // Same serial delivered again with another key: ignored entirely.
    session.on_key_event(1, 17, true);
    match &session.selector {
        SelectorState::Initial(sel) => assert_eq!(sel.last_key, Some(16)),
        SelectorState::Final(_) => panic!("duplicate event must not advance the selector"),
    }
    session.on_key_event(2, 17, true);
    session.on_key_event(3, 22, true);
    assert!(session.is_complete());
}

#[test]
fn release_events_do_not_drive_the_selector() {
    let mut session = Session::new(qwerty_keys(), 12, 16, 1920, 1080).unwrap();
    session.on_key_event(1, 16, false);
    match &session.selector {
        SelectorState::Initial(sel) => assert_eq!(sel.last_key, None),
        SelectorState::Final(_) => panic!("a release must not advance the selector"),
    }
}

#[test]
fn abort_key_cancels_cleanly() {
    let mut session = Session::new(qwerty_keys(), 12, 16, 1920, 1080).unwrap();
    session.on_key_event(1, 16, true);
    session.on_key_event(2, 1, true);
    assert!(session.cancelled);
    assert!(!session.is_complete());
    // Further events are absorbed.
    session.on_key_event(3, 17, true);
    assert!(!session.is_complete());
    assert_eq!(session.resolved_target(full_hd()), None);
}

#[test]
fn session_rejects_too_small_alphabet() {
    let r = Session::new(vec![16, 17, 18], 12, 16, 1920, 1080);
    assert_eq!(r.unwrap_err(), CoreError::AlphabetTooSmall);
}

#[test]
fn target_is_offset_by_output_origin() {
    let mut session = Session::new(qwerty_keys(), 12, 16, 1920, 1080).unwrap();
    session.on_key_event(1, 16, true);
    session.on_key_event(2, 17, true);
    session.on_key_event(3, 22, true);
    let geometry = OutputGeometry { x: 1920, y: 100, width: 1920, height: 1080 };
    assert_eq!(
        session.resolved_target(geometry),
        Some(PointerTarget { x: 1920 + 90, y: 100 + 78, bounds_width: 1920, bounds_height: 1080 })
    );
}

#[test]
fn surface_lifecycle_keeps_one_backing_block() {
    let mut surface = PixelSurface::new(4, 4).unwrap();
    assert!(surface.active);
    assert_eq!((surface.allocations, surface.releases), (1, 0));
    assert_eq!(surface.buf.len(), 2 * 4 * 4 * 4);
    assert!(surface.buf.iter().all(|&b| b == 0));

    surface.resize(8, 2).unwrap();
    // Exactly one block stays live: one new allocation, the previous one
    // released, contents not preserved.
    assert_eq!((surface.allocations, surface.releases), (2, 1));
    assert!(surface.active);
    assert_eq!(surface.buf.len(), 2 * 8 * 2 * 4);
    assert_eq!((surface.width, surface.height), (8, 2));

    surface.release();
    assert!(!surface.active);
    assert_eq!((surface.allocations, surface.releases), (2, 2));
}

#[test]
fn surface_allocation_failure_is_reported() {
    let r = PixelSurface::new(usize::MAX, 2);
    assert_eq!(r.unwrap_err(), CoreError::AllocationFailure);
}

#[test]
fn redraw_paints_backdrop_then_overlay() {
    let session = Session::new(vec![16, 17], 2, 1, 4, 8).unwrap();
    let mut surface = PixelSurface::new(4, 8).unwrap();
    redraw(&session.selector, &mut surface, 4);
    // The backdrop fill is a raw byte pattern (B, G, R, A) = (129, 128,
    // 128, 128).
    assert_eq!(get_pixel(&surface.buf, 1, 1, 4), (128, 128, 129, 128));
    // With no first key pending, every cell's border is drawn: cell (row 0)
    // at x = 0 and cell (row 1) at x = 2, both spanning the full height.
    assert_eq!(get_pixel(&surface.buf, 0, 0, 4), (0, 0, 0, 255));
    assert_eq!(get_pixel(&surface.buf, 2, 0, 4), (0, 0, 0, 255));
    assert_eq!(get_pixel(&surface.buf, 1, 0, 4), (255, 255, 255, 255));
}
