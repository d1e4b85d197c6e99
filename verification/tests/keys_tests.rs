use gloom_rs::keys::{camera_move, is_exit_key, CameraMove, Key, PressedKeys};

#[test]
fn new_set_holds_nothing() {
    let keys = PressedKeys::new();
    assert_eq!(keys.len(), 0);
    assert!(!keys.contains(Key::W));
    assert!(keys.as_slice().is_empty());
}

#[test]
fn press_adds_in_order() {
    let mut keys = PressedKeys::new();
    keys.press(Key::W);
    keys.press(Key::A);
    keys.press(Key::Other(42));
    assert_eq!(keys.as_slice(), &[Key::W, Key::A, Key::Other(42)]);
    assert!(keys.contains(Key::A));
    assert!(keys.contains(Key::Other(42)));
    assert!(!keys.contains(Key::Other(43)));
}

#[test]
fn pressing_held_key_again_changes_nothing() {
    let mut keys = PressedKeys::new();
    keys.press(Key::W);
    keys.press(Key::S);
    keys.press(Key::W);
    assert_eq!(keys.as_slice(), &[Key::W, Key::S]);
    assert_eq!(keys.len(), 2);
}

#[test]
fn release_removes_and_keeps_order() {
    let mut keys = PressedKeys::new();
    keys.press(Key::W);
    keys.press(Key::A);
    keys.press(Key::D);
    keys.release(Key::A);
    assert_eq!(keys.as_slice(), &[Key::W, Key::D]);
    assert!(!keys.contains(Key::A));
}

#[test]
fn releasing_key_not_held_changes_nothing() {
    let mut keys = PressedKeys::new();
    keys.press(Key::Space);
    keys.release(Key::LShift);
    assert_eq!(keys.as_slice(), &[Key::Space]);
    keys.release(Key::Space);
    keys.release(Key::Space);
    assert_eq!(keys.len(), 0);
}

#[test]
fn press_then_release_restores() {
    let mut keys = PressedKeys::new();
    keys.press(Key::Up);
    keys.press(Key::Left);
    let before: Vec<Key> = keys.as_slice().to_vec();
    keys.press(Key::Q);
    keys.release(Key::Q);
    assert_eq!(keys.as_slice(), before.as_slice());
}

#[test]
fn released_key_pressed_again_goes_last() {
    let mut keys = PressedKeys::new();
    keys.press(Key::W);
    keys.press(Key::S);
    keys.release(Key::W);
    keys.press(Key::W);
    assert_eq!(keys.as_slice(), &[Key::S, Key::W]);
}

#[test]
fn camera_moves_of_keys() {
    assert_eq!(camera_move(Key::W), Some(CameraMove::Forward));
    assert_eq!(camera_move(Key::S), Some(CameraMove::Backward));
    assert_eq!(camera_move(Key::A), Some(CameraMove::StrafeLeft));
    assert_eq!(camera_move(Key::D), Some(CameraMove::StrafeRight));
    assert_eq!(camera_move(Key::Space), Some(CameraMove::Rise));
    assert_eq!(camera_move(Key::LShift), Some(CameraMove::Sink));
    assert_eq!(camera_move(Key::Up), Some(CameraMove::PitchUp));
    assert_eq!(camera_move(Key::Down), Some(CameraMove::PitchDown));
    assert_eq!(camera_move(Key::Left), Some(CameraMove::YawLeft));
    assert_eq!(camera_move(Key::Right), Some(CameraMove::YawRight));
    assert_eq!(camera_move(Key::Escape), None);
    assert_eq!(camera_move(Key::Q), None);
    assert_eq!(camera_move(Key::Other(3)), None);
}

#[test]
fn exit_keys() {
    assert!(is_exit_key(Key::Escape));
    assert!(is_exit_key(Key::Q));
    assert!(!is_exit_key(Key::W));
    assert!(!is_exit_key(Key::Other(0)));
}
