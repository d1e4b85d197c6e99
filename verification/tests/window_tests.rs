use gloom_rs::keys::{Key, PressedKeys};
use gloom_rs::window::{apply_key_event, event_flow, Flow, KeyState, WindowEvent, WindowSize};

#[test]
fn close_request_exits() {
    assert_eq!(event_flow(true, WindowEvent::CloseRequested), Flow::Exit);
}

#[test]
fn unhealthy_render_thread_exits() {
    assert_eq!(event_flow(false, WindowEvent::Other), Flow::Exit);
    assert_eq!(event_flow(false, WindowEvent::Resized { width: 10, height: 20 }), Flow::Exit);
}

#[test]
fn ordinary_events_wait() {
    assert_eq!(event_flow(true, WindowEvent::Other), Flow::Wait);
    assert_eq!(event_flow(true, WindowEvent::Resized { width: 640, height: 480 }), Flow::Wait);
    assert_eq!(
        event_flow(true, WindowEvent::Keyboard { state: KeyState::Pressed, key: Key::W }),
        Flow::Wait
    );
}

#[test]
fn escape_and_q_exit_on_press_and_release() {
    for state in [KeyState::Pressed, KeyState::Released] {
        assert_eq!(event_flow(true, WindowEvent::Keyboard { state, key: Key::Escape }), Flow::Exit);
        assert_eq!(event_flow(true, WindowEvent::Keyboard { state, key: Key::Q }), Flow::Exit);
    }
}

#[test]
fn key_events_update_held_keys() {
    let mut keys = PressedKeys::new();
    apply_key_event(&mut keys, KeyState::Pressed, Key::W);
    apply_key_event(&mut keys, KeyState::Pressed, Key::D);
    apply_key_event(&mut keys, KeyState::Pressed, Key::W);
    assert_eq!(keys.as_slice(), &[Key::W, Key::D]);
    apply_key_event(&mut keys, KeyState::Released, Key::W);
    assert_eq!(keys.as_slice(), &[Key::D]);
    apply_key_event(&mut keys, KeyState::Released, Key::S);
    assert_eq!(keys.as_slice(), &[Key::D]);
}

#[test]
fn new_window_size_has_nothing_pending() {
    let mut size = WindowSize::new(800, 600);
    assert_eq!(size, WindowSize { width: 800, height: 600, resized: false });
    assert_eq!(size.take_resize(), None);
}

#[test]
fn resize_is_taken_once() {
    let mut size = WindowSize::new(800, 600);
    size.record_resize(1024, 768);
    assert_eq!(size, WindowSize { width: 1024, height: 768, resized: true });
    assert_eq!(size.take_resize(), Some((1024, 768)));
    assert_eq!(size, WindowSize { width: 1024, height: 768, resized: false });
    assert_eq!(size.take_resize(), None);
}

#[test]
fn latest_resize_wins() {
    let mut size = WindowSize::new(800, 600);
    size.record_resize(100, 200);
    size.record_resize(300, 400);
    assert_eq!(size.take_resize(), Some((300, 400)));
}
