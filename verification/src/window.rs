use vstd::prelude::*;

use crate::keys::{is_exit_key, pressed, released, spec_is_exit_key, Key, PressedKeys};

verus! {

/// Whether a key went down or up.
#[derive(Clone, Copy, Debug, PartialEq, Eq, Structural)]
pub enum KeyState {
    Pressed,
    Released,
}

/// What the windowing system reports to the event loop, as far as the
/// event loop's decisions depend on it.
#[derive(Clone, Copy, Debug, PartialEq, Eq, Structural)]
pub enum WindowEvent {
    /// The window's drawable area changed to `width` x `height` pixels.
    Resized { width: u32, height: u32 },
    /// The user asked to close the window.
    CloseRequested,
    /// A key with a known key code went down or up.
    Keyboard { state: KeyState, key: Key },
    /// Anything else (mouse motion among it).
    Other,
}

/// What the event loop does after an event.
#[derive(Clone, Copy, Debug, PartialEq, Eq, Structural)]
pub enum Flow {
    /// Sleep until the next event.
    Wait,
    /// Leave the event loop and end the program.
    Exit,
}

/// The event loop exits when the render thread is no longer healthy, when
/// closing the window is requested, or when Escape or Q goes down or up.
pub open spec fn spec_event_flow(render_healthy: bool, event: WindowEvent) -> Flow {
    let closes = match event {
        WindowEvent::CloseRequested => true,
        WindowEvent::Keyboard { state: _, key } => spec_is_exit_key(key),
        _ => false,
    };
    if !render_healthy || closes {
        Flow::Exit
    } else {
        Flow::Wait
    }
}

/// What the event loop does after `event`, given whether the render thread
/// is still healthy.
pub fn event_flow(render_healthy: bool, event: WindowEvent) -> (flow: Flow)
    ensures
        flow == spec_event_flow(render_healthy, event),
        !render_healthy ==> flow == Flow::Exit,
        event == WindowEvent::CloseRequested ==> flow == Flow::Exit,
        render_healthy && event is Keyboard ==> (flow == Flow::Exit <==> (event->key == Key::Escape
            || event->key == Key::Q)),
        render_healthy && (event is Resized || event is Other) ==> flow == Flow::Wait,
{
    let mut flow = Flow::Wait;
    if !render_healthy {
        flow = Flow::Exit;
    }
    match event {
        WindowEvent::CloseRequested => {
            flow = Flow::Exit;
        },
        WindowEvent::Keyboard { state: _, key } => {
            if is_exit_key(key) {
                flow = Flow::Exit;
            }
        },
        _ => {},
    }
    flow
}

/// The held keys after a key event: a key that goes down joins them unless
/// it is held already; a key that goes up leaves them.
pub open spec fn spec_after_key_event(held: Seq<Key>, state: KeyState, key: Key) -> Seq<Key> {
    match state {
        KeyState::Pressed => pressed(held, key),
        KeyState::Released => released(held, key),
    }
}

/// Records a key event in the set of held keys.
pub fn apply_key_event(keys: &mut PressedKeys, state: KeyState, key: Key)
    ensures
        final(keys)@ == spec_after_key_event(old(keys)@, state, key),
        final(keys)@.no_duplicates(),
        state == KeyState::Pressed ==> final(keys)@ == (if old(keys)@.contains(key) {
            old(keys)@
        } else {
            old(keys)@.push(key)
        }),
        state == KeyState::Pressed ==> final(keys)@.contains(key),
        state == KeyState::Released ==> !final(keys)@.contains(key),
        state == KeyState::Released && !old(keys)@.contains(key) ==> final(keys)@ == old(keys)@,
        forall|i: int| state == KeyState::Released && 0 <= i < old(keys)@.len() && old(keys)@[i] == key
            ==> final(keys)@ == old(keys)@.remove(i),
        forall|other: Key| other != key ==> final(keys)@.contains(other) == old(keys)@.contains(other),
{
    match state {
        KeyState::Pressed => keys.press(key),
        KeyState::Released => keys.release(key),
    }
}

/// The window size that the event loop hands to the render thread:
/// the last size reported, and whether the render thread has yet to
/// apply it.
#[derive(Clone, Copy, Debug, PartialEq, Eq, Structural)]
pub struct WindowSize {
    pub width: u32,
    pub height: u32,
    pub resized: bool,
}

/// The shared size after the window reported `width` x `height`.
pub open spec fn spec_after_resize(width: u32, height: u32) -> WindowSize {
    WindowSize { width, height, resized: true }
}

/// What the render thread takes from the shared size: the new size if one
/// is pending.
pub open spec fn spec_pending_resize(size: WindowSize) -> Option<(u32, u32)> {
    if size.resized {
        Some((size.width, size.height))
    } else {
        None
    }
}

/// The shared size once the render thread has taken it.
pub open spec fn spec_after_take(size: WindowSize) -> WindowSize {
    WindowSize { resized: false, ..size }
}

impl WindowSize {
    /// The size of a window that has just opened; nothing to apply yet.
    pub fn new(width: u32, height: u32) -> (s: Self)
        ensures
            s == (WindowSize { width, height, resized: false }),
    {
        WindowSize { width, height, resized: false }
    }

    /// Records that the window now measures `width` x `height`.
    pub fn record_resize(&mut self, width: u32, height: u32)
        ensures
            *final(self) == spec_after_resize(width, height),
    {
        *self = WindowSize { width, height, resized: true };
    }

    /// Takes the size to apply, if a resize is pending, and marks it applied.
    pub fn take_resize(&mut self) -> (r: Option<(u32, u32)>)
        ensures
            r == spec_pending_resize(*old(self)),
            *final(self) == spec_after_take(*old(self)),
    {
        if self.resized {
            self.resized = false;
            Some((self.width, self.height))
        } else {
            None
        }
    }
}

/// A size recorded by the event loop is taken by the render thread exactly
/// once: the next take gives it, the take after that gives nothing.
pub proof fn lemma_resize_taken_once(width: u32, height: u32)
    ensures
        spec_pending_resize(spec_after_resize(width, height)) == Some((width, height)),
        spec_pending_resize(spec_after_take(spec_after_resize(width, height))) == None::<(u32, u32)>,
{
}

} // verus!
