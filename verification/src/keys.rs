use vstd::prelude::*;

verus! {

/// A keyboard key, as far as the program tells keys apart.
///
/// The keys the program reacts to have a variant each; every other key is
/// kept by its virtual key code, so that the set of held keys still tells
/// it apart from the others.
#[derive(Clone, Copy, Debug, PartialEq, Eq, Structural)]
pub enum Key {
    W,
    S,
    A,
    D,
    Space,
    LShift,
    Up,
    Down,
    Left,
    Right,
    Escape,
    Q,
    Other(u32),
}

/// What a held key does to the camera on one frame.
#[derive(Clone, Copy, Debug, PartialEq, Eq, Structural)]
pub enum CameraMove {
    /// Move along the view direction.
    Forward,
    /// Move against the view direction.
    Backward,
    /// Move to the left of the view direction, in the horizontal plane.
    StrafeLeft,
    /// Move to the right of the view direction, in the horizontal plane.
    StrafeRight,
    /// Move up the world's vertical axis.
    Rise,
    /// Move down the world's vertical axis.
    Sink,
    /// Turn the view up (around the horizontal axis).
    PitchUp,
    /// Turn the view down.
    PitchDown,
    /// Turn the view to the left (around the vertical axis).
    YawLeft,
    /// Turn the view to the right.
    YawRight,
}

/// The camera move bound to `key`, if any.
pub open spec fn spec_camera_move(key: Key) -> Option<CameraMove> {
    match key {
        Key::W => Some(CameraMove::Forward),
        Key::S => Some(CameraMove::Backward),
        Key::A => Some(CameraMove::StrafeLeft),
        Key::D => Some(CameraMove::StrafeRight),
        Key::Space => Some(CameraMove::Rise),
        Key::LShift => Some(CameraMove::Sink),
        Key::Up => Some(CameraMove::PitchUp),
        Key::Down => Some(CameraMove::PitchDown),
        Key::Left => Some(CameraMove::YawLeft),
        Key::Right => Some(CameraMove::YawRight),
        _ => None,
    }
}

/// Keys that close the window when pressed or released.
pub open spec fn spec_is_exit_key(key: Key) -> bool {
    key == Key::Escape || key == Key::Q
}

/// The camera move that holding `key` makes on each frame.
pub fn camera_move(key: Key) -> (m: Option<CameraMove>)
    ensures
        m == spec_camera_move(key),
{
    match key {
        Key::W => Some(CameraMove::Forward),
        Key::S => Some(CameraMove::Backward),
        Key::A => Some(CameraMove::StrafeLeft),
        Key::D => Some(CameraMove::StrafeRight),
        Key::Space => Some(CameraMove::Rise),
        Key::LShift => Some(CameraMove::Sink),
        Key::Up => Some(CameraMove::PitchUp),
        Key::Down => Some(CameraMove::PitchDown),
        Key::Left => Some(CameraMove::YawLeft),
        Key::Right => Some(CameraMove::YawRight),
        _ => None,
    }
}

/// Whether `key` closes the window.
pub fn is_exit_key(key: Key) -> (b: bool)
    ensures
        b == spec_is_exit_key(key),
{
    match key {
        Key::Escape | Key::Q => true,
        _ => false,
    }
}

/// The held keys after `key` went down: a key already held stays where it
/// is, a new one joins at the end.
pub open spec fn pressed(held: Seq<Key>, key: Key) -> Seq<Key> {
    if held.contains(key) {
        held
    } else {
        held.push(key)
    }
}

/// The held keys after `key` went up: its entry, if any, leaves and the
/// others keep their order.
pub open spec fn released(held: Seq<Key>, key: Key) -> Seq<Key> {
    held.remove_value(key)
}

/// Pressing a key makes it held, keeps each key at most once, and leaves
/// every other key as held or not held as it was.
pub proof fn lemma_press_holds(held: Seq<Key>, key: Key)
    requires
        held.no_duplicates(),
    ensures
        pressed(held, key).contains(key),
        pressed(held, key).no_duplicates(),
        forall|other: Key| other != key ==> pressed(held, key).contains(other) == held.contains(other),
{
    let after = pressed(held, key);
    if !held.contains(key) {
        assert(after[held.len() as int] == key);
        assert forall|other: Key| other != key implies after.contains(other) == held.contains(other) by {
            if after.contains(other) {
                let i = choose|i: int| 0 <= i < after.len() && after[i] == other;
                assert(held[i] == other);
            }
            if held.contains(other) {
                let i = choose|i: int| 0 <= i < held.len() && held[i] == other;
                assert(after[i] == other);
            }
        }
    }
}

/// Releasing a key makes it no longer held, keeps each key at most once,
/// and leaves every other key as held or not held as it was.
pub proof fn lemma_release_drops(held: Seq<Key>, key: Key)
    requires
        held.no_duplicates(),
    ensures
        !released(held, key).contains(key),
        released(held, key).no_duplicates(),
        forall|other: Key| other != key ==> released(held, key).contains(other) == held.contains(other),
{
    held.index_of_first_ensures(key);
    let after = released(held, key);
    if held.contains(key) {
        let i = held.index_of_first(key).unwrap();
        assert(after == held.remove(i));
        assert forall|j: int| 0 <= j < after.len() implies after[j] != key by {
            if j < i {
                assert(after[j] == held[j]);
            } else {
                assert(after[j] == held[j + 1]);
            }
        }
        assert forall|other: Key| other != key implies after.contains(other) == held.contains(other) by {
            if after.contains(other) {
                let j = choose|j: int| 0 <= j < after.len() && after[j] == other;
                if j < i {
                    assert(held[j] == other);
                } else {
                    assert(held[j + 1] == other);
                }
            }
            if held.contains(other) {
                let j = choose|j: int| 0 <= j < held.len() && held[j] == other;
                if j < i {
                    assert(after[j] == other);
                } else {
                    assert(after[j - 1] == other);
                }
            }
        }
        assert forall|a: int, b: int| 0 <= a < after.len() && 0 <= b < after.len() && a != b implies after[a] != after[b] by {
            let ha = if a < i { a } else { a + 1 };
            let hb = if b < i { b } else { b + 1 };
            assert(after[a] == held[ha]);
            assert(after[b] == held[hb]);
        }
    }
}

/// Pressing a key that was not held and then releasing it gives back the
/// keys held before, in the same order.
pub proof fn lemma_press_then_release(held: Seq<Key>, key: Key)
    requires
        !held.contains(key),
    ensures
        released(pressed(held, key), key) == held,
{
    let after = held.push(key);
    assert(after[held.len() as int] == key);
    after.index_of_first_ensures(key);
    let i = after.index_of_first(key).unwrap();
    if i < held.len() {
        assert(after[i] == held[i]);
        assert(held.contains(key));
    }
    assert(i == held.len());
    assert(after.remove(i) =~= held);
}

/// Pressing a held key again changes nothing; releasing a key that is no
/// longer held changes nothing.
pub proof fn lemma_repeat_is_idempotent(held: Seq<Key>, key: Key)
    requires
        held.no_duplicates(),
    ensures
        pressed(pressed(held, key), key) == pressed(held, key),
        released(released(held, key), key) == released(held, key),
{
    lemma_press_holds(held, key);
    lemma_release_drops(held, key);
    released(held, key).index_of_first_ensures(key);
}

/// The keys held down at the moment, in the order in which they went down.
///
/// Each key occurs at most once.
pub struct PressedKeys {
    keys: Vec<Key>,
}

impl View for PressedKeys {
    type V = Seq<Key>;

    closed spec fn view(&self) -> Seq<Key> {
        self.keys@
    }
}

impl PressedKeys {
    #[verifier::type_invariant]
    closed spec fn wf(self) -> bool {
        self.keys@.no_duplicates()
    }

    /// No key held.
    pub fn new() -> (s: Self)
        ensures
            s@ == Seq::<Key>::empty(),
    {
        PressedKeys { keys: Vec::new() }
    }

    /// Number of keys held.
    pub fn len(&self) -> (n: usize)
        ensures
            n == self@.len(),
    {
        self.keys.len()
    }

    /// The held keys, in the order in which they went down.
    pub fn as_slice(&self) -> (s: &[Key])
        ensures
            s@ == self@,
            s@.no_duplicates(),
    {
        proof {
            use_type_invariant(self);
        }
        self.keys.as_slice()
    }

    /// Position of `key` among the held keys.
    fn position(&self, key: Key) -> (r: Option<usize>)
        ensures
            match r {
                Some(i) => i < self@.len() && self@[i as int] == key,
                None => !self@.contains(key),
            },
    {
        let mut i: usize = 0;
        while i < self.keys.len()
            invariant
                i <= self.keys@.len(),
                forall|j: int| 0 <= j < i ==> self.keys@[j] != key,
            decreases self.keys@.len() - i,
        {
            if self.keys[i] == key {
                return Some(i);
            }
            i = i + 1;
        }
        None
    }

    /// Whether `key` is held.
    pub fn contains(&self, key: Key) -> (b: bool)
        ensures
            b == self@.contains(key),
    {
        match self.position(key) {
            Some(_) => true,
            None => false,
        }
    }

    /// Records that `key` went down.
    pub fn press(&mut self, key: Key)
        ensures
            final(self)@ == pressed(old(self)@, key),
            final(self)@.no_duplicates(),
            final(self)@ == (if old(self)@.contains(key) { old(self)@ } else { old(self)@.push(key) }),
            final(self)@.contains(key),
            forall|other: Key| other != key ==> final(self)@.contains(other) == old(self)@.contains(other),
    {
        proof {
            use_type_invariant(&*self);
            lemma_press_holds(self@, key);
        }
        if !self.contains(key) {
            let mut keys: Vec<Key> = Vec::new();
            std::mem::swap(&mut keys, &mut self.keys);
            keys.push(key);
            self.keys = keys;
        }
    }

    /// Records that `key` went up.
    pub fn release(&mut self, key: Key)
        ensures
            final(self)@ == released(old(self)@, key),
            final(self)@.no_duplicates(),
            !final(self)@.contains(key),
            forall|other: Key| other != key ==> final(self)@.contains(other) == old(self)@.contains(other),
            !old(self)@.contains(key) ==> final(self)@ == old(self)@,
            forall|i: int| 0 <= i < old(self)@.len() && old(self)@[i] == key ==> final(self)@ == old(self)@.remove(i),
    {
        proof {
            use_type_invariant(&*self);
            lemma_release_drops(self@, key);
            self.keys@.index_of_first_ensures(key);
        }
        match self.position(key) {
            Some(i) => {
                proof {
                    let ghost s = self.keys@;
                    let first = s.index_of_first(key).unwrap();
                    assert(s[first] == key);
                    assert(first == i as int);
                }
                let mut keys: Vec<Key> = Vec::new();
                std::mem::swap(&mut keys, &mut self.keys);
                keys.remove(i);
                self.keys = keys;
            },
            None => {},
        }
    }
}

} // verus!
