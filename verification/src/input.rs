use std::collections::HashMap;
use vstd::prelude::*;
use crate::camera::{CameraLockTarget, FollowTarget};

verus! {

broadcast use vstd::std_specs::hash::group_hash_axioms;

/// Whether `k` is recorded as held down in `m` (keys never seen are up).
pub open spec fn held_in(m: Map<i32, bool>, k: i32) -> bool {
    m.contains_key(k) && m[k]
}

/// Up/down state of keys (or mouse buttons), by code, now and at the end of
/// the previous frame.
pub struct KeyStates {
    keys: HashMap<i32, bool>,
    last_frame_keys: HashMap<i32, bool>,
}

impl KeyStates {
    /// Whether `k` is down now.
    pub closed spec fn down(&self, k: i32) -> bool {
        held_in(self.keys@, k)
    }

    /// Whether `k` was down at the end of the previous frame.
    pub closed spec fn was_down(&self, k: i32) -> bool {
        held_in(self.last_frame_keys@, k)
    }

    /// All keys up.
    pub fn new() -> (s: Self)
        ensures
            forall|k: i32| !s.down(k) && !s.was_down(k),
    {
        KeyStates { keys: HashMap::new(), last_frame_keys: HashMap::new() }
    }

    /// Records a press (or repeat) or a release of `key`.
    pub fn set_key(&mut self, key: i32, pressed: bool)
        ensures
            final(self).down(key) == pressed,
            forall|k: i32| k != key ==> final(self).down(k) == old(self).down(k),
            forall|k: i32| final(self).was_down(k) == old(self).was_down(k),
    {
        self.keys.insert(key, pressed);
    }

    /// Ends the frame: the current states become the previous frame's.
    pub fn end_frame(&mut self)
        ensures
            forall|k: i32| final(self).down(k) == old(self).down(k),
            forall|k: i32| final(self).was_down(k) == old(self).down(k),
            forall|k: i32| !(final(self).down(k) && !final(self).was_down(k)),
    {
        self.last_frame_keys = self.keys.clone();
    }

    /// Whether `key` is held down.
    pub fn is_key_down(&self, key: i32) -> (r: bool)
        ensures
            r == self.down(key),
    {
        match self.keys.get(&key) {
            Some(v) => *v,
            None => false,
        }
    }

    /// Whether `key` went down during this frame (it was up at the end of
    /// the previous one).
    pub fn key_pressed_this_frame(&self, key: i32) -> (r: bool)
        ensures
            r == (self.down(key) && !self.was_down(key)),
    {
        let before = match self.last_frame_keys.get(&key) {
            Some(v) => *v,
            None => false,
        };
        self.is_key_down(key) && !before
    }
}


/// GLFW codes of the number keys 0 to 6.
pub const KEY_NUM0: i32 = 48;
pub const KEY_NUM1: i32 = 49;
pub const KEY_NUM2: i32 = 50;
pub const KEY_NUM3: i32 = 51;
pub const KEY_NUM4: i32 = 52;
pub const KEY_NUM5: i32 = 53;
pub const KEY_NUM6: i32 = 54;

/// The camera request of the number keys pressed this frame: 0 clears the
/// lock, 2 to 6 lock onto Earth, Moon, Mars, Mercury and Venus (the highest
/// such key wins), 1 resets the camera.
pub fn camera_lock_request(keys: &KeyStates) -> (r: (CameraLockTarget, bool))
    ensures
        r.0 == (if keys.down(KEY_NUM6) && !keys.was_down(KEY_NUM6) {
            CameraLockTarget::Venus
        } else if keys.down(KEY_NUM5) && !keys.was_down(KEY_NUM5) {
            CameraLockTarget::Mercury
        } else if keys.down(KEY_NUM4) && !keys.was_down(KEY_NUM4) {
            CameraLockTarget::Mars
        } else if keys.down(KEY_NUM3) && !keys.was_down(KEY_NUM3) {
            CameraLockTarget::Moon
        } else if keys.down(KEY_NUM2) && !keys.was_down(KEY_NUM2) {
            CameraLockTarget::Earth
        } else if keys.down(KEY_NUM0) && !keys.was_down(KEY_NUM0) {
            CameraLockTarget::Clear
        } else {
            CameraLockTarget::NoLock
        }),
        r.1 == (keys.down(KEY_NUM1) && !keys.was_down(KEY_NUM1)),
{
    let mut lock_target = CameraLockTarget::NoLock;
    let mut reset_camera = false;
    if keys.key_pressed_this_frame(KEY_NUM0) {
        lock_target = CameraLockTarget::Clear;
    }
    if keys.key_pressed_this_frame(KEY_NUM1) {
        reset_camera = true;
    }
    if keys.key_pressed_this_frame(KEY_NUM2) {
        lock_target = CameraLockTarget::Earth;
    }
    if keys.key_pressed_this_frame(KEY_NUM3) {
        lock_target = CameraLockTarget::Moon;
    }
    if keys.key_pressed_this_frame(KEY_NUM4) {
        lock_target = CameraLockTarget::Mars;
    }
    if keys.key_pressed_this_frame(KEY_NUM5) {
        lock_target = CameraLockTarget::Mercury;
    }
    if keys.key_pressed_this_frame(KEY_NUM6) {
        lock_target = CameraLockTarget::Venus;
    }
    (lock_target, reset_camera)
}

/// What holding number key `k` (0 to 6) selects: 0 stops following, 1 the
/// Sun, 2 to 6 Earth, Moon, Mars, Mercury and Venus.
pub open spec fn number_key_target(k: int) -> Option<FollowTarget> {
    if k == 1 {
        Some(FollowTarget::Sun)
    } else if k == 2 {
        Some(FollowTarget::Earth)
    } else if k == 3 {
        Some(FollowTarget::Moon)
    } else if k == 4 {
        Some(FollowTarget::Mars)
    } else if k == 5 {
        Some(FollowTarget::Mercury)
    } else if k == 6 {
        Some(FollowTarget::Venus)
    } else {
        None
    }
}

/// The followed body once the held number keys below `k` have been taken in
/// order from `current`: the highest held one decides, and none keeps
/// `current`.
pub open spec fn target_before(keys: KeyStates, current: Option<FollowTarget>, k: nat) -> Option<FollowTarget>
    decreases k,
{
    if k == 0 {
        current
    } else if keys.down((KEY_NUM0 + k - 1) as i32) {
        number_key_target(k - 1)
    } else {
        target_before(keys, current, (k - 1) as nat)
    }
}

/// Whether held number key `k` (2 to 6) switches to a body other than the
/// one followed just before it, so that the camera goes back to its default
/// offset from the body.
pub open spec fn key_switches_body(keys: KeyStates, current: Option<FollowTarget>, k: nat) -> bool {
    keys.down((KEY_NUM0 + k) as i32) && target_before(keys, current, k) != number_key_target(k as int)
}

/// The body the camera follows after the number keys held this frame are
/// taken in order from 0 to 6, starting from `current`, and whether the
/// camera's offset from it must be reset (it is when key 2 to 6 switches to
/// another body; the Sun keeps the offset).
pub fn held_lock_update(keys: &KeyStates, current: Option<FollowTarget>) -> (r: (Option<FollowTarget>, bool))
    ensures
        r.0 == target_before(*keys, current, 7),
        r.0 == (if keys.down(KEY_NUM6) {
            Some(FollowTarget::Venus)
        } else if keys.down(KEY_NUM5) {
            Some(FollowTarget::Mercury)
        } else if keys.down(KEY_NUM4) {
            Some(FollowTarget::Mars)
        } else if keys.down(KEY_NUM3) {
            Some(FollowTarget::Moon)
        } else if keys.down(KEY_NUM2) {
            Some(FollowTarget::Earth)
        } else if keys.down(KEY_NUM1) {
            Some(FollowTarget::Sun)
        } else if keys.down(KEY_NUM0) {
            None
        } else {
            current
        }),
        r.1 == ((keys.down(KEY_NUM2) && (keys.down(KEY_NUM0) || keys.down(KEY_NUM1) || current != Some(
            FollowTarget::Earth,
        ))) || (keys.down(KEY_NUM3) && (keys.down(KEY_NUM0) || keys.down(KEY_NUM1) || keys.down(KEY_NUM2)
            || current != Some(FollowTarget::Moon))) || (keys.down(KEY_NUM4) && (keys.down(KEY_NUM0)
            || keys.down(KEY_NUM1) || keys.down(KEY_NUM2) || keys.down(KEY_NUM3) || current != Some(
            FollowTarget::Mars,
        ))) || (keys.down(KEY_NUM5) && (keys.down(KEY_NUM0) || keys.down(KEY_NUM1) || keys.down(KEY_NUM2)
            || keys.down(KEY_NUM3) || keys.down(KEY_NUM4) || current != Some(FollowTarget::Mercury)))
            || (keys.down(KEY_NUM6) && (keys.down(KEY_NUM0) || keys.down(KEY_NUM1) || keys.down(KEY_NUM2)
            || keys.down(KEY_NUM3) || keys.down(KEY_NUM4) || keys.down(KEY_NUM5) || current != Some(
            FollowTarget::Venus,
        )))),
        r.1 == (key_switches_body(*keys, current, 2) || key_switches_body(*keys, current, 3)
            || key_switches_body(*keys, current, 4) || key_switches_body(*keys, current, 5)
            || key_switches_body(*keys, current, 6)),
{
    proof {
        reveal_with_fuel(target_before, 8);
    }
    let mut target = current;
    let mut reset = false;
    if keys.is_key_down(KEY_NUM0) {
        target = None;
    }
    if keys.is_key_down(KEY_NUM1) {
        target = Some(FollowTarget::Sun);
    }
    if keys.is_key_down(KEY_NUM2) {
        if target != Some(FollowTarget::Earth) {
            reset = true;
        }
        target = Some(FollowTarget::Earth);
    }
    if keys.is_key_down(KEY_NUM3) {
        if target != Some(FollowTarget::Moon) {
            reset = true;
        }
        target = Some(FollowTarget::Moon);
    }
    if keys.is_key_down(KEY_NUM4) {
        if target != Some(FollowTarget::Mars) {
            reset = true;
        }
        target = Some(FollowTarget::Mars);
    }
    if keys.is_key_down(KEY_NUM5) {
        if target != Some(FollowTarget::Mercury) {
            reset = true;
        }
        target = Some(FollowTarget::Mercury);
    }
    if keys.is_key_down(KEY_NUM6) {
        if target != Some(FollowTarget::Venus) {
            reset = true;
        }
        target = Some(FollowTarget::Venus);
    }
    (target, reset)
}

} // verus!
