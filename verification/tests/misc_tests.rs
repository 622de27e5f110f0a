use solar_sim::input::{
    camera_lock_request, held_lock_update, KeyStates, KEY_NUM0, KEY_NUM1, KEY_NUM2, KEY_NUM3, KEY_NUM5, KEY_NUM6,
};
use solar_sim::camera::{CameraLockTarget, FollowTarget};
use solar_sim::shaders::{get_current_program, set_current_program, ShaderState};
use solar_sim::shape::sphere_grid_indices;
use solar_sim::transform_stack::TransformStack;
use solar_sim::uniforms::Uniforms;

#[test]
fn transform_stack_push_pop() {
    let compose = |a: &i64, b: &i64| a * 10 + b;
    let mut ts = TransformStack::new(1i64);
    assert_eq!(ts.current(), 1);
    ts.push(2, compose);
    assert_eq!(ts.current(), 12);
    ts.push(3, compose);
    assert_eq!(ts.current(), 123);
    ts.pop();
    assert_eq!(ts.current(), 12);
    ts.pop();
    assert_eq!(ts.current(), 1);
    // The base frame stays.
    ts.pop();
    assert_eq!(ts.current(), 1);
}

#[test]
fn current_program_round_trip() {
    let mut state = ShaderState::new();
    assert_eq!(get_current_program(&state), 0);
    set_current_program(&mut state, 7);
    assert_eq!(get_current_program(&state), 7);
    set_current_program(&mut state, 3);
    assert_eq!(get_current_program(&state), 3);
}

#[test]
fn uniform_locations_by_name() {
    let names = [
        "model", "view", "projection", "normal_matrix", "light_pos", "light_pos_world", "emit_mode",
        "use_texture", "base_texture", "shadow_map", "shadow_far",
    ];
    let u = Uniforms::new(5, |program: u32, name: &str| {
        assert_eq!(program, 5);
        match names.iter().position(|n| *n == name) {
            Some(i) if i % 2 == 0 => i as i32,
            _ => -1,
        }
    });
    assert_eq!(
        [u.model, u.view, u.projection, u.normal_matrix, u.light_pos, u.light_pos_world, u.emit_mode],
        [0, -1, 2, -1, 4, -1, 6]
    );
    assert_eq!([u.use_texture, u.base_texture, u.shadow_map, u.shadow_far], [-1, 8, -1, 10]);
    assert!(Uniforms::is_active(u.model));
    assert!(!Uniforms::is_active(u.view));
}

#[test]
fn camera_lock_requests() {
    assert_eq!(CameraLockTarget::default(), CameraLockTarget::NoLock);
    let t = CameraLockTarget::Earth;
    assert_eq!(t.apply_lock_request(CameraLockTarget::NoLock), (CameraLockTarget::Earth, false));
    assert_eq!(t.apply_lock_request(CameraLockTarget::Clear), (CameraLockTarget::NoLock, false));
    assert_eq!(t.apply_lock_request(CameraLockTarget::Mars), (CameraLockTarget::Mars, true));
    assert_eq!(t.apply_lock_request(CameraLockTarget::Earth), (CameraLockTarget::Earth, true));
    assert!(t.is_locked());
    assert!(!CameraLockTarget::NoLock.is_locked());
    assert_eq!(CameraLockTarget::Moon.body_name(), "Moon");
    assert_eq!(CameraLockTarget::Venus.body_name(), "Venus");
    assert_eq!(CameraLockTarget::NoLock.body_name(), "Sun");
    assert_eq!(CameraLockTarget::Clear.body_name(), "Sun");
}

#[test]
fn sphere_grid_two_by_two() {
    let idx = sphere_grid_indices(2, 2);
    assert_eq!(idx.len(), 24);
    assert_eq!(&idx[0..6], &[0, 3, 1, 1, 3, 4]);
    assert_eq!(&idx[18..24], &[4, 7, 5, 5, 7, 8]);
    assert!(idx.iter().all(|&i| i < 9));
}

#[test]
fn key_states_across_frames() {
    let mut keys = KeyStates::new();
    assert!(!keys.is_key_down(87));
    keys.set_key(87, true);
    assert!(keys.is_key_down(87));
    assert!(keys.key_pressed_this_frame(87));
    keys.end_frame();
    // Still held, but no longer new.
    assert!(keys.is_key_down(87));
    assert!(!keys.key_pressed_this_frame(87));
    keys.set_key(87, false);
    assert!(!keys.is_key_down(87));
    keys.end_frame();
    keys.set_key(87, true);
    assert!(keys.key_pressed_this_frame(87));
}

#[test]
fn number_keys_request_camera_lock() {
    let mut keys = KeyStates::new();
    assert_eq!(camera_lock_request(&keys), (CameraLockTarget::NoLock, false));
    keys.set_key(KEY_NUM3, true);
    keys.set_key(KEY_NUM0, true);
    assert_eq!(camera_lock_request(&keys), (CameraLockTarget::Moon, false));
    keys.set_key(KEY_NUM5, true);
    keys.set_key(KEY_NUM1, true);
    assert_eq!(camera_lock_request(&keys), (CameraLockTarget::Mercury, true));
    keys.end_frame();
    assert_eq!(camera_lock_request(&keys), (CameraLockTarget::NoLock, false));
}

#[test]
fn lock_requests_repeat_without_effect() {
    let all = [
        CameraLockTarget::NoLock,
        CameraLockTarget::Earth,
        CameraLockTarget::Moon,
        CameraLockTarget::Mars,
        CameraLockTarget::Mercury,
        CameraLockTarget::Venus,
        CameraLockTarget::Clear,
    ];
    for &current in &all[..6] {
        for &req in &all {
            let (once, _) = current.apply_lock_request(req);
            let (twice, _) = once.apply_lock_request(req);
            assert_eq!(once, twice);
            assert_ne!(once, CameraLockTarget::Clear);
        }
    }
}

#[test]
fn held_number_keys_pick_follow_target() {
    let mut keys = KeyStates::new();
    assert_eq!(held_lock_update(&keys, None), (None, false));
    assert_eq!(held_lock_update(&keys, Some(FollowTarget::Mars)), (Some(FollowTarget::Mars), false));
    keys.set_key(KEY_NUM2, true);
    assert_eq!(held_lock_update(&keys, None), (Some(FollowTarget::Earth), true));
    // Holding the key of the body already followed keeps the offset.
    assert_eq!(held_lock_update(&keys, Some(FollowTarget::Earth)), (Some(FollowTarget::Earth), false));
    // The highest held key decides; passing through Earth still resets.
    keys.set_key(KEY_NUM5, true);
    assert_eq!(held_lock_update(&keys, Some(FollowTarget::Mercury)), (Some(FollowTarget::Mercury), true));
    keys.set_key(KEY_NUM2, false);
    assert_eq!(held_lock_update(&keys, Some(FollowTarget::Mercury)), (Some(FollowTarget::Mercury), false));
    keys.set_key(KEY_NUM5, false);
    // The Sun never resets the offset; 0 stops following.
    keys.set_key(KEY_NUM1, true);
    assert_eq!(held_lock_update(&keys, Some(FollowTarget::Venus)), (Some(FollowTarget::Sun), false));
    keys.set_key(KEY_NUM1, false);
    keys.set_key(KEY_NUM0, true);
    assert_eq!(held_lock_update(&keys, Some(FollowTarget::Venus)), (None, false));
    keys.set_key(KEY_NUM6, true);
    assert_eq!(held_lock_update(&keys, Some(FollowTarget::Venus)), (Some(FollowTarget::Venus), true));
    assert_eq!(FollowTarget::Mercury.name(), "Mercury");
}

#[test]
fn pop_restores_current_after_push() {
    let compose = |a: &i64, b: &i64| a + b;
    let mut ts = TransformStack::new(0i64);
    ts.push(5, compose);
    let before = ts.current();
    ts.push(7, compose);
    assert_eq!(ts.current(), 12);
    ts.pop();
    assert_eq!(ts.current(), before);
    ts.pop();
    ts.pop();
    ts.pop();
    assert_eq!(ts.current(), 0);
}
