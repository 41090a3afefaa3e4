use space::input::{KeyTrigger, KeyboardState};

#[test]
fn press_sets_trigger_once() {
    let mut k = KeyTrigger::default();
    k.event(true);
    assert!(k.pressed);
    assert!(k.get_trigger());
    assert!(!k.get_trigger());
}

#[test]
fn held_key_does_not_retrigger() {
    let mut k = KeyTrigger::default();
    k.event(true);
    assert!(k.get_trigger());
    k.event(true);
    assert!(!k.get_trigger());
}

#[test]
fn release_then_press_triggers_again() {
    let mut k = KeyTrigger::default();
    k.event(true);
    k.event(false);
    assert!(!k.pressed);
    assert!(k.get_trigger());
    k.event(true);
    assert!(k.get_trigger());
}

#[test]
fn untouched_key_never_triggers() {
    let mut k = KeyTrigger::default();
    k.event(false);
    assert!(!k.get_trigger());
}

#[test]
fn keyboard_groups() {
    let mut s = KeyboardState::default();
    assert!(!s.any_dir() && !s.any_zoom() && !s.any_rot());
    s.d = true;
    assert!(s.any_dir());
    assert!(!s.any_zoom());
    s.minus = true;
    assert!(s.any_zoom());
    assert!(!s.any_rot());
    s.pgup = true;
    assert!(s.any_rot());
}
