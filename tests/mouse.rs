use sph::mouse::Mouse;

#[test]
fn new_mouse_is_idle() {
    let m = Mouse::new();
    assert!(!m.pressed);
    assert!(!m.is_down());
    assert!(!m.is_holding());
}

#[test]
fn press_is_down_then_holding() {
    let mut m = Mouse::new();
    m.pressed = true;
    assert!(m.is_down());
    assert!(!m.is_holding());
    m.update_hold();
    assert!(!m.is_down());
    assert!(m.is_holding());
}

#[test]
fn release_ends_holding() {
    let mut m = Mouse::new();
    m.pressed = true;
    m.update_hold();
    m.pressed = false;
    assert!(!m.is_down());
    assert!(!m.is_holding());
    m.update_hold();
    assert!(!m.is_holding());
}
