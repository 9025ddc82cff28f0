use keyswitch::keys::{KeyEvent, KeyState};

#[test]
fn key_states_follow_the_raw_event_values() {
    assert_eq!(KeyState::from_value(0), KeyState::Released);
    assert_eq!(KeyState::from_value(1), KeyState::Pressed);
    assert_eq!(KeyState::from_value(2), KeyState::Autorepeat);
    assert_eq!(KeyState::from_value(3), KeyState::Other(3));
    assert_eq!(KeyState::from_value(-1), KeyState::Other(-1));
    for value in -2..6 {
        assert_eq!(KeyState::from_value(value).value(), value);
    }
}

#[test]
fn only_a_release_lets_a_key_go() {
    assert!(!KeyState::Released.is_down());
    assert!(KeyState::Pressed.is_down());
    assert!(KeyState::Autorepeat.is_down());
    assert!(!KeyState::Other(4).is_down());
}

#[test]
fn a_key_event_holds_its_key_and_state() {
    let event = KeyEvent::new(36, KeyState::Pressed);
    assert_eq!(event.key, 36);
    assert_eq!(event.state, KeyState::Pressed);
}
