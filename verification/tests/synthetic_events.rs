use stage0::synthetic_events::{event_key, native_to_synthetic_event, setup_synthetic_event, SyntheticEvents};

#[test]
fn a_kind_of_event_is_set_up_once() {
    let mut events = SyntheticEvents::new();
    assert!(!events.is_configured("click"));
    assert!(setup_synthetic_event(&mut events, "click"));
    assert!(events.is_configured("click"));
    assert!(!setup_synthetic_event(&mut events, "click"));
    assert!(setup_synthetic_event(&mut events, "keyup"));
    assert!(!setup_synthetic_event(&mut events, "keyup"));
    assert!(!setup_synthetic_event(&mut events, "click"));
}

#[test]
fn the_key_is_the_kind_behind_two_underscores() {
    assert_eq!(event_key("click"), "__click");
    assert_eq!(event_key(""), "__");
}

#[test]
fn the_nearest_handler_receives() {
    assert_eq!(native_to_synthetic_event(&[false, false, true, true]), Some(2));
    assert_eq!(native_to_synthetic_event(&[true]), Some(0));
    assert_eq!(native_to_synthetic_event(&[false, false]), None);
    assert_eq!(native_to_synthetic_event(&[]), None);
}
