use sauron::events::{
    is_mouse_event_kind, mouse_button_from_code, onclick_prevent_all, onclick_prevent_default,
    onclick_stop_propagation, onclick_with, onresize, onscroll, MouseButton,
};
use sauron::node::{on, AttValue, Callback};

#[test]
fn onclick_with_keeps_flags_and_binding() {
    let a = onclick_with(true, false, Callback { id: 42 });
    assert_eq!(a.name, "click");
    match a.value {
        AttValue::Listener(l) => {
            assert_eq!(l.callback.id, 42);
            assert!(l.prevent_default);
            assert!(!l.stop_propagation);
        }
        AttValue::Plain(v) => panic!("expected a listener, got plain value {}", v),
    }
}

#[test]
fn onclick_prevent_all_sets_both_flags() {
    let a = onclick_prevent_all(Callback { id: 1 });
    match a.value {
        AttValue::Listener(l) => {
            assert!(l.prevent_default);
            assert!(l.stop_propagation);
        }
        AttValue::Plain(_) => panic!("expected a listener"),
    }
}

#[test]
fn onclick_prevent_default_sets_one_flag() {
    let a = onclick_prevent_default(Callback { id: 1 });
    match a.value {
        AttValue::Listener(l) => {
            assert!(l.prevent_default);
            assert!(!l.stop_propagation);
        }
        AttValue::Plain(_) => panic!("expected a listener"),
    }
}

#[test]
fn onclick_stop_propagation_sets_one_flag() {
    let a = onclick_stop_propagation(Callback { id: 1 });
    match a.value {
        AttValue::Listener(l) => {
            assert!(!l.prevent_default);
            assert!(l.stop_propagation);
        }
        AttValue::Plain(_) => panic!("expected a listener"),
    }
}

#[test]
fn scroll_and_resize_listeners_carry_their_event_names() {
    assert_eq!(onscroll(Callback { id: 3 }).name, "scroll");
    assert_eq!(onresize(Callback { id: 4 }).name, "resize");
}

#[test]
fn on_builds_a_listener_under_the_event_name() {
    let a = on("input".to_string(), Callback { id: 9 });
    assert_eq!(a.name, "input");
    match a.value {
        AttValue::Listener(l) => assert_eq!(l.callback.id, 9),
        AttValue::Plain(_) => panic!("expected a listener"),
    }
}

#[test]
fn mouse_button_codes_map_as_reported() {
    assert_eq!(mouse_button_from_code(0), MouseButton::Left);
    assert_eq!(mouse_button_from_code(1), MouseButton::Middle);
    assert_eq!(mouse_button_from_code(2), MouseButton::Left);
    assert_eq!(mouse_button_from_code(3), MouseButton::WheelUp);
    assert_eq!(mouse_button_from_code(4), MouseButton::WheelDown);
    assert_eq!(mouse_button_from_code(17), MouseButton::Left);
}

#[test]
fn mouse_event_kinds_are_recognised() {
    assert!(is_mouse_event_kind("click"));
    assert!(is_mouse_event_kind("mouseup"));
    assert!(is_mouse_event_kind("mousedown"));
    assert!(is_mouse_event_kind("mousemove"));
    assert!(is_mouse_event_kind("dblclick"));
    assert!(!is_mouse_event_kind("keydown"));
    assert!(!is_mouse_event_kind(""));
}
