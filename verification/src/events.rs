use vstd::prelude::*;

use crate::node::{Attribute, AttrView, AttValue, Callback, Listener, ValView};

verus! {

/// Pointer position data carried by a mouse event.
#[derive(Clone, Copy, PartialEq, Eq, Structural, Debug)]
pub struct Coordinate {
    pub client_x: i32,
    pub client_y: i32,
    pub movement_x: i32,
    pub movement_y: i32,
    pub offset_x: i32,
    pub offset_y: i32,
    pub screen_x: i32,
    pub screen_y: i32,
    pub x: i32,
    pub y: i32,
}

/// Modifier-key state carried by mouse and keyboard events.
#[derive(Clone, Copy, PartialEq, Eq, Structural, Debug)]
pub struct Modifier {
    pub alt_key: bool,
    pub ctrl_key: bool,
    pub meta_key: bool,
    pub shift_key: bool,
}

/// Which mouse button a mouse event reports.
#[derive(Clone, Copy, PartialEq, Eq, Structural, Debug)]
pub enum MouseButton {
    Left,
    Middle,
    Right,
    WheelUp,
    WheelDown,
}

/// A typed mouse event, as handed to listener callbacks.
pub struct MouseEvent {
    pub kind: String,
    pub coordinate: Coordinate,
    pub modifier: Modifier,
    pub buttons: MouseButton,
}

/// A typed keyboard event.
pub struct KeyEvent {
    pub key: String,
    pub modifier: Modifier,
    pub repeat: bool,
    pub location: u32,
}

/// A typed input event.
pub struct InputEvent {
    pub value: String,
}

/// The mouse button that a platform button code denotes. Codes outside the
/// reported range fall back to the primary button.
pub fn mouse_button_from_code(code: i16) -> (r: MouseButton)
    ensures
        code == 1 ==> r == MouseButton::Middle,
        code == 3 ==> r == MouseButton::WheelUp,
        code == 4 ==> r == MouseButton::WheelDown,
        (code != 1 && code != 3 && code != 4) ==> r == MouseButton::Left,
{
    match code {
        0 => MouseButton::Left,
        1 => MouseButton::Middle,
        2 => MouseButton::Left,
        3 => MouseButton::WheelUp,
        4 => MouseButton::WheelDown,
        _ => MouseButton::Left,
    }
}

/// Whether a platform event type name is one of the mouse event kinds that a
/// mouse listener accepts; any other kind is a translation failure that the
/// platform boundary must surface.
pub fn is_mouse_event_kind(kind: &str) -> (r: bool)
    ensures
        r == (kind@ == "click"@ || kind@ == "mouseup"@ || kind@ == "mousedown"@ || kind@
            == "mousemove"@ || kind@ == "dblclick"@),
{
    let k: String = kind.to_string();
    k == "click".to_string() || k == "mouseup".to_string() || k == "mousedown".to_string() || k
        == "mousemove".to_string() || k == "dblclick".to_string()
}

/// A click listener that both prevents the default action and stops
/// propagation.
pub fn onclick_prevent_all(cb: Callback) -> (r: Attribute)
    ensures
        r@ == click_listener(cb, true, true),
{
    onclick_with(true, true, cb)
}

/// A click listener that prevents the default action.
pub fn onclick_prevent_default(cb: Callback) -> (r: Attribute)
    ensures
        r@ == click_listener(cb, true, false),
{
    onclick_with(true, false, cb)
}

/// A click listener that stops propagation.
pub fn onclick_stop_propagation(cb: Callback) -> (r: Attribute)
    ensures
        r@ == click_listener(cb, false, true),
{
    onclick_with(false, true, cb)
}

/// The attribute that a click listener with the given binding and dispatch
/// flags amounts to.
pub open spec fn click_listener(cb: Callback, prevent_default: bool, stop_propagation: bool) -> AttrView {
    AttrView {
        name: "click"@,
        value: ValView::Listener(Listener { callback: cb, prevent_default, stop_propagation }),
    }
}

/// A click listener where the caller chooses whether the live tree should
/// prevent the event's default action, stop its propagation, or both.
pub fn onclick_with(prevent_default: bool, stop_propagation: bool, cb: Callback) -> (r: Attribute)
    ensures
        r@ == click_listener(cb, prevent_default, stop_propagation),
{
    Attribute {
        name: "click".to_string(),
        value: AttValue::Listener(Listener { callback: cb, prevent_default, stop_propagation }),
    }
}

/// A scroll listener; the platform boundary hands the callback the target's
/// scroll offsets.
pub fn onscroll(cb: Callback) -> (r: Attribute)
    ensures
        r@ == (AttrView {
            name: "scroll"@,
            value: ValView::Listener(
                Listener { callback: cb, prevent_default: false, stop_propagation: false },
            ),
        }),
{
    Attribute {
        name: "scroll".to_string(),
        value: AttValue::Listener(
            Listener { callback: cb, prevent_default: false, stop_propagation: false },
        ),
    }
}

/// A resize listener; the platform boundary hands the callback the target's
/// client size.
pub fn onresize(cb: Callback) -> (r: Attribute)
    ensures
        r@ == (AttrView {
            name: "resize"@,
            value: ValView::Listener(
                Listener { callback: cb, prevent_default: false, stop_propagation: false },
            ),
        }),
{
    Attribute {
        name: "resize".to_string(),
        value: AttValue::Listener(
            Listener { callback: cb, prevent_default: false, stop_propagation: false },
        ),
    }
}

} // verus!
