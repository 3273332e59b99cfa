use eink_frame::control::{
    button_screen, clear_switching, initial_state, poll_switch, switch_request, ScreenKind,
};
use eink_frame::Button;

#[test]
fn start_requests_the_first_screen() {
    let state = initial_state(0);
    assert_eq!(state, 1);
    assert_eq!(poll_switch(state), Some(0));
}

#[test]
fn requests_wait_while_a_switch_is_pending() {
    assert_eq!(switch_request(initial_state(0), 1), None);
}

#[test]
fn request_for_the_current_screen_does_nothing() {
    let taken = clear_switching(initial_state(2));
    assert_eq!(taken, 4);
    assert_eq!(switch_request(taken, 2), None);
}

#[test]
fn request_for_another_screen_is_seen_once() {
    let taken = clear_switching(initial_state(0));
    assert_eq!(poll_switch(taken), None);
    let next = switch_request(taken, 1).unwrap();
    assert_eq!(next, 3);
    assert_eq!(poll_switch(next), Some(1));
    let taken = clear_switching(next);
    assert_eq!(poll_switch(taken), None);
    assert_eq!(taken >> 1, 1);
}

#[test]
fn buttons_pick_screens() {
    assert_eq!(button_screen(Button::A), Some(0));
    assert_eq!(button_screen(Button::B), Some(1));
    assert_eq!(button_screen(Button::C), Some(2));
    assert_eq!(button_screen(Button::D), None);
}

#[test]
fn screen_names() {
    assert_eq!(ScreenKind::from_name("weather"), Some(ScreenKind::Weather));
    assert_eq!(ScreenKind::from_name("calendar"), Some(ScreenKind::Calendar));
    assert_eq!(ScreenKind::from_name("astronomy"), Some(ScreenKind::Astronomy));
    assert_eq!(ScreenKind::from_name("Weather"), None);
    assert_eq!(ScreenKind::from_name(""), None);
}
