use vstd::prelude::*;

use crate::inky::Button;

verus! {

/// The screen-switching state packs the requested screen index above a low "switching" bit,
/// which is set while a switch waits to be taken up.
pub open spec fn packed(screen: usize) -> usize {
    (screen << 1usize) | 1usize
}

/// The state when the app starts showing `screen`: that screen, with a switch pending.
pub fn initial_state(screen: usize) -> (state: usize)
    ensures
        state == packed(screen),
{
    screen << 1 | 1
}

/// What a request to show `screen` does to the state `state`: nothing (`None`) while a switch is
/// still pending or when `screen` is already the current one, otherwise the new state to store.
pub fn switch_request(state: usize, screen: usize) -> (next: Option<usize>)
    ensures
        next == switch_request_spec(state, screen),
{
    let is_switching = state & 1 != 0;
    let current = state >> 1;
    if is_switching || current == screen {
        return None;
    }
    Some(screen << 1 | 1)
}

/// The state once the app has taken up a switch: the switching bit cleared.
pub fn clear_switching(state: usize) -> (next: usize)
    ensures
        next == state & !1usize,
{
    state & !1
}

/// The screen to switch to, when a switch is pending in `state`.
pub fn poll_switch(state: usize) -> (screen: Option<usize>)
    ensures
        screen == (if state & 1 != 0 {
            Some(state >> 1usize)
        } else {
            None
        }),
{
    if state & 1 != 0 {
        Some(state >> 1)
    } else {
        None
    }
}

/// The screen a button switches to: A, B and C pick the first three; D switches nothing.
pub fn button_screen(button: Button) -> (screen: Option<usize>)
    ensures
        screen == (match button {
            Button::A => Some(0usize),
            Button::B => Some(1usize),
            Button::C => Some(2usize),
            Button::D => None,
        }),
{
    match button {
        Button::A => Some(0),
        Button::B => Some(1),
        Button::C => Some(2),
        Button::D => None,
    }
}

/// A pending switch to `screen` is seen by the app as a switch to `screen` (for any index that
/// keeps all its bits in the packed form).
pub proof fn lemma_switch_seen(screen: usize)
    requires
        (screen << 1usize) >> 1usize == screen,
    ensures
        packed(screen) & 1 != 0,
        packed(screen) >> 1usize == screen,
{
    assert(((screen << 1usize) | 1usize) & 1usize != 0) by (bit_vector);
    assert(((screen << 1usize) | 1usize) >> 1usize == screen) by (bit_vector)
        requires
            (screen << 1usize) >> 1usize == screen,
    ;
}

/// Once the app has taken up a switch, nothing is pending, and the current screen is kept.
pub proof fn lemma_cleared_not_pending(state: usize)
    ensures
        (state & !1usize) & 1 == 0,
        (state & !1usize) >> 1usize == state >> 1usize,
{
    assert((state & !1usize) & 1usize == 0) by (bit_vector);
    assert((state & !1usize) >> 1usize == state >> 1usize) by (bit_vector);
}

/// After the app has taken up a switch to `current`, a request for another screen is accepted
/// and seen by the app as a switch to it, while a request for `current` is refused; while a
/// switch is pending every request is refused.
pub proof fn lemma_switch_protocol(state: usize, screen: usize)
    ensures
        state & 1 != 0 ==> switch_request_spec(state, screen) is None,
        ({
            let idle = state & !1usize;
            &&& screen != state >> 1usize ==> switch_request_spec(idle, screen) == Some(packed(screen))
            &&& screen == state >> 1usize ==> switch_request_spec(idle, screen) is None
        }),
{
    lemma_cleared_not_pending(state);
}

/// The state change `switch_request` makes.
pub open spec fn switch_request_spec(state: usize, screen: usize) -> Option<usize> {
    if state & 1 != 0 || state >> 1usize == screen {
        None
    } else {
        Some(packed(screen))
    }
}

/// The screens the app can show.
#[derive(Clone, Copy, Debug, PartialEq, Eq, Structural)]
pub enum ScreenKind {
    Weather,
    Calendar,
    Astronomy,
}

impl ScreenKind {
    /// The screen named in the configuration: "weather", "calendar" or "astronomy".
    pub fn from_name(name: &str) -> (kind: Option<ScreenKind>)
        ensures
            kind == (if name@ == "weather"@ {
                Some(ScreenKind::Weather)
            } else if name@ == "calendar"@ {
                Some(ScreenKind::Calendar)
            } else if name@ == "astronomy"@ {
                Some(ScreenKind::Astronomy)
            } else {
                None
            }),
    {
        let name = name.to_owned();
        if name == "weather".to_owned() {
            Some(ScreenKind::Weather)
        } else if name == "calendar".to_owned() {
            Some(ScreenKind::Calendar)
        } else if name == "astronomy".to_owned() {
            Some(ScreenKind::Astronomy)
        } else {
            None
        }
    }
}

} // verus!
