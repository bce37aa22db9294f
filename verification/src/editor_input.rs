//! How the editor passes window input on to its UI: which keys, buttons and
//! characters the UI gets, and how modifier keys carry over.
use vstd::prelude::*;

verus! {

/// A key as the window reports it.  `Other` stands for every key the
/// editor does not pass on.
#[derive(Clone, Copy, Debug, PartialEq, Eq, Structural)]
pub enum WindowKey {
    Back,
    Return,
    Space,
    Left,
    Right,
    Up,
    Down,
    Key0,
    Key1,
    Key2,
    Key3,
    Key4,
    Key5,
    Key6,
    Key7,
    Key8,
    Key9,
    A,
    B,
    C,
    D,
    E,
    F,
    G,
    H,
    I,
    J,
    K,
    L,
    M,
    N,
    O,
    P,
    Q,
    R,
    S,
    T,
    U,
    V,
    W,
    X,
    Y,
    Z,
    Other,
}

/// A key as the UI knows it.
#[derive(Clone, Copy, Debug, PartialEq, Eq, Structural)]
pub enum UiKey {
    Backspace,
    Enter,
    Space,
    ArrowLeft,
    ArrowRight,
    ArrowUp,
    ArrowDown,
    Num0,
    Num1,
    Num2,
    Num3,
    Num4,
    Num5,
    Num6,
    Num7,
    Num8,
    Num9,
    A,
    B,
    C,
    D,
    E,
    F,
    G,
    H,
    I,
    J,
    K,
    L,
    M,
    N,
    O,
    P,
    Q,
    R,
    S,
    T,
    U,
    V,
    W,
    X,
    Y,
    Z,
}

/// The UI key a window key stands for: back space, return, the arrows, the
/// digits and the letters; no other key reaches the UI.
pub open spec fn ui_key_of(key: WindowKey) -> Option<UiKey> {
    match key {
        WindowKey::Back => Some(UiKey::Backspace),
        WindowKey::Return => Some(UiKey::Enter),
        WindowKey::Space => Some(UiKey::Space),
        WindowKey::Left => Some(UiKey::ArrowLeft),
        WindowKey::Right => Some(UiKey::ArrowRight),
        WindowKey::Up => Some(UiKey::ArrowUp),
        WindowKey::Down => Some(UiKey::ArrowDown),
        WindowKey::Key0 => Some(UiKey::Num0),
        WindowKey::Key1 => Some(UiKey::Num1),
        WindowKey::Key2 => Some(UiKey::Num2),
        WindowKey::Key3 => Some(UiKey::Num3),
        WindowKey::Key4 => Some(UiKey::Num4),
        WindowKey::Key5 => Some(UiKey::Num5),
        WindowKey::Key6 => Some(UiKey::Num6),
        WindowKey::Key7 => Some(UiKey::Num7),
        WindowKey::Key8 => Some(UiKey::Num8),
        WindowKey::Key9 => Some(UiKey::Num9),
        WindowKey::A => Some(UiKey::A),
        WindowKey::B => Some(UiKey::B),
        WindowKey::C => Some(UiKey::C),
        WindowKey::D => Some(UiKey::D),
        WindowKey::E => Some(UiKey::E),
        WindowKey::F => Some(UiKey::F),
        WindowKey::G => Some(UiKey::G),
        WindowKey::H => Some(UiKey::H),
        WindowKey::I => Some(UiKey::I),
        WindowKey::J => Some(UiKey::J),
        WindowKey::K => Some(UiKey::K),
        WindowKey::L => Some(UiKey::L),
        WindowKey::M => Some(UiKey::M),
        WindowKey::N => Some(UiKey::N),
        WindowKey::O => Some(UiKey::O),
        WindowKey::P => Some(UiKey::P),
        WindowKey::Q => Some(UiKey::Q),
        WindowKey::R => Some(UiKey::R),
        WindowKey::S => Some(UiKey::S),
        WindowKey::T => Some(UiKey::T),
        WindowKey::U => Some(UiKey::U),
        WindowKey::V => Some(UiKey::V),
        WindowKey::W => Some(UiKey::W),
        WindowKey::X => Some(UiKey::X),
        WindowKey::Y => Some(UiKey::Y),
        WindowKey::Z => Some(UiKey::Z),
        WindowKey::Other => None,
    }
}

/// The UI key for a window key, if the UI gets it.
pub fn ui_key(key: WindowKey) -> (k: Option<UiKey>)
    ensures
        k == ui_key_of(key),
{
    match key {
        WindowKey::Back => Some(UiKey::Backspace),
        WindowKey::Return => Some(UiKey::Enter),
        WindowKey::Space => Some(UiKey::Space),
        WindowKey::Left => Some(UiKey::ArrowLeft),
        WindowKey::Right => Some(UiKey::ArrowRight),
        WindowKey::Up => Some(UiKey::ArrowUp),
        WindowKey::Down => Some(UiKey::ArrowDown),
        WindowKey::Key0 => Some(UiKey::Num0),
        WindowKey::Key1 => Some(UiKey::Num1),
        WindowKey::Key2 => Some(UiKey::Num2),
        WindowKey::Key3 => Some(UiKey::Num3),
        WindowKey::Key4 => Some(UiKey::Num4),
        WindowKey::Key5 => Some(UiKey::Num5),
        WindowKey::Key6 => Some(UiKey::Num6),
        WindowKey::Key7 => Some(UiKey::Num7),
        WindowKey::Key8 => Some(UiKey::Num8),
        WindowKey::Key9 => Some(UiKey::Num9),
        WindowKey::A => Some(UiKey::A),
        WindowKey::B => Some(UiKey::B),
        WindowKey::C => Some(UiKey::C),
        WindowKey::D => Some(UiKey::D),
        WindowKey::E => Some(UiKey::E),
        WindowKey::F => Some(UiKey::F),
        WindowKey::G => Some(UiKey::G),
        WindowKey::H => Some(UiKey::H),
        WindowKey::I => Some(UiKey::I),
        WindowKey::J => Some(UiKey::J),
        WindowKey::K => Some(UiKey::K),
        WindowKey::L => Some(UiKey::L),
        WindowKey::M => Some(UiKey::M),
        WindowKey::N => Some(UiKey::N),
        WindowKey::O => Some(UiKey::O),
        WindowKey::P => Some(UiKey::P),
        WindowKey::Q => Some(UiKey::Q),
        WindowKey::R => Some(UiKey::R),
        WindowKey::S => Some(UiKey::S),
        WindowKey::T => Some(UiKey::T),
        WindowKey::U => Some(UiKey::U),
        WindowKey::V => Some(UiKey::V),
        WindowKey::W => Some(UiKey::W),
        WindowKey::X => Some(UiKey::X),
        WindowKey::Y => Some(UiKey::Y),
        WindowKey::Z => Some(UiKey::Z),
        WindowKey::Other => None,
    }
}

/// Distinct window keys that reach the UI reach it as distinct UI keys.
pub proof fn lemma_ui_key_injective(a: WindowKey, b: WindowKey)
    requires
        ui_key_of(a) is Some,
        ui_key_of(a) == ui_key_of(b),
    ensures
        a == b,
{
}

/// A mouse button as the window reports it.
#[derive(Clone, Copy, Debug, PartialEq, Eq, Structural)]
pub enum WindowButton {
    Left,
    Right,
    Middle,
    Other(u16),
}

/// A pointer button as the UI knows it.
#[derive(Clone, Copy, Debug, PartialEq, Eq, Structural)]
pub enum UiButton {
    Primary,
    Secondary,
    Middle,
}

/// The UI button for a mouse button: left is primary, right is secondary,
/// middle is middle; other buttons do not reach the UI.
pub fn ui_button(button: WindowButton) -> (b: Option<UiButton>)
    ensures
        b == match button {
            WindowButton::Left => Some(UiButton::Primary),
            WindowButton::Right => Some(UiButton::Secondary),
            WindowButton::Middle => Some(UiButton::Middle),
            WindowButton::Other(_) => None,
        },
{
    match button {
        WindowButton::Left => Some(UiButton::Primary),
        WindowButton::Right => Some(UiButton::Secondary),
        WindowButton::Middle => Some(UiButton::Middle),
        WindowButton::Other(_) => None,
    }
}

/// `c` is a control character: general category Cc, the code points
/// U+0000 to U+001F and U+007F to U+009F.
pub open spec fn is_control(c: char) -> bool {
    (c as u32) < 0x20 || (0x7f <= (c as u32) && (c as u32) < 0xa0)
}

/// Whether a typed character reaches the UI as text: every character but
/// the control characters.
pub fn accepts_text(c: char) -> (b: bool)
    ensures
        b == !is_control(c),
{
    let code = c as u32;
    !(code < 0x20 || (0x7f <= code && code < 0xa0))
}

/// The modifier keys as the window reports them.
#[derive(Clone, Copy, Debug, PartialEq, Eq, Structural)]
pub struct WindowModifiers {
    pub alt: bool,
    pub ctrl: bool,
    pub shift: bool,
    pub logo: bool,
}

/// The modifier keys as the UI knows them.
#[derive(Clone, Copy, Debug, PartialEq, Eq, Structural)]
pub struct UiModifiers {
    pub alt: bool,
    pub ctrl: bool,
    pub shift: bool,
    pub mac_cmd: bool,
    pub command: bool,
}

/// The UI modifiers for the window modifiers: the logo key is both the
/// command key and the mac command key.
pub open spec fn ui_modifiers_of(m: WindowModifiers) -> UiModifiers {
    UiModifiers { alt: m.alt, ctrl: m.ctrl, shift: m.shift, mac_cmd: m.logo, command: m.logo }
}

/// The UI modifiers for the window modifiers.
pub fn ui_modifiers(m: WindowModifiers) -> (u: UiModifiers)
    ensures
        u == ui_modifiers_of(m),
{
    UiModifiers { alt: m.alt, ctrl: m.ctrl, shift: m.shift, mac_cmd: m.logo, command: m.logo }
}

/// A window event, as far as the editor's UI cares.  Positions and scroll
/// amounts are left out.
#[derive(Clone, Copy, Debug, PartialEq, Eq, Structural)]
pub enum WindowEvent {
    /// A key went down or up; `None` when the window names no key.
    Keyboard { key: Option<WindowKey>, pressed: bool },
    /// A character was typed.
    Character(char),
    /// The pointer moved.
    CursorMoved,
    /// The pointer left the window.
    CursorLeft,
    /// A mouse button went down or up.
    MouseInput { button: WindowButton, pressed: bool },
    /// The modifier keys changed.
    ModifiersChanged(WindowModifiers),
    /// The mouse wheel turned.
    MouseWheel,
    /// Anything else.
    Other,
}

/// An event handed to the UI.  The pointer position of a move, and of a
/// button press, is the one the editor knows.
#[derive(Clone, Copy, Debug, PartialEq, Eq, Structural)]
pub enum UiEvent {
    Key { key: UiKey, pressed: bool, modifiers: UiModifiers },
    Text(char),
    PointerMoved,
    PointerGone,
    PointerButton { button: UiButton, pressed: bool, modifiers: UiModifiers },
}

/// The UI event a window event yields, given the current modifiers and
/// whether the pointer's position is known.  A wheel turn changes the
/// scroll amounts, which are not events.
pub open spec fn ui_event_of(event: WindowEvent, modifiers: UiModifiers, pointer_known: bool) -> Option<
    UiEvent,
> {
    match event {
        WindowEvent::Keyboard { key, pressed } => match key {
            Some(k) => match ui_key_of(k) {
                Some(u) => Some(UiEvent::Key { key: u, pressed, modifiers }),
                None => None,
            },
            None => None,
        },
        WindowEvent::Character(c) => if is_control(c) {
            None
        } else {
            Some(UiEvent::Text(c))
        },
        WindowEvent::CursorMoved => Some(UiEvent::PointerMoved),
        WindowEvent::CursorLeft => Some(UiEvent::PointerGone),
        WindowEvent::MouseInput { button, pressed } => match button {
            WindowButton::Other(_) => None,
            _ => if pointer_known {
                Some(
                    UiEvent::PointerButton {
                        button: match button {
                            WindowButton::Left => UiButton::Primary,
                            WindowButton::Right => UiButton::Secondary,
                            _ => UiButton::Middle,
                        },
                        pressed,
                        modifiers,
                    },
                )
            } else {
                None
            },
        },
        _ => None,
    }
}

/// What the UI knows of the window between events: the modifier keys.
#[derive(Clone, Copy, Debug, PartialEq, Eq, Structural)]
pub struct UiInput {
    pub modifiers: UiModifiers,
}

impl UiInput {
    /// No modifier key down.
    pub fn new() -> (i: Self)
        ensures
            i.modifiers == (UiModifiers {
                alt: false,
                ctrl: false,
                shift: false,
                mac_cmd: false,
                command: false,
            }),
    {
        UiInput {
            modifiers: UiModifiers {
                alt: false,
                ctrl: false,
                shift: false,
                mac_cmd: false,
                command: false,
            },
        }
    }

    /// Handles a window event: the modifier keys follow a change of them,
    /// and the UI event the window event yields, if any, is returned.  A
    /// mouse button reaches the UI only while the pointer's position is
    /// known.
    pub fn handle_event(&mut self, event: WindowEvent, pointer_known: bool) -> (e: Option<UiEvent>)
        ensures
            final(self).modifiers == match event {
                WindowEvent::ModifiersChanged(m) => ui_modifiers_of(m),
                _ => old(self).modifiers,
            },
            e == ui_event_of(event, old(self).modifiers, pointer_known),
    {
        match event {
            WindowEvent::Keyboard { key, pressed } => match key {
                Some(k) => match ui_key(k) {
                    Some(u) => Some(UiEvent::Key { key: u, pressed, modifiers: self.modifiers }),
                    None => None,
                },
                None => None,
            },
            WindowEvent::Character(c) => if accepts_text(c) {
                Some(UiEvent::Text(c))
            } else {
                None
            },
            WindowEvent::CursorMoved => Some(UiEvent::PointerMoved),
            WindowEvent::CursorLeft => Some(UiEvent::PointerGone),
            WindowEvent::MouseInput { button, pressed } => match ui_button(button) {
                Some(b) => if pointer_known {
                    Some(UiEvent::PointerButton { button: b, pressed, modifiers: self.modifiers })
                } else {
                    None
                },
                None => None,
            },
            WindowEvent::ModifiersChanged(m) => {
                self.modifiers = ui_modifiers(m);
                None
            },
            _ => None,
        }
    }
}

/// A mouse button event reaches the UI, while the pointer's position is
/// known, as a pointer button event with the same pressed flag, releases as
/// well as presses: left is primary, right secondary, middle middle, with
/// the current modifier keys.  Other buttons, and any button while the
/// pointer's position is unknown, yield nothing.  A press and a release of
/// the same button yield events that differ only in that flag.
pub proof fn lemma_button_events(button: WindowButton, pressed: bool, m: UiModifiers, known: bool)
    ensures
        known && button == WindowButton::Left ==> ui_event_of(
            WindowEvent::MouseInput { button, pressed },
            m,
            known,
        ) == Some(UiEvent::PointerButton { button: UiButton::Primary, pressed, modifiers: m }),
        known && button == WindowButton::Right ==> ui_event_of(
            WindowEvent::MouseInput { button, pressed },
            m,
            known,
        ) == Some(UiEvent::PointerButton { button: UiButton::Secondary, pressed, modifiers: m }),
        known && button == WindowButton::Middle ==> ui_event_of(
            WindowEvent::MouseInput { button, pressed },
            m,
            known,
        ) == Some(UiEvent::PointerButton { button: UiButton::Middle, pressed, modifiers: m }),
        button is Other || !known ==> ui_event_of(WindowEvent::MouseInput { button, pressed }, m, known)
            == None::<UiEvent>,
        ui_event_of(WindowEvent::MouseInput { button, pressed: true }, m, known) is Some
            <==> ui_event_of(WindowEvent::MouseInput { button, pressed: false }, m, known) is Some,
{
}

/// A key event for a key the UI knows reaches it as a key event for the
/// corresponding UI key with the same pressed flag and the current modifier
/// keys, whether or not the pointer's position is known; any other key
/// event yields nothing.  Typed characters reach the UI as text unless
/// they are control characters; the pointer's moves and leaving reach it
/// as such; a change of the modifier keys, a wheel turn and other events
/// yield nothing.
pub proof fn lemma_key_and_text_events(
    key: Option<WindowKey>,
    pressed: bool,
    c: char,
    m: UiModifiers,
    known: bool,
    mods: WindowModifiers,
)
    ensures
        (key matches Some(k) && ui_key_of(k) is Some) ==> ui_event_of(
            WindowEvent::Keyboard { key, pressed },
            m,
            known,
        ) == Some(UiEvent::Key { key: ui_key_of(key->Some_0)->Some_0, pressed, modifiers: m }),
        !(key matches Some(k) && ui_key_of(k) is Some) ==> ui_event_of(
            WindowEvent::Keyboard { key, pressed },
            m,
            known,
        ) == None::<UiEvent>,
        (c as u32) < 0x20 || (0x7f <= (c as u32) && (c as u32) < 0xa0) ==> ui_event_of(
            WindowEvent::Character(c),
            m,
            known,
        ) == None::<UiEvent>,
        !((c as u32) < 0x20 || (0x7f <= (c as u32) && (c as u32) < 0xa0)) ==> ui_event_of(
            WindowEvent::Character(c),
            m,
            known,
        ) == Some(UiEvent::Text(c)),
        ui_event_of(WindowEvent::CursorMoved, m, known) == Some(UiEvent::PointerMoved),
        ui_event_of(WindowEvent::CursorLeft, m, known) == Some(UiEvent::PointerGone),
        ui_event_of(WindowEvent::ModifiersChanged(mods), m, known) == None::<UiEvent>,
        ui_event_of(WindowEvent::MouseWheel, m, known) == None::<UiEvent>,
        ui_event_of(WindowEvent::Other, m, known) == None::<UiEvent>,
{
}

/// A change of the modifier keys carries into the events that follow: the
/// logo key counts as both the command and the mac command key, the others
/// as themselves.
pub proof fn lemma_modifiers_follow(m: WindowModifiers)
    ensures
        ui_modifiers_of(m).alt == m.alt,
        ui_modifiers_of(m).ctrl == m.ctrl,
        ui_modifiers_of(m).shift == m.shift,
        ui_modifiers_of(m).command == m.logo,
        ui_modifiers_of(m).mac_cmd == m.logo,
{
}

} // verus!
