use quartz_engine::editor_input::{
    accepts_text, ui_button, ui_key, ui_modifiers, UiButton, UiEvent, UiInput, UiKey, UiModifiers,
    WindowButton, WindowEvent, WindowKey, WindowModifiers,
};

#[test]
fn editing_keys_reach_the_ui() {
    assert_eq!(ui_key(WindowKey::Back), Some(UiKey::Backspace));
    assert_eq!(ui_key(WindowKey::Return), Some(UiKey::Enter));
    assert_eq!(ui_key(WindowKey::Space), Some(UiKey::Space));
    assert_eq!(ui_key(WindowKey::Left), Some(UiKey::ArrowLeft));
    assert_eq!(ui_key(WindowKey::Down), Some(UiKey::ArrowDown));
}

#[test]
fn digits_and_letters_reach_the_ui() {
    assert_eq!(ui_key(WindowKey::Key0), Some(UiKey::Num0));
    assert_eq!(ui_key(WindowKey::Key9), Some(UiKey::Num9));
    assert_eq!(ui_key(WindowKey::A), Some(UiKey::A));
    assert_eq!(ui_key(WindowKey::S), Some(UiKey::S));
    assert_eq!(ui_key(WindowKey::Z), Some(UiKey::Z));
}

#[test]
fn other_keys_do_not_reach_the_ui() {
    assert_eq!(ui_key(WindowKey::Other), None);
}

#[test]
fn mouse_buttons_map_to_pointer_buttons() {
    assert_eq!(ui_button(WindowButton::Left), Some(UiButton::Primary));
    assert_eq!(ui_button(WindowButton::Right), Some(UiButton::Secondary));
    assert_eq!(ui_button(WindowButton::Middle), Some(UiButton::Middle));
    assert_eq!(ui_button(WindowButton::Other(4)), None);
}

#[test]
fn control_characters_are_not_text() {
    assert!(accepts_text('a'));
    assert!(accepts_text(' '));
    assert!(accepts_text('é'));
    assert!(accepts_text('\u{a0}'));
    assert!(!accepts_text('\n'));
    assert!(!accepts_text('\u{8}'));
    assert!(!accepts_text('\u{7f}'));
    assert!(!accepts_text('\u{9f}'));
}

#[test]
fn control_agrees_with_std() {
    for code in 0u32..0x300 {
        if let Some(c) = char::from_u32(code) {
            assert_eq!(accepts_text(c), !c.is_control(), "code {code:#x}");
        }
    }
}

#[test]
fn logo_key_is_command() {
    let m = WindowModifiers { alt: true, ctrl: false, shift: true, logo: true };
    assert_eq!(
        ui_modifiers(m),
        UiModifiers { alt: true, ctrl: false, shift: true, mac_cmd: true, command: true }
    );
    let m = WindowModifiers { alt: false, ctrl: true, shift: false, logo: false };
    assert_eq!(
        ui_modifiers(m),
        UiModifiers { alt: false, ctrl: true, shift: false, mac_cmd: false, command: false }
    );
}

#[test]
fn window_events_become_ui_events() {
    let mut input = UiInput::new();
    let none = input.modifiers;
    assert_eq!(
        input.handle_event(WindowEvent::Keyboard { key: Some(WindowKey::A), pressed: true }, true),
        Some(UiEvent::Key { key: UiKey::A, pressed: true, modifiers: none })
    );
    assert_eq!(input.handle_event(WindowEvent::Keyboard { key: None, pressed: true }, true), None);
    assert_eq!(
        input.handle_event(WindowEvent::Keyboard { key: Some(WindowKey::Other), pressed: false }, true),
        None
    );
    assert_eq!(input.handle_event(WindowEvent::Character('x'), true), Some(UiEvent::Text('x')));
    assert_eq!(input.handle_event(WindowEvent::Character('\r'), true), None);
    assert_eq!(input.handle_event(WindowEvent::CursorMoved, false), Some(UiEvent::PointerMoved));
    assert_eq!(input.handle_event(WindowEvent::CursorLeft, true), Some(UiEvent::PointerGone));
    assert_eq!(input.handle_event(WindowEvent::MouseWheel, true), None);
    assert_eq!(input.handle_event(WindowEvent::Other, true), None);
}

#[test]
fn buttons_need_a_known_pointer() {
    let mut input = UiInput::new();
    let m = input.modifiers;
    let left = WindowEvent::MouseInput { button: WindowButton::Left, pressed: true };
    assert_eq!(input.handle_event(left, false), None);
    assert_eq!(
        input.handle_event(left, true),
        Some(UiEvent::PointerButton { button: UiButton::Primary, pressed: true, modifiers: m })
    );
    let other = WindowEvent::MouseInput { button: WindowButton::Other(7), pressed: false };
    assert_eq!(input.handle_event(other, true), None);
}

#[test]
fn modifier_changes_carry_into_later_events() {
    let mut input = UiInput::new();
    let change = WindowModifiers { alt: false, ctrl: true, shift: false, logo: true };
    assert_eq!(input.handle_event(WindowEvent::ModifiersChanged(change), true), None);
    let expected = UiModifiers { alt: false, ctrl: true, shift: false, mac_cmd: true, command: true };
    assert_eq!(input.modifiers, expected);
    assert_eq!(
        input.handle_event(WindowEvent::Keyboard { key: Some(WindowKey::S), pressed: true }, true),
        Some(UiEvent::Key { key: UiKey::S, pressed: true, modifiers: expected })
    );
}
