use quartz_engine::input::Input;

#[test]
fn press_marks_pressed_and_held() {
    let mut input: Input<u32> = Input::new();
    input.press(7);
    assert!(input.pressed(&7));
    assert!(input.held(&7));
    assert!(!input.released(&7));
    assert!(!input.pressed(&8));
}

#[test]
fn release_marks_released_and_not_held() {
    let mut input: Input<u32> = Input::new();
    input.press(3);
    input.release(3);
    assert!(input.pressed(&3));
    assert!(!input.held(&3));
    assert!(input.released(&3));
}

#[test]
fn update_keeps_held_and_clears_the_frame() {
    let mut input: Input<char> = Input::default();
    input.press('a');
    input.press('b');
    input.release('b');
    input.update();
    assert!(!input.pressed(&'a'));
    assert!(input.held(&'a'));
    assert!(!input.released(&'b'));
    assert!(!input.held(&'b'));
}

#[test]
fn release_without_press() {
    let mut input: Input<u8> = Input::new();
    input.release(1);
    assert!(input.released(&1));
    assert!(!input.held(&1));
    assert!(!input.pressed(&1));
}

#[test]
fn press_twice_is_press_once() {
    let mut input: Input<u16> = Input::new();
    input.press(5);
    input.press(5);
    input.release(5);
    assert!(!input.held(&5));
}

#[test]
fn pressed_event_is_held_or_released() {
    let mut input: Input<u8> = Input::new();
    input.press(1);
    input.press(2);
    input.release(2);
    for e in [1u8, 2] {
        assert!(input.pressed(&e));
        assert!(input.held(&e) || input.released(&e));
    }
}

#[test]
fn held_across_frames_until_released() {
    let mut input: Input<u8> = Input::new();
    input.press(9);
    input.update();
    input.update();
    assert!(input.held(&9));
    assert!(!input.pressed(&9));
    input.release(9);
    assert!(input.released(&9));
    assert!(!input.held(&9));
    input.update();
    assert!(!input.released(&9));
}

#[test]
fn released_then_held_again_was_pressed() {
    let mut input: Input<u8> = Input::new();
    input.release(4);
    input.press(4);
    assert!(input.released(&4));
    assert!(input.held(&4));
    assert!(input.pressed(&4));
}
