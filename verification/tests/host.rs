use pltrs_core::{has_area, react, Reaction, WindowInput};

#[test]
fn a_close_request_ends_the_loop() {
    assert!(matches!(react(WindowInput::CloseRequested), Reaction::Exit));
}

#[test]
fn a_redraw_request_draws_a_frame() {
    assert!(matches!(react(WindowInput::RedrawRequested), Reaction::Frame));
}

#[test]
fn a_new_size_goes_to_the_backend() {
    assert!(matches!(
        react(WindowInput::Resized { width: 640, height: 480 }),
        Reaction::Resize { width: 640, height: 480 }
    ));
    assert!(matches!(
        react(WindowInput::Resized { width: 0, height: 0 }),
        Reaction::Resize { width: 0, height: 0 }
    ));
}

#[test]
fn only_a_press_of_escape_ends_the_loop() {
    assert!(matches!(react(WindowInput::Key { escape: true, pressed: true }), Reaction::Exit));
    assert!(matches!(react(WindowInput::Key { escape: true, pressed: false }), Reaction::Nothing));
    assert!(matches!(react(WindowInput::Key { escape: false, pressed: true }), Reaction::Nothing));
    assert!(matches!(react(WindowInput::Key { escape: false, pressed: false }), Reaction::Nothing));
}

#[test]
fn other_inputs_have_no_effect() {
    assert!(matches!(react(WindowInput::Other), Reaction::Nothing));
}

#[test]
fn a_size_has_an_area_if_both_sides_are_positive() {
    assert!(has_area(1, 1));
    assert!(has_area(800, 600));
    assert!(!has_area(0, 600));
    assert!(!has_area(800, 0));
    assert!(!has_area(0, 0));
}
