use mhf_runtime::input::{
    decode_character, is_control, CaptureState, high_word, high_word_signed, is_keyboard_message, is_pointer_message, low_word_signed,
    scan_code, virtual_key, x_button, ExtraButton, Key, InputCapture, InputPolicy, VK_NUMLOCK, VK_PAUSE,
    WM_CHAR, WM_KEYDOWN, WM_LBUTTONDOWN, WM_MOUSEWHEEL,
};

#[test]
fn extracts_signed_pointer_coordinates() {
    let packed = usize::from(20_u16) << 16 | usize::from((-10_i16).cast_unsigned());
    assert_eq!(low_word_signed(packed), -10);
    assert_eq!(high_word_signed(packed), 20);
}

#[test]
fn normalizes_native_keys_to_directinput_scan_codes() {
    assert_eq!(scan_code(0x41, 0x001e_0001), 0x1e);
    assert_eq!(scan_code(0x11, 0x001d_0001), 0x1d);
    assert_eq!(scan_code(0x11, 0x011d_0001), 0x9d);
    assert_eq!(scan_code(0x26, 0x0148_0001), 0xc8);
    assert_eq!(scan_code(VK_NUMLOCK.into(), 0x0145_0001), 0x45);
    assert_eq!(scan_code(VK_PAUSE.into(), 0x0045_0001), 0xc5);
}

#[test]
fn wheel_deltas_and_extra_buttons_come_from_the_high_word() {
    let delta = usize::from((-120_i16).cast_unsigned()) << 16;
    assert_eq!(high_word_signed(delta), -120);
    assert_eq!(high_word(0x0002_0000), 2);
    assert!(matches!(x_button(0x0001_0000), ExtraButton::Extra1));
    assert!(matches!(x_button(0x0002_0000), ExtraButton::Extra2));
}

#[test]
fn messages_are_classified_as_pointer_or_keyboard_input() {
    assert!(is_pointer_message(WM_LBUTTONDOWN));
    assert!(is_pointer_message(WM_MOUSEWHEEL));
    assert!(!is_pointer_message(WM_KEYDOWN));
    assert!(is_keyboard_message(WM_KEYDOWN));
    assert!(is_keyboard_message(WM_CHAR));
    assert!(!is_keyboard_message(WM_LBUTTONDOWN));
}

#[test]
fn capture_policies_decide_independently_of_the_ui() {
    assert!(InputCapture::Block.captures(false));
    assert!(!InputCapture::PassThrough.captures(true));
    assert!(InputCapture::Auto.captures(true));
    assert!(!InputCapture::Auto.captures(false));
    let policy = InputPolicy::automatic();
    assert!(matches!(policy.pointer, InputCapture::Auto));
    assert!(matches!(policy.keyboard, InputCapture::Auto));
}

#[test]
fn ui_owned_drag_and_key_keep_their_release_when_a_window_closes() {
    let mut capture = CaptureState::default();
    capture.update(InputPolicy::default(), true, true);
    assert!(capture.pointer_button(0, true));
    assert!(capture.key(13, true));
    capture.update(InputPolicy { pointer: InputCapture::PassThrough, keyboard: InputCapture::PassThrough }, false, false);
    assert!(capture.pointer_motion());
    assert!(capture.key(13, true), "a held key repeat keeps its recipient");
    assert!(capture.pointer_button(0, false));
    assert!(capture.key(13, false));
    assert!(!capture.pointer_motion());
    assert!(!capture.pointer_button(0, true));
    assert!(!capture.key(13, true));
}

#[test]
fn game_owned_press_releases_to_game_after_a_modal_opens() {
    let mut capture = CaptureState::default();
    assert!(!capture.pointer_button(1, true));
    assert!(!capture.key(65, true));
    capture.update(InputPolicy { pointer: InputCapture::Block, keyboard: InputCapture::Block }, false, false);
    assert!(!capture.pointer_motion());
    assert!(!capture.key(65, true));
    assert!(!capture.pointer_button(1, false));
    assert!(!capture.key(65, false));
    assert!(!capture.key(66, false), "release a key pressed before hook installation");
    assert!(capture.pointer_button(1, true));
    assert!(capture.key(65, true));
}

#[test]
fn render_failure_releases_new_input_without_leaking_a_partial_press() {
    let mut capture = CaptureState::default();
    capture.update(InputPolicy::default(), true, true);
    assert!(capture.pointer_button(4, true));
    assert!(capture.key(32, true));
    capture.clear();
    assert!(!capture.pointer());
    assert!(!capture.keyboard());
    assert!(!capture.pointer_button(2, true));
    assert!(!capture.key(66, true));
    assert!(capture.pointer_button(4, false));
    assert!(capture.key(32, false));
    assert!(!capture.pointer_button(2, false));
    assert!(!capture.key(66, false));
}

#[test]
fn a_press_over_the_ui_is_owned_until_released() {
    let mut capture = CaptureState::default();
    capture.update(InputPolicy::default(), false, false);
    assert!(capture.pointer_at(Some(true)));
    assert!(!capture.pointer_at(None));
    capture.move_pointer(true);
    assert!(capture.pointer_button(0, true));
    assert_eq!(capture.pointer_button_owner(0), Some(true));
    assert_eq!(capture.pointer_button_owner(6), None);
    capture.move_pointer(false);
    assert!(capture.pointer_motion(), "a UI drag remains captured outside the window");
    assert!(capture.pointer_button(0, false));
    assert!(!capture.pointer_motion());
    assert_eq!(capture.pointer_button_owner(0), None);
    capture.update(InputPolicy { pointer: InputCapture::PassThrough, keyboard: InputCapture::Block }, false, false);
    assert!(!capture.pointer_at(Some(true)));
    assert!(capture.keyboard());
    assert!(capture.key(30, true));
    assert_eq!(capture.scan_code_owner(30), Some(true));
    capture.reset();
    assert!(!capture.keyboard());
    assert_eq!(capture.scan_code_owner(30), None);
    assert!(capture.pointer_button(9, true) == capture.pointer());
}

#[test]
fn character_messages_join_surrogate_pairs() {
    let mut pending = None;
    assert_eq!(decode_character(&mut pending, 0xD83D), None);
    assert_eq!(pending, Some(0xD83D));
    assert_eq!(decode_character(&mut pending, 0xDE00), Some('😀'));
    assert_eq!(pending, None);
    assert_eq!(decode_character(&mut pending, 0xDE00), None, "a lone trailing surrogate is dropped");
    assert_eq!(decode_character(&mut pending, 0xD83D), None);
    assert_eq!(decode_character(&mut pending, 0x61), Some('a'));
    assert_eq!(pending, None, "another character drops a waiting surrogate");
    assert_eq!(decode_character(&mut pending, 0x4F60), Some('你'));
    pending = Some(0xD83D);
    assert_eq!(decode_character(&mut pending, 0x1_0000), None);
    assert_eq!(pending, Some(0xD83D), "values beyond 16 bits are ignored");
    assert!(is_control('\u{7f}'));
    assert!(is_control('\r'));
    assert!(!is_control('a'));
    assert!(!is_control('你'));
}

#[test]
fn maps_navigation_and_ascii_keys() {
    assert_eq!(virtual_key(0x25), Some(Key::ArrowLeft));
    assert_eq!(virtual_key(u16::from(b'R')), Some(Key::R));
    assert_eq!(virtual_key(u16::from(b'7')), Some(Key::Num7));
}

#[test]
fn keypad_punctuation_and_windows_keys_are_mapped() {
    assert_eq!(virtual_key(0x67), Some(Key::Num7));
    assert_eq!(virtual_key(0xBD), Some(Key::Minus));
    assert_eq!(virtual_key(0x6D), Some(Key::Minus));
    assert_eq!(virtual_key(0x7B), Some(Key::F12));
    assert_eq!(virtual_key(0x5B), Some(Key::SuperLeft));
    assert_eq!(virtual_key(0x5C), Some(Key::SuperRight));
    assert_eq!(virtual_key(0x10), None);
    assert_eq!(virtual_key(0xFFFF), None);
}
