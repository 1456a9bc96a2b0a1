use lan_remote::host::{
    handle_input, welcome, winit_keycode_to_enigo, HostAction, HostButton, HostKey, HostSession,
    InputAction,
};
use lan_remote::proto::ControlMsg;
use lan_remote::viewer::{
    egui_key_to_wire, finish_handshake, forward_input, HandshakeError, InputEvent, RgbaFrame,
    ViewButton, ViewKey,
};

const KEYS: [(ViewKey, u32, HostKey); 25] = [
    (ViewKey::Enter, 0x00, HostKey::Return),
    (ViewKey::Tab, 0x01, HostKey::Tab),
    (ViewKey::Backspace, 0x03, HostKey::Backspace),
    (ViewKey::Delete, 0x04, HostKey::Delete),
    (ViewKey::Escape, 0x05, HostKey::Escape),
    (ViewKey::ArrowUp, 0x10, HostKey::UpArrow),
    (ViewKey::ArrowDown, 0x11, HostKey::DownArrow),
    (ViewKey::ArrowLeft, 0x12, HostKey::LeftArrow),
    (ViewKey::ArrowRight, 0x13, HostKey::RightArrow),
    (ViewKey::Home, 0x14, HostKey::Home),
    (ViewKey::End, 0x15, HostKey::End),
    (ViewKey::PageUp, 0x16, HostKey::PageUp),
    (ViewKey::PageDown, 0x17, HostKey::PageDown),
    (ViewKey::F1, 0x30, HostKey::F1),
    (ViewKey::F2, 0x31, HostKey::F2),
    (ViewKey::F3, 0x32, HostKey::F3),
    (ViewKey::F4, 0x33, HostKey::F4),
    (ViewKey::F5, 0x34, HostKey::F5),
    (ViewKey::F6, 0x35, HostKey::F6),
    (ViewKey::F7, 0x36, HostKey::F7),
    (ViewKey::F8, 0x37, HostKey::F8),
    (ViewKey::F9, 0x38, HostKey::F9),
    (ViewKey::F10, 0x39, HostKey::F10),
    (ViewKey::F11, 0x3a, HostKey::F11),
    (ViewKey::F12, 0x3b, HostKey::F12),
];

#[test]
fn welcome_finishes_the_handshake() {
    assert_eq!(finish_handshake(Some(welcome(1920, 1080, 60))), Ok((1920, 1080, 60)));
    let mut host = HostSession::new(false);
    assert_eq!(
        host.on_message(&ControlMsg::Hello { udp_port: 4242 }),
        HostAction::Start { udp_port: 4242 }
    );
}

#[test]
fn another_answer_is_an_error() {
    let e = finish_handshake(Some(ControlMsg::Pong)).unwrap_err();
    assert_eq!(e, HandshakeError::ExpectedWelcome(ControlMsg::Pong));
    assert_eq!(e.message(), "expected Welcome, got ");
}

#[test]
fn no_answer_means_a_wrong_password_or_a_refusal() {
    let e = finish_handshake(None).unwrap_err();
    assert_eq!(e, HandshakeError::Rejected);
    assert_eq!(e.message(), "Incorrect password, or the host rejected the connection");
}

#[test]
fn keys_are_the_same_on_both_sides() {
    for (key, code, host) in KEYS {
        assert_eq!(egui_key_to_wire(key), Some(code));
        assert_eq!(winit_keycode_to_enigo(code), Some(host));
    }
    assert_eq!(egui_key_to_wire(ViewKey::Other), None);
}

#[test]
fn nothing_is_forwarded_before_there_is_a_picture() {
    let events = vec![InputEvent::Key { key: ViewKey::Enter, pressed: true }];
    assert_eq!(forward_input(false, Some((1, 2)), Some((3, 4)), &events), vec![]);
}

#[test]
fn cursor_then_scroll_then_events() {
    let events = vec![
        InputEvent::PointerButton { button: ViewButton::Secondary, pressed: true },
        InputEvent::Other,
        InputEvent::Text { text: "aé\n".to_string() },
        InputEvent::Key { key: ViewKey::ArrowLeft, pressed: false },
    ];
    assert_eq!(
        forward_input(true, Some((1, 2)), Some((3, 4)), &events),
        vec![
            ControlMsg::MouseMove { nx: 1, ny: 2 },
            ControlMsg::MouseScroll { dx: 3, dy: 4 },
            ControlMsg::MouseButton { btn: 1, pressed: true },
            ControlMsg::KeyChar { ch: 97 },
            ControlMsg::KeyChar { ch: 0xe9 },
            ControlMsg::KeyPress { keycode: 0x12, pressed: false },
        ]
    );
}

#[test]
fn other_keys_and_buttons_are_not_forwarded() {
    let events = vec![
        InputEvent::PointerButton { button: ViewButton::Other, pressed: true },
        InputEvent::Key { key: ViewKey::Other, pressed: true },
        InputEvent::Text { text: "\u{7f}\u{1b}".to_string() },
    ];
    assert_eq!(forward_input(true, None, None, &events), vec![]);
}

#[test]
fn buttons_are_the_same_on_both_sides() {
    for (view, host) in [
        (ViewButton::Primary, HostButton::Left),
        (ViewButton::Secondary, HostButton::Right),
        (ViewButton::Middle, HostButton::Middle),
    ] {
        let events = vec![InputEvent::PointerButton { button: view, pressed: true }];
        let msgs = forward_input(true, None, None, &events);
        assert_eq!(msgs.len(), 1);
        assert_eq!(
            handle_input(&msgs[0]),
            InputAction::Button { button: host, pressed: true }
        );
    }
}

#[test]
fn text_is_the_same_on_both_sides() {
    let text = "Grüße, 世界!\t";
    let events = vec![InputEvent::Text { text: text.to_string() }];
    let written: Vec<InputAction> =
        forward_input(true, None, None, &events).iter().map(handle_input).collect();
    let expected: Vec<InputAction> = text
        .chars()
        .filter(|c| !c.is_control())
        .map(|ch| InputAction::Text { ch })
        .collect();
    assert_eq!(written, expected);
}

#[test]
fn frames_for_display() {
    let f = RgbaFrame { data: vec![1, 2, 3, 255], width: 1, height: 1 };
    assert_eq!(f.clone(), f);
}
