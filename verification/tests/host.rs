use lan_remote::crypto::{Cipher, RandomUnavailable};
use lan_remote::host::{
    handle_input, seal_datagrams, seal_datagrams_drawn, video_address, welcome,
    winit_keycode_to_enigo, FrameSender, HostAction, HostButton, HostKey, HostSession, InputAction,
};
use lan_remote::proto::{ControlMsg, InboundVideo};
use lan_remote::sync::SyncRoute;

fn parsed(datagrams: &[Vec<u8>]) -> Vec<InboundVideo> {
    datagrams.iter().map(|d| InboundVideo::parse(d).unwrap()).collect()
}

#[test]
fn frames_are_cut_into_chunks() {
    let nal: Vec<u8> = (0..3000u32).map(|i| (i % 251) as u8).collect();
    let packets = parsed(&FrameSender::new().packetize(&nal, 17));
    assert_eq!(packets.len(), 3);
    for (i, p) in packets.iter().enumerate() {
        assert_eq!(p.frame_id, 0);
        assert_eq!(p.chunk_idx, i as u16);
        assert_eq!(p.total_chunks, 3);
        assert_eq!(p.pts_ms, 17);
    }
    assert_eq!(packets[0].data, nal[..1300]);
    assert_eq!(packets[1].data, nal[1300..2600]);
    assert_eq!(packets[2].data, nal[2600..]);
}

#[test]
fn a_full_last_chunk_has_no_empty_one_behind_it() {
    let out = FrameSender::new().packetize(&[1; 2600], 0);
    assert_eq!(out.len(), 2);
    assert_eq!(out[1].len(), 1314);
    assert_eq!(FrameSender::new().packetize(&[1; 2601], 0).len(), 3);
    assert_eq!(FrameSender::new().packetize(&[1], 0).len(), 1);
}

#[test]
fn an_empty_frame_has_no_datagrams_but_a_number() {
    let mut sender = FrameSender::new();
    assert!(sender.packetize(&[], 0).is_empty());
    assert_eq!(parsed(&sender.packetize(&[1], 0))[0].frame_id, 1);
}

#[test]
fn frames_are_numbered() {
    let mut sender = FrameSender::new();
    for id in 0..5 {
        assert_eq!(parsed(&sender.packetize(&[1, 2], id))[0].frame_id, id);
    }
}

#[test]
fn datagrams_stay_under_the_network_frame() {
    let nal = vec![5; 10_000];
    let plain = FrameSender::new().packetize(&nal, 0);
    let sealed = seal_datagrams(&Cipher::new(&[1; 32]), &plain).unwrap();
    assert_eq!(sealed.len(), plain.len());
    assert!(plain.iter().all(|d| d.len() <= 1314));
    assert!(sealed.iter().all(|d| d.len() < 1400));
    assert_eq!(sealed[0].len(), 1354);
}

#[test]
fn sealed_datagrams_open_to_the_plain_ones() {
    let cipher = Cipher::new(&[1; 32]);
    let plain = FrameSender::new().packetize(&[7; 4000], 0);
    let sealed = seal_datagrams(&cipher, &plain).unwrap();
    for (p, s) in plain.iter().zip(&sealed) {
        assert_ne!(p, s);
        assert_eq!(cipher.open(s).as_ref(), Some(p));
    }
}

#[test]
fn where_there_is_nothing_to_seal_sealing_does_not_fail() {
    assert_eq!(seal_datagrams(&Cipher::new(&[1; 32]), &vec![]), Ok(vec![]));
}

#[test]
fn each_datagram_is_sealed_under_its_nonce() {
    let cipher = Cipher::new(&[1; 32]);
    let plain = vec![vec![1u8, 2], vec![3]];
    let (a, b) = ([7u8; 24], [8u8; 24]);
    assert_eq!(
        seal_datagrams_drawn(&cipher, &plain, &vec![Ok(a), Ok(b)]),
        Ok(vec![cipher.seal_with_nonce(&a, &[1, 2]), cipher.seal_with_nonce(&b, &[3])])
    );
    assert_eq!(
        seal_datagrams_drawn(&cipher, &plain, &vec![Ok(a), Err(RandomUnavailable)]),
        Err(RandomUnavailable)
    );
    assert_eq!(
        seal_datagrams_drawn(&cipher, &plain, &vec![Err(RandomUnavailable), Ok(b)]),
        Err(RandomUnavailable)
    );
}

#[test]
fn key_codes() {
    assert_eq!(winit_keycode_to_enigo(0x00), Some(HostKey::Return));
    assert_eq!(winit_keycode_to_enigo(0x02), Some(HostKey::Space));
    assert_eq!(winit_keycode_to_enigo(0x05), Some(HostKey::Escape));
    assert_eq!(winit_keycode_to_enigo(0x06), None);
    assert_eq!(winit_keycode_to_enigo(0x0f), None);
    assert_eq!(winit_keycode_to_enigo(0x10), Some(HostKey::UpArrow));
    assert_eq!(winit_keycode_to_enigo(0x13), Some(HostKey::RightArrow));
    assert_eq!(winit_keycode_to_enigo(0x17), Some(HostKey::PageDown));
    assert_eq!(winit_keycode_to_enigo(0x20), Some(HostKey::Shift));
    assert_eq!(winit_keycode_to_enigo(0x23), Some(HostKey::Meta));
    assert_eq!(winit_keycode_to_enigo(0x30), Some(HostKey::F1));
    assert_eq!(winit_keycode_to_enigo(0x3a), Some(HostKey::F11));
    assert_eq!(winit_keycode_to_enigo(0x3b), Some(HostKey::F12));
    assert_eq!(winit_keycode_to_enigo(0x3c), None);
    assert_eq!(winit_keycode_to_enigo(0x40), Some(HostKey::CapsLock));
    assert_eq!(winit_keycode_to_enigo(u32::MAX), None);
    assert_eq!((0..=255).filter(|c| winit_keycode_to_enigo(*c).is_some()).count(), 31);
}

#[test]
fn input_messages_are_injected() {
    let nx = 0.5f32.to_bits();
    let ny = 0.25f32.to_bits();
    assert_eq!(
        handle_input(&ControlMsg::MouseMove { nx, ny }),
        InputAction::MoveMouse { nx, ny }
    );
    assert_eq!(
        handle_input(&ControlMsg::MouseScroll { dx: nx, dy: ny }),
        InputAction::Scroll { dx: nx, dy: ny }
    );
    for (btn, button) in [(0, HostButton::Left), (1, HostButton::Right), (2, HostButton::Middle)] {
        assert_eq!(
            handle_input(&ControlMsg::MouseButton { btn, pressed: true }),
            InputAction::Button { button, pressed: true }
        );
    }
    assert_eq!(
        handle_input(&ControlMsg::KeyPress { keycode: 1, pressed: false }),
        InputAction::Key { key: HostKey::Tab, pressed: false }
    );
}

#[test]
fn unknown_buttons_and_keys_do_nothing() {
    assert_eq!(
        handle_input(&ControlMsg::MouseButton { btn: 3, pressed: true }),
        InputAction::Nothing
    );
    assert_eq!(
        handle_input(&ControlMsg::KeyPress { keycode: 0x18, pressed: true }),
        InputAction::Nothing
    );
    for msg in [
        ControlMsg::Ping,
        ControlMsg::Pong,
        ControlMsg::Hello { udp_port: 1 },
        ControlMsg::Welcome { width: 1, height: 1, fps: 1 },
        ControlMsg::Clipboard { text: "x".to_string() },
        ControlMsg::FileEnd { id: 1 },
    ] {
        assert_eq!(handle_input(&msg), InputAction::Nothing);
    }
}

#[test]
fn codes_of_characters_are_written() {
    for c in ['a', ' ', 'é', '\u{10ffff}', '\u{d7ff}', '\u{e000}'] {
        assert_eq!(
            handle_input(&ControlMsg::KeyChar { ch: c as u32 }),
            InputAction::Text { ch: c }
        );
    }
    for code in [0xd800, 0xdfff, 0x110000, u32::MAX] {
        assert_eq!(handle_input(&ControlMsg::KeyChar { ch: code }), InputAction::Nothing);
    }
}

#[test]
fn video_goes_to_the_announced_port() {
    assert_eq!(video_address("10.0.0.7", 40000), "10.0.0.7:40000");
    assert_eq!(video_address("10.0.0.7", 0), "10.0.0.7:7274");
}

#[test]
fn a_session_begins_with_hello() {
    let mut session = HostSession::new(false);
    assert_eq!(
        session.on_message(&ControlMsg::Hello { udp_port: 5000 }),
        HostAction::Start { udp_port: 5000 }
    );
    assert_eq!(
        session.on_message(&ControlMsg::KeyChar { ch: 97 }),
        HostAction::Inject(InputAction::Text { ch: 'a' })
    );
    assert_eq!(session.on_message(&ControlMsg::Ping), HostAction::Nothing);
    assert_eq!(
        session.on_message(&ControlMsg::Hello { udp_port: 6000 }),
        HostAction::Nothing
    );
}

#[test]
fn nothing_is_injected_without_hello() {
    let mut session = HostSession::new(true);
    let key = ControlMsg::KeyPress { keycode: 0, pressed: true };
    assert_eq!(session.on_message(&key), HostAction::Refuse);
    assert_eq!(session.on_message(&ControlMsg::Hello { udp_port: 1 }), HostAction::Nothing);
    assert_eq!(session.on_message(&key), HostAction::Nothing);
    assert_eq!(session.on_message(&ControlMsg::FileEnd { id: 1 }), HostAction::Nothing);
}

#[test]
fn the_clipboard_counts_only_while_it_is_shared() {
    let text = ControlMsg::Clipboard { text: "x".to_string() };
    for (shared, action) in [
        (true, HostAction::Sync(SyncRoute::Clipboard)),
        (false, HostAction::Nothing),
    ] {
        let mut session = HostSession::new(shared);
        session.on_message(&ControlMsg::Hello { udp_port: 1 });
        assert_eq!(session.on_message(&text), action);
        assert_eq!(
            session.on_message(&ControlMsg::FileChunk { id: 1, data: vec![] }),
            HostAction::Sync(SyncRoute::File)
        );
    }
}

#[test]
fn welcome_says_what_the_screen_is() {
    assert_eq!(
        welcome(1920, 1080, 60),
        ControlMsg::Welcome { width: 1920, height: 1080, fps: 60 }
    );
}
