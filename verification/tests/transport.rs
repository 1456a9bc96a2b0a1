use lan_remote::crypto::{Cipher, RandomUnavailable};
use lan_remote::transport::{encode_frame, frame_len, ControlChannel, TransportError, CONTROL_MAX};

fn channel(key: u8) -> ControlChannel {
    ControlChannel::new(Cipher::new(&[key; 32]))
}

fn header(stream: &[u8]) -> [u8; 4] {
    [stream[0], stream[1], stream[2], stream[3]]
}

#[test]
fn frame_layout() {
    assert_eq!(encode_frame(&[]), vec![0, 0, 0, 0]);
    assert_eq!(encode_frame(&[9, 8]), vec![0, 0, 0, 2, 9, 8]);
    assert_eq!(&encode_frame(&[1; 0x1_0203])[..5], &[0, 1, 2, 3, 1]);
}

#[test]
fn frames_up_to_the_cap_are_read() {
    assert_eq!(frame_len(&[0, 0, 0, 0]), Ok(0));
    assert_eq!(frame_len(&[0, 0, 1, 0]), Ok(256));
    assert_eq!(frame_len(&CONTROL_MAX.to_be_bytes()), Ok(1_000_000));
}

#[test]
fn larger_frames_are_refused() {
    assert_eq!(
        frame_len(&1_000_001u32.to_be_bytes()),
        Err(TransportError::TooLarge { len: 1_000_001 })
    );
    assert_eq!(
        frame_len(&[0xff; 4]),
        Err(TransportError::TooLarge { len: u32::MAX })
    );
}

#[test]
fn transport_errors_have_words() {
    assert_eq!(
        TransportError::TooLarge { len: 1_000_001 }.message(),
        "control message too large: 1000001 bytes"
    );
    assert_eq!(TransportError::NotAuthentic.message(), "control message failed to decrypt");
}

#[test]
fn a_frame_of_the_cap_reads_back_and_one_more_byte_does_not() {
    let frame = encode_frame(&vec![3; 1_000_000]);
    assert_eq!(frame_len(&header(&frame)), Ok(1_000_000));
    let frame = encode_frame(&vec![3; 1_000_001]);
    assert_eq!(frame_len(&header(&frame)), Err(TransportError::TooLarge { len: 1_000_001 }));
}

#[test]
fn what_is_sent_is_received_in_order() {
    let viewer = channel(1);
    let host = channel(1).try_clone();
    let messages: [&[u8]; 4] = [b"hello", b"", b"move", &[7; 5000]];
    let mut stream = Vec::new();
    for m in messages {
        stream.extend(viewer.send(m).unwrap());
    }
    let mut at = 0;
    for m in messages {
        let len = frame_len(&header(&stream[at..])).unwrap();
        assert_eq!(len, m.len() + 40);
        let body = &stream[at + 4..at + 4 + len];
        assert_eq!(host.recv(body), Ok(m.to_vec()));
        at += 4 + len;
    }
    assert_eq!(at, stream.len());
}

#[test]
fn sending_fails_exactly_without_a_nonce() {
    let nonce = [8u8; 24];
    let body = Cipher::new(&[1; 32]).seal_with_nonce(&nonce, b"hi");
    assert_eq!(channel(1).send_drawn(Ok(nonce), b"hi"), Ok(encode_frame(&body)));
    assert_eq!(channel(1).send_drawn(Err(RandomUnavailable), b"hi"), Err(RandomUnavailable));
}

#[test]
fn another_password_is_not_understood() {
    let frame = channel(1).send(b"hello").unwrap();
    assert_eq!(channel(2).recv(&frame[4..]), Err(TransportError::NotAuthentic));
    assert_eq!(channel(1).recv(&frame[5..]), Err(TransportError::NotAuthentic));
}

#[test]
fn a_piece_of_a_file_fits_into_a_frame() {
    let piece = vec![0u8; lan_remote::sync::FILE_CHUNK];
    let serialised = bincode::serialize(&(11u32, 1u32, &piece)).unwrap();
    assert!(serialised.len() <= piece.len() + 900_000);
    let frame = channel(1).send(&serialised).unwrap();
    assert!(frame_len(&header(&frame)).is_ok());
}

#[test]
fn the_largest_message_fits_and_one_more_byte_does_not() {
    let frame = channel(1).send(&vec![5; 1_000_000 - 40]).unwrap();
    assert_eq!(frame_len(&header(&frame)), Ok(1_000_000));
    assert_eq!(channel(1).recv(&frame[4..]), Ok(vec![5; 1_000_000 - 40]));
    let frame = channel(1).send(&vec![5; 1_000_000 - 39]).unwrap();
    assert_eq!(frame_len(&header(&frame)), Err(TransportError::TooLarge { len: 1_000_001 }));
}

#[test]
fn a_body_that_is_cut_gives_no_part_of_the_message() {
    let frame = channel(1).send(b"a message").unwrap();
    for n in 4..frame.len() {
        assert_eq!(channel(1).recv(&frame[4..n]), Err(TransportError::NotAuthentic));
    }
}
