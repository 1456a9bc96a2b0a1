use lan_remote::codec::{CodecError, VideoDecoder, VideoEncoder};
use openh264::encoder::FrameRate;

fn encoder() -> VideoEncoder {
    VideoEncoder::new(FrameRate::from_hz(30.0), 8).unwrap()
}

fn grey(width: usize, height: usize, value: u8) -> Vec<u8> {
    let mut bgra = Vec::new();
    for _ in 0..width * height {
        bgra.extend_from_slice(&[value, value, value, 255]);
    }
    bgra
}

#[test]
fn encoded_frames_decode_to_their_size_and_colour() {
    let mut enc = encoder();
    let mut dec = VideoDecoder::new().unwrap();
    let mut frames = 0;
    for _ in 0..3 {
        let nal = enc.encode_bgra(&grey(64, 48, 200), 64, 48).unwrap();
        if nal.is_empty() {
            continue;
        }
        assert_eq!(&nal[..4], &[0, 0, 0, 1]);
        if let Some((rgba, w, h)) = dec.decode(&nal).unwrap() {
            frames += 1;
            assert_eq!((w, h), (64, 48));
            assert_eq!(rgba.len(), 64 * 48 * 4);
            for pixel in rgba.chunks(4) {
                assert_eq!(pixel[3], 255);
                assert!((190..=210).contains(&pixel[0]));
                assert!((190..=210).contains(&pixel[1]));
                assert!((190..=210).contains(&pixel[2]));
            }
        }
    }
    assert!(frames > 0);
}

#[test]
fn colours_come_back_in_their_places() {
    for (b, g, r) in [(230u8, 20u8, 20u8), (20, 230, 20), (20, 20, 230)] {
        let bgra = [b, g, r, 255].repeat(64 * 48);
        let nal = encoder().encode_bgra(&bgra, 64, 48).unwrap();
        let (rgba, _, _) = VideoDecoder::new().unwrap().decode(&nal).unwrap().unwrap();
        for pixel in rgba.chunks(4) {
            for (got, sent) in [(pixel[0], r), (pixel[1], g), (pixel[2], b)] {
                assert!((got as i32 - sent as i32).abs() <= 12);
            }
            assert_eq!(pixel[3], 255);
        }
    }
}

#[test]
fn the_first_frame_starts_with_its_headers() {
    let nal = encoder().encode_bgra(&grey(64, 48, 0), 64, 48).unwrap();
    assert_eq!(nal[4] & 0x1f, 7);
}

#[test]
fn the_size_may_change_between_frames() {
    let mut enc = encoder();
    let mut dec = VideoDecoder::new().unwrap();
    for (w, h) in [(64usize, 48usize), (32, 32)] {
        let nal = enc.encode_bgra(&grey(w, h, 90), w, h).unwrap();
        let (rgba, dw, dh) = dec.decode(&nal).unwrap().unwrap();
        assert_eq!((dw as usize, dh as usize), (w, h));
        assert_eq!(rgba.len(), w * h * 4);
    }
}

#[test]
fn pictures_that_are_too_large_are_refused() {
    let mut enc = encoder();
    let r = enc.encode_bgra(&grey(3842, 2, 0), 3842, 2);
    match r {
        Err(e) => {
            assert!(matches!(e, CodecError::Encode(_)));
            assert_eq!(e.context(), "H.264 encode");
        }
        Ok(_) => panic!("encoded"),
    }
}

#[test]
fn garbage_gives_no_picture() {
    let mut dec = VideoDecoder::new().unwrap();
    match dec.decode(&[0, 0, 0, 1, 0x65, 1, 2, 3, 4, 5, 6, 7]) {
        Ok(frame) => assert_eq!(frame, None),
        Err(e) => {
            assert!(matches!(e, CodecError::Decode(_)));
            assert_eq!(e.context(), "H.264 decode");
        }
    }
}

#[test]
fn codec_errors_say_what_was_being_done() {
    assert_eq!(CodecError::PictureTooLarge.context(), "H.264 decode: picture too large");
    let e = CodecError::CreateEncoder(openh264::Error::msg("x"));
    assert_eq!(e.context(), "create H.264 encoder");
    let e = CodecError::CreateDecoder(openh264::Error::msg("x"));
    assert_eq!(e.context(), "create H.264 decoder");
}
