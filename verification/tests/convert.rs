use lan_remote::convert::{bgra_to_i420, i420_strided_to_xrgb};

fn one_colour(b: u8, g: u8, r: u8) -> Vec<u8> {
    let mut bgra = Vec::new();
    for _ in 0..4 {
        bgra.extend_from_slice(&[b, g, r, 255]);
    }
    bgra
}

#[test]
fn colours_have_their_bt601_values() {
    let cases = [
        ((0, 0, 0), (16, 128, 128)),
        ((255, 255, 255), (235, 128, 128)),
        ((255, 0, 0), (82, 90, 240)),
        ((0, 255, 0), (144, 54, 34)),
        ((0, 0, 255), (41, 240, 110)),
        ((10, 20, 30), (32, 134, 123)),
    ];
    for ((r, g, b), (y, u, v)) in cases {
        let out = bgra_to_i420(&one_colour(b, g, r), 2, 2);
        assert_eq!(out, vec![y, y, y, y, u, v]);
    }
}

#[test]
fn planes_follow_each_other() {
    let bgra: Vec<u8> = (0..32u32).map(|i| (i * 37 % 256) as u8).collect();
    let out = bgra_to_i420(&bgra, 4, 2);
    assert_eq!(out, vec![54, 181, 88, 149, 122, 55, 157, 64, 106, 106, 147, 147]);
}

#[test]
fn a_last_odd_column_or_row_has_no_chroma() {
    let bgra: Vec<u8> = (0..48u32).map(|i| ((i * i * 7 + 3) % 256) as u8).collect();
    assert_eq!(
        bgra_to_i420(&bgra, 3, 4),
        vec![29, 183, 114, 146, 192, 65, 81, 69, 159, 117, 177, 147, 122, 187, 138, 160]
    );
    let bgra: Vec<u8> = (0..60u32).map(|i| ((i * i * 5 + 1) % 256) as u8).collect();
    assert_eq!(
        bgra_to_i420(&bgra, 5, 3),
        vec![25, 134, 161, 131, 122, 146, 63, 118, 90, 133, 160, 130, 187, 211, 128, 124, 77, 135, 176]
    );
    assert_eq!(bgra_to_i420(&[0; 4], 1, 1), vec![16]);
    assert_eq!(bgra_to_i420(&[0; 48], 3, 4).len(), 16);
}

#[test]
fn the_very_last_alpha_byte_may_be_missing() {
    let bgra = one_colour(255, 0, 0);
    assert_eq!(bgra_to_i420(&bgra[..15], 2, 2), bgra_to_i420(&bgra, 2, 2));
}

#[test]
fn grey_images_come_back_within_one() {
    let (w, h) = (16usize, 16usize);
    let mut bgra = Vec::new();
    for g in 0..=255u8 {
        bgra.extend_from_slice(&[g, g, g, 255]);
    }
    let out = bgra_to_i420(&bgra, w, h);
    let p = w * h;
    let pixels = i420_strided_to_xrgb(
        &out[..p],
        w,
        &out[p..p + p / 4],
        w / 2,
        &out[p + p / 4..],
        w / 2,
        w,
        h,
    );
    for (g, pixel) in pixels.iter().enumerate() {
        let x = pixel & 0xff;
        assert_eq!(*pixel, x * 0x10101);
        assert!((x as i32 - g as i32).abs() <= 1);
    }
    assert_eq!(pixels[0], 0);
    assert_eq!(pixels[255], 0xffffff);
}

#[test]
fn no_pixels_no_samples() {
    assert_eq!(bgra_to_i420(&[], 0, 0), Vec::<u8>::new());
    assert_eq!(bgra_to_i420(&[], 0, 8), Vec::<u8>::new());
}

#[test]
fn bytes_behind_the_image_do_not_matter() {
    let mut bgra = one_colour(255, 0, 0);
    bgra.extend_from_slice(&[9; 7]);
    assert_eq!(bgra_to_i420(&bgra, 2, 2), vec![41, 41, 41, 41, 240, 110]);
}

#[test]
fn samples_stay_in_the_limited_range() {
    let bgra: Vec<u8> = (0..16 * 16 * 4u32).map(|i| (i * i % 251) as u8).collect();
    let out = bgra_to_i420(&bgra, 16, 16);
    assert!(out[..256].iter().all(|y| (16..=235).contains(y)));
    assert!(out[256..].iter().all(|c| (16..=240).contains(c)));
}

#[test]
fn pixels_have_their_colours() {
    let cases = [
        ((16, 128, 128), 0x000000),
        ((235, 128, 128), 0xffffff),
        ((82, 90, 240), 0xff0100),
        ((81, 90, 240), 0xff0000),
        ((0, 0, 0), 0x008700),
        ((255, 255, 255), 0xff7dff),
    ];
    for ((y, u, v), pixel) in cases {
        let out = i420_strided_to_xrgb(&[y; 4], 2, &[u], 1, &[v], 1, 2, 2);
        assert_eq!(out, vec![pixel; 4]);
        assert!(out.iter().all(|p| p >> 24 == 0));
    }
}

#[test]
fn strides_skip_what_lies_between_rows() {
    let y = [16, 235, 99, 235, 16, 99];
    let out = i420_strided_to_xrgb(&y, 3, &[128, 7], 2, &[128, 7], 2, 2, 2);
    assert_eq!(out, vec![0x000000, 0xffffff, 0xffffff, 0x000000]);
}

#[test]
fn four_pixels_share_a_chroma_sample() {
    let y = [81; 8];
    let out = i420_strided_to_xrgb(&y, 4, &[90, 128], 2, &[240, 128], 2, 4, 2);
    assert_eq!(out[0], 0xff0000);
    assert_eq!(out[1], 0xff0000);
    assert_eq!(out[2], 0x4c4c4c);
    assert_eq!(out[5], 0xff0000);
    assert_eq!(out[7], 0x4c4c4c);
}
