use lan_remote::text::{
    is_control, is_white_space, numbered, push_decimal, socket_address, to_chars, trim,
};

#[test]
fn white_space_is_that_of_unicode() {
    for c in (0..=0x10ffff).filter_map(char::from_u32) {
        assert_eq!(is_white_space(c), c.is_whitespace(), "{:?}", c);
    }
}

#[test]
fn control_characters_are_those_of_unicode() {
    for c in (0..=0x10ffff).filter_map(char::from_u32) {
        assert_eq!(is_control(c), c.is_control(), "{:?}", c);
    }
}

#[test]
fn trimming_takes_off_both_ends() {
    for s in ["", " ", "a", " a", "a ", "\t a b \u{3000}", "\u{a0}é\n", "   \u{2003}"] {
        assert_eq!(trim(s), s.trim());
        assert_eq!(trim(trim(s)), trim(s));
    }
}

#[test]
fn texts_come_apart_into_characters() {
    assert_eq!(to_chars(""), Vec::<char>::new());
    assert_eq!(to_chars("aé●"), vec!['a', 'é', '●']);
}

#[test]
fn decimal_notation() {
    for n in [0, 7, 9, 10, 99, 100, 7272, 65535, 1_000_000, u64::MAX] {
        let mut s = "n=".to_string();
        push_decimal(&mut s, n);
        assert_eq!(s, format!("n={}", n));
    }
}

#[test]
fn addresses() {
    assert_eq!(socket_address("192.168.1.5", 7272), "192.168.1.5:7272");
    assert_eq!(socket_address("", 0), ":0");
    assert_eq!(socket_address("host.local", 65535), "host.local:65535");
}

#[test]
fn numbers_in_words() {
    assert_eq!(numbered("a ", 12, " b"), "a 12 b");
}
