use argline::classes::{banned, is_whitespace, qualifies_ident};
use argline::text::{byte_length, char_at, next_char, slice, to_chars, utf8_width};

#[test]
fn white_space_is_what_std_says_for_every_scalar() {
    for u in 0..=0x10FFFFu32 {
        if let Some(c) = char::from_u32(u) {
            assert_eq!(is_whitespace(c), c.is_whitespace(), "U+{:04X}", u);
        }
    }
}

#[test]
fn width_is_what_std_says_for_every_scalar() {
    for u in 0..=0x10FFFFu32 {
        if let Some(c) = char::from_u32(u) {
            assert_eq!(utf8_width(c), c.len_utf8(), "U+{:04X}", u);
        }
    }
}

#[test]
fn identifier_scalars() {
    for u in 0..=0x2FFu32 {
        let c = char::from_u32(u).unwrap();
        let start = c == '_' || c.is_ascii_alphabetic();
        assert_eq!(qualifies_ident(c, true), start);
        assert_eq!(qualifies_ident(c, false), start || c.is_ascii_digit());
    }
}

#[test]
fn banned_scalars() {
    for u in 0..=0x2FFu32 {
        let c = char::from_u32(u).unwrap();
        assert_eq!(banned(c), "'\"`|{[(=+-)]}".contains(c));
    }
}

#[test]
fn scalars_are_read_by_byte_offset() {
    let s = "aé€😀";
    assert_eq!(byte_length(s), 10);
    assert_eq!(char_at(s, 0), Some('a'));
    assert_eq!(char_at(s, 1), Some('é'));
    assert_eq!(char_at(s, 3), Some('€'));
    assert_eq!(char_at(s, 6), Some('😀'));
    assert_eq!(char_at(s, 10), None);
    assert_eq!(next_char(s, 0), Some(('a', 1)));
    assert_eq!(next_char(s, 1), Some(('é', 3)));
    assert_eq!(next_char(s, 3), Some(('€', 6)));
    assert_eq!(next_char(s, 6), Some(('😀', 10)));
    assert_eq!(next_char(s, 10), None);
}

#[test]
fn slices_and_scalars() {
    let s = "aé€😀";
    assert_eq!(slice(s, 1, 6), "é€");
    assert_eq!(slice(s, 0, 10), s);
    assert_eq!(slice(s, 3, 3), "");
    assert_eq!(to_chars(s), vec!['a', 'é', '€', '😀']);
    assert_eq!(to_chars(""), Vec::<char>::new());
}
