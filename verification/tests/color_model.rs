use color_chain::color::char_array_to_string;
use color_chain::color::Color;
use color_chain::color::FormatError;

#[test]
fn parse_plain_and_hashed() {
    let c = Color::from_webcolor("#1A2B3C").unwrap();
    assert_eq!(c, Color { red: 0x1A, green: 0x2B, blue: 0x3C });
    let d = Color::from_webcolor("1A2B3C").unwrap();
    assert_eq!(c, d);
}

#[test]
fn parse_is_case_insensitive() {
    let lower = Color::from_webcolor("#aabbcc").unwrap();
    let upper = Color::from_webcolor("#AABBCC").unwrap();
    assert_eq!(lower, upper);
}

#[test]
fn format_round_trip_uppercases() {
    let c = Color::from_webcolor("#1a2b3c").unwrap();
    assert_eq!(c.as_webcolor(), "#1A2B3C".to_string());
}

#[test]
fn format_zero_pads() {
    let c = Color { red: 0, green: 1, blue: 2 };
    assert_eq!(c.as_webcolor(), "#000102".to_string());
    let black = Color::from_webcolor("#000000").unwrap();
    assert_eq!(black.as_webcolor(), "#000000".to_string());
}

#[test]
fn parse_after_format_is_identity() {
    let c = Color { red: 255, green: 0, blue: 127 };
    let back = Color::from_webcolor(&c.as_webcolor()).unwrap();
    assert_eq!(back, c);
}

#[test]
fn malformed_hex_digit_is_rejected() {
    assert_eq!(Color::from_webcolor("#12G456"), Err(FormatError::NotHex));
}

#[test]
fn wrong_length_is_rejected() {
    assert_eq!(Color::from_webcolor("#123"), Err(FormatError::WrongLength));
    assert_eq!(Color::from_webcolor(""), Err(FormatError::WrongLength));
    assert_eq!(Color::from_webcolor("#1234567"), Err(FormatError::WrongLength));
}

#[test]
fn distance_is_symmetric_and_zero_on_self() {
    let a = Color { red: 10, green: 20, blue: 30 };
    let b = Color { red: 13, green: 24, blue: 30 };
    assert_eq!(a.distance_squared(&b), 25);
    assert_eq!(b.distance_squared(&a), 25);
    assert_eq!(a.distance_squared(&a), 0);
}

#[test]
fn collects_chars_into_string() {
    let chars = ['a', 'b', 'c'];
    assert_eq!(char_array_to_string(&chars), "abc".to_string());
    let empty: [char; 0] = [];
    assert_eq!(char_array_to_string(&empty), String::new());
}
