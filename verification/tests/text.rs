use kafka_proxy::text::{
    parse_number, push_decimal, push_signed, rsplit_once, same, split, split_whitespace,
    strip_suffix, trim,
};
use kafka_proxy::wire::{push_from, push_i32, push_range, read_i16, read_i32, read_varint};

#[test]
fn trimming() {
    for s in ["", " ", "a", " a b\t\n", "\u{a0}x\u{3000}", "\u{200b}"] {
        assert_eq!(trim(s), s.trim());
    }
}

#[test]
fn splitting() {
    assert_eq!(split("a,b,,c", ','), vec!["a", "b", "", "c"]);
    assert_eq!(split("", ','), vec![""]);
    assert_eq!(split_whitespace("  a\tbc \n d"), vec!["a", "bc", "d"]);
    assert_eq!(rsplit_once("a:b:c", ':'), Some(("a:b", "c")));
    assert_eq!(rsplit_once("abc", ':'), None);
    assert_eq!(strip_suffix("5ms", "ms"), Some("5"));
    assert_eq!(strip_suffix("s", "ms"), None);
    assert!(same("a", "a"));
    assert!(!same("a", "b"));
}

#[test]
fn numbers() {
    for s in ["0", "+7", "007", "65535", "65536", "", "+", "-1", "1x", " 1"] {
        assert_eq!(
            parse_number(s, u16::MAX as u64),
            s.parse::<u16>().ok().map(|n| n as u64),
            "{s}"
        );
    }
    assert_eq!(parse_number("18446744073709551615", u64::MAX), Some(u64::MAX));
    assert_eq!(parse_number("18446744073709551616", u64::MAX), None);
    let mut out = String::new();
    push_decimal(&mut out, u64::MAX);
    out.push(' ');
    push_signed(&mut out, i64::MIN);
    out.push(' ');
    push_signed(&mut out, 0);
    assert_eq!(out, "18446744073709551615 -9223372036854775808 0");
}

#[test]
fn wire_numbers() {
    let mut out = vec![9];
    push_i32(&mut out, -2);
    push_from(&mut out, &[1, 2, 3], 1);
    push_range(&mut out, &[1, 2, 3], 0, 1);
    assert_eq!(out, vec![9, 0xff, 0xff, 0xff, 0xfe, 2, 3, 1]);
    assert_eq!(read_i32(&out, 1), -2);
    assert_eq!(read_i16(&out, 4), -510);
    assert_eq!(read_varint(&[0xac, 2, 7], 0), Some((300, 2)));
    assert_eq!(read_varint(&[0xac], 0), None);
    assert_eq!(read_varint(&[0x80, 0x80, 0x80, 0x80, 0x80, 0], 0), None);
    assert_eq!(
        read_varint(&[0xff, 0xff, 0xff, 0xff, 0x7f], 0),
        Some((u32::MAX, 5))
    );
}
