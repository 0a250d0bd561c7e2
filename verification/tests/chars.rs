use sre_engine::chars::{lower_ascii, lower_unicode, upper_unicode};
use sre_engine::strdrive::StrDrive;

#[test]
fn lower_ascii_maps_only_ascii_capitals() {
    assert_eq!(lower_ascii('A' as u32), 'a' as u32);
    assert_eq!(lower_ascii('Z' as u32), 'z' as u32);
    assert_eq!(lower_ascii('a' as u32), 'a' as u32);
    assert_eq!(lower_ascii('@' as u32), '@' as u32);
    assert_eq!(lower_ascii(0xC4), 0xC4);
    assert_eq!(lower_ascii(0x10041), 0x10041);
}

#[test]
fn lower_unicode_maps_letters() {
    assert_eq!(lower_unicode('A' as u32), 'a' as u32);
    assert_eq!(lower_unicode(0xC4), 0xE4);
    assert_eq!(lower_unicode('1' as u32), '1' as u32);
    // a surrogate and a value above the Unicode range are returned unchanged
    assert_eq!(lower_unicode(0xD800), 0xD800);
    assert_eq!(lower_unicode(0x110000), 0x110000);
}

#[test]
fn upper_unicode_takes_first_char_of_mapping() {
    assert_eq!(upper_unicode('a' as u32), 'A' as u32);
    assert_eq!(upper_unicode(0xE4), 0xC4);
    // 'ß' uppercases to "SS"
    assert_eq!(upper_unicode(0xDF), 'S' as u32);
    assert_eq!(upper_unicode(0xDFFF), 0xDFFF);
}

#[test]
fn count_counts_chars_or_bytes() {
    assert_eq!(StrDrive::Str("héllo").count(), 5);
    assert_eq!(StrDrive::Bytes("héllo".as_bytes()).count(), 6);
    assert_eq!(StrDrive::from("").count(), 0);
    let b: &[u8] = b"ab";
    assert_eq!(StrDrive::from(b).count(), 2);
}
