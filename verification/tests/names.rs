use std::cmp::Ordering;
use std::collections::hash_map::DefaultHasher;
use std::hash::{Hash, Hasher};

use acorn_dfs::new_map::util::{make_input, DiscPosition, FixedLenString};
use acorn_dfs::new_map::Cause;

#[test]
fn disc_position() {
    let dp = DiscPosition(515);
    let s = dp.debug_string();
    assert_eq!(s, "DiscPosition { val: 515, fragment: 2, sector no: 2 }");
}

#[test]
fn fixed_string_properties() {
    let empty = FixedLenString([0; 10]);
    assert_eq!(empty.valid_range(), &[] as &[u8]);

    let a = FixedLenString([b'a', b'b', 0]);
    let b = FixedLenString([b'a', b'b', b'c']);
    assert_eq!(a.cmp(&b), Ordering::Less);
    assert_eq!(a.len(), 2);
    assert_eq!(b.len(), 3);

    let c = FixedLenString([0]);
    let d = FixedLenString([1]);
    assert_eq!(c, d);
}

#[test]
fn disc_position_parts() {
    assert_eq!(DiscPosition(0x205).fragment(), 2);
    assert_eq!(DiscPosition(0x205).sector_idx(), 4);
    assert_eq!(DiscPosition(0x200).sector_idx(), 0);
    assert_eq!(DiscPosition(0x201).sector_idx(), 0);
    assert_eq!(DiscPosition(0xE0FF_FFFF).fragment(), 0x7FFF);
    assert_eq!(DiscPosition(0xE0FF_FFFF).sector_idx(), 0xFE);

    let mut input = make_input(&[0x05, 0x02, 0x01, 0xFF]);
    let position = DiscPosition::parse_for_new_map(&mut input).unwrap();
    assert_eq!(position.0, 0x01_0205);
    assert_eq!(input.pos, 3);
    let error = DiscPosition::parse_for_new_map(&mut input).unwrap_err();
    assert!(matches!(error.cause, Cause::Truncated));
}

#[test]
fn names_end_at_control_characters() {
    let name = FixedLenString(*b"ab\rcdefghi");
    assert_eq!(name.valid_range(), b"ab");
    let high = FixedLenString([b'a', 0x9F, b'b']);
    assert_eq!(high.len(), 1);
    let latin = FixedLenString([b'a', 0xE9, b'b']);
    assert_eq!(latin.len(), 3);
    assert!(FixedLenString([0x7F; 4]).is_empty());
    assert!(!latin.is_empty());
    assert_eq!(FixedLenString(*b"ab\0x"), FixedLenString(*b"ab\ny"));
}

#[test]
fn names_from_the_disc_keep_all_bytes() {
    let mut input = make_input(b"ab\0cdef");
    let name = FixedLenString::<5>::parse_from_disk(&mut input).unwrap();
    assert_eq!(name.0, *b"ab\0cd");
    assert_eq!(input.pos, 5);
    let error = FixedLenString::<5>::parse_from_disk(&mut input).unwrap_err();
    assert!(matches!(error.cause, Cause::Truncated));
    assert_eq!(input.pos, 5);
}

#[test]
fn names_from_text_stop() {
    let mut input = make_input(b"Templates.More");
    let name = FixedLenString::<10>::parse_from_byte_str(&mut input).unwrap();
    assert_eq!(name.valid_range(), b"Templates");
    assert_eq!(input.pos, 9);
    assert!(FixedLenString::<10>::parse_from_byte_str(&mut input).is_err());

    // Every control character ends a name, those behind ASCII too.
    let mut control = make_input(&[b'A', 0x85, b'B']);
    let name = FixedLenString::<10>::parse_from_byte_str(&mut control).unwrap();
    assert_eq!(name.0, *b"A\0\0\0\0\0\0\0\0\0");
    assert_eq!(control.pos, 1);
    assert!(FixedLenString::<10>::parse_from_byte_str(&mut control).is_err());

    let mut long = make_input(b"abcdefghijkl");
    let name = FixedLenString::<10>::parse_from_byte_str(&mut long).unwrap();
    assert_eq!(name.valid_range(), b"abcdefghij");
    assert_eq!(long.pos, 10);
}

#[test]
fn names_are_shown_escaped() {
    let name = FixedLenString::<10>::from_bytes_dynamic(b"it's \\ok");
    assert_eq!(name.to_string(), "it\\'s \\\\ok");
    let latin = FixedLenString::<10>::from_bytes_dynamic("caf\u{e9}".as_bytes());
    assert_eq!(latin.to_string(), "caf\\u{e9}");
    // Not valid text: each stray byte is shown as a replacement character.
    let stray = FixedLenString::<10>::from_bytes_dynamic(&[b'a', 0xFF, b'b']);
    assert_eq!(stray.to_string(), "a\\u{fffd}b");
}

fn hash_of<T: Hash>(value: &T) -> u64 {
    let mut state = DefaultHasher::new();
    value.hash(&mut state);
    state.finish()
}

#[test]
fn equal_names_hash_alike() {
    let a = FixedLenString(*b"ab\0xyz");
    let b = FixedLenString(*b"ab\nuvw");
    assert_eq!(a, b);
    assert_eq!(a.cmp(&b), Ordering::Equal);
    assert_eq!(hash_of(&a), hash_of(&b));
    assert_ne!(hash_of(&a), hash_of(&FixedLenString(*b"abc\0\0\0")));
    // What a hasher is given is the name, and nothing else.
    let mut state = DefaultHasher::new();
    state.write(b"ab");
    assert_eq!(hash_of(&a), state.finish());
}

#[test]
fn whole_strings_are_shown_quoted() {
    assert_eq!(
        FixedLenString(*b"ab\"c\0").debug_string(),
        "FixedLenString(\"ab\\\"c\\0\")"
    );
    assert_eq!(
        FixedLenString([b'a', 0xFF]).debug_string(),
        "FixedLenString(\"a\u{fffd}\")"
    );
}

#[test]
fn names_by_their_beginnings() {
    let short = FixedLenString::<10>::from_bytes_dynamic(b"Tem");
    let long = FixedLenString::<10>::from_bytes_dynamic(b"Templates");
    assert!(short.is_prefix(&long));
    assert!(short.is_prefix(&short));
    assert!(!long.is_prefix(&short));
    assert!(short < long);
    assert_eq!(long.cmp(&short), Ordering::Greater);
}
