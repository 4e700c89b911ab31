use juno::hash::{djb2_hash, hash_le_bytes, DjB2Hasher};
use juno::string::{sformat, SString};
use std::hash::Hasher;

#[test]
fn test_hash() {
    let test = sformat::<32>("Hello World!");
    let hash = juno::hash::Hash::hash(&test);
    println!("This is the string: {}", test.as_str().unwrap());
    println!("This is the hash: {}", hash);
    let test = sformat::<32>("Hello World.");
    let hash = juno::hash::Hash::hash(&test);
    println!("This is the string: {}", test.as_str().unwrap());
    println!("This is the hash: {}", hash);
}

#[test]
fn string_hash_is_djb2_of_the_text() {
    let test = sformat::<32>("Hello World!");
    assert_eq!(juno::hash::Hash::hash(&test), 13594750393630990530u64 as usize);
    let test = sformat::<32>("Hello World.");
    assert_eq!(juno::hash::Hash::hash(&test), 13594750393630990543u64 as usize);
    // The zeros behind the text play no part, whatever their number.
    let test = sformat::<12>("Hello World!");
    assert_eq!(juno::hash::Hash::hash(&test), 13594750393630990530u64 as usize);
    assert_eq!(juno::hash::Hash::hash(&SString::<4>::new()), 5381);
    assert_eq!(juno::hash::Hash::hash(&SString::<0>::new()), 5381);
}

#[test]
fn djb2_values() {
    assert_eq!(djb2_hash(b""), 5381);
    assert_eq!(djb2_hash(b"a"), 177670);
    assert_eq!(djb2_hash(b"ab"), 5863208);
    assert_ne!(djb2_hash(b"ab"), djb2_hash(b"ba"));
    // Long enough to wrap around.
    assert_eq!(
        djb2_hash(b"The quick brown fox jumps over the lazy dog"),
        3950289020261251294u64 as usize
    );
}

#[test]
fn hasher_folds_what_is_written() {
    let mut hasher = DjB2Hasher::new();
    assert_eq!(hasher.finish(), 5381);
    hasher.write(b"a");
    assert_eq!(hasher.finish(), 177670);
    hasher.write(b"b");
    assert_eq!(hasher.finish(), 5863208);
    hasher.write(b"");
    assert_eq!(hasher.finish(), 5863208);
}

#[test]
fn integer_hashes() {
    assert_eq!(juno::hash::Hash::hash(&7u8), 177580);
    assert_eq!(juno::hash::Hash::hash(&0x0102u16), 5859976);
    assert_eq!(juno::hash::Hash::hash(&42u32), 6382950255u64 as usize);
    assert_eq!(juno::hash::Hash::hash(&1u64), 7567927393197798u64 as usize);
    assert_eq!(juno::hash::Hash::hash(&-1i8), 177828);
    assert_eq!(juno::hash::Hash::hash(&-2i16), 5868546);
    assert_eq!(juno::hash::Hash::hash(&10i32), 6381800271u64 as usize);
    assert_eq!(juno::hash::Hash::hash(&-1i32), 6390891201u64 as usize);
    assert_eq!(juno::hash::Hash::hash(&-2i64), 7579049474988444u64 as usize);
    assert_eq!(hash_le_bytes(0x0102, 2), 5859976);
    assert_eq!(hash_le_bytes(0x0102, 0), 5381);
    if usize::BITS == 64 {
        assert_eq!(juno::hash::Hash::hash(&5usize), 7568097866969706u64 as usize);
        assert_eq!(juno::hash::Hash::hash(&-5isize), 7578921619659513u64 as usize);
    }
}

#[test]
fn new_string_is_all_zeros() {
    let s = SString::<4>::new();
    assert_eq!(s.as_str().unwrap(), "\0\0\0\0");
    let s = SString::<0>::new();
    assert_eq!(s.as_str().unwrap(), "");
}

#[test]
fn format_replaces_the_text() {
    let mut s = SString::<8>::new();
    s.format("abcdef").unwrap();
    assert_eq!(s.as_str().unwrap(), "abcdef\0\0");
    s.format("xy").unwrap();
    assert_eq!(s.as_str().unwrap(), "xy\0\0\0\0\0\0");
    s.format("").unwrap();
    assert_eq!(s.as_str().unwrap(), "\0\0\0\0\0\0\0\0");
    s.format("12345678").unwrap();
    assert_eq!(s.as_str().unwrap(), "12345678");
}

#[test]
fn format_fails_where_the_text_does_not_fit() {
    let mut s = SString::<4>::new();
    s.format("abc").unwrap();
    assert!(s.format("abcde").is_err());
    // The buffer was cleared before the text was found too long.
    assert_eq!(s.as_str().unwrap(), "\0\0\0\0");
    let mut s = SString::<0>::new();
    assert!(s.format("").is_err());
}

#[test]
fn write_str_appends_at_the_first_zero() {
    let mut s = SString::<8>::new();
    s.write_str("ab").unwrap();
    s.write_str("cd").unwrap();
    assert_eq!(s.as_str().unwrap(), "abcd\0\0\0\0");
    s.write_str("").unwrap();
    assert_eq!(s.as_str().unwrap(), "abcd\0\0\0\0");
    // Too long by one: nothing is written.
    assert!(s.write_str("12345").is_err());
    assert_eq!(s.as_str().unwrap(), "abcd\0\0\0\0");
    s.write_str("1234").unwrap();
    assert_eq!(s.as_str().unwrap(), "abcd1234");
    // No zero is left: even the empty text is refused.
    assert!(s.write_str("").is_err());
    assert_eq!(s.as_str().unwrap(), "abcd1234");
}

#[test]
fn write_str_writes_over_what_lies_behind_a_zero() {
    let mut s = SString::<6>::new();
    s.format("a\0bcd").unwrap();
    assert_eq!(s.as_str().unwrap(), "a\0bcd\0");
    s.write_str("XY").unwrap();
    assert_eq!(s.as_str().unwrap(), "aXYcd\0");
    assert_eq!(juno::hash::Hash::hash(&s), djb2_hash(b"aXYcd"));
}

#[test]
fn as_str_refuses_bytes_that_are_not_utf8() {
    let mut s = SString::<3>::new();
    // A zero and the two bytes of one character.
    s.format("\0\u{e9}").unwrap();
    assert_eq!(s.as_str().unwrap(), "\0\u{e9}");
    // Two bytes over the zero and over the first byte of the character.
    s.write_str("ab").unwrap();
    assert!(s.as_str().is_err());
}

#[test]
fn sformat_holds_the_text() {
    let s = sformat::<16>("Map is full");
    assert_eq!(s.as_str().unwrap(), "Map is full\0\0\0\0\0");
}
