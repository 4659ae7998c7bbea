use inlinable_string::InlineString;
use inlinable_string::RangeBound;
use inlinable_string::NotEnoughCapacity;
use inlinable_string::INLINE_STRING_CAPACITY;

#[test]
fn inline_string_test_push_str() {
    let mut s = InlineString::new();
    assert!(s.push_str("small").is_ok());
    assert_eq!(s.as_bytes(), "small".as_bytes());

    let long_str = "this is a really long string that is much larger than
                    INLINE_STRING_CAPACITY and so cannot be stored inline.";
    assert_eq!(s.push_str(long_str), Err(NotEnoughCapacity));
    assert_eq!(s.as_bytes(), "small".as_bytes());
}

#[test]
fn inline_string_test_push() {
    let mut s = InlineString::new();

    for _ in 0..INLINE_STRING_CAPACITY {
        assert!(s.push('a').is_ok());
    }

    assert_eq!(s.push('a'), Err(NotEnoughCapacity));
}

#[test]
fn inline_string_test_insert() {
    let mut s = InlineString::new();

    for _ in 0..INLINE_STRING_CAPACITY {
        assert!(s.insert(0, 'a').is_ok());
    }

    assert_eq!(s.insert(0, 'a'), Err(NotEnoughCapacity));
}

#[test]
fn test_hi_world_scenario() {
    let mut s = InlineString::new();
    assert!(s.push_str("hi world").is_ok());
    assert_eq!(s.as_bytes(), "hi world".as_bytes());

    let long_str = "a really long string that is much bigger than `INLINE_STRING_CAPACITY`";
    assert!(long_str.len() > INLINE_STRING_CAPACITY);
    assert_eq!(s.push_str(long_str), Err(NotEnoughCapacity));
    assert_eq!(s.as_bytes(), "hi world".as_bytes());
}

#[test]
fn test_try_from_remove_scenario() {
    let mut s = InlineString::try_from("foo").unwrap();
    assert_eq!(s.remove(0), 'f');
    assert_eq!(s.remove(1), 'o');
    assert_eq!(s.remove(0), 'o');
    assert!(s.is_empty());
}

#[test]
fn test_try_from_round_trip() {
    let cases = ["", "a", "hello", "h\u{e9}llo \u{1d11e}", "\u{3b1}\u{3b2}\u{3b3}"];
    for case in cases {
        let s = InlineString::try_from(case).unwrap();
        assert_eq!(s.as_bytes(), case.as_bytes());
        assert_eq!(s.len(), case.len());
    }
}

#[test]
fn test_try_from_too_long() {
    let long = "a string that is considerably longer than the inline capacity";
    assert!(long.len() > INLINE_STRING_CAPACITY);
    assert!(matches!(InlineString::try_from(long), Err(NotEnoughCapacity)));
}

#[test]
fn test_inline_into_bytes() {
    let s = InlineString::try_from("hello").unwrap();
    let bytes = s.into_bytes();
    assert_eq!(&bytes[0..5], [104, 101, 108, 108, 111]);
    for k in 5..INLINE_STRING_CAPACITY {
        assert_eq!(bytes[k], 0);
    }
}

#[test]
fn test_inline_truncate() {
    let mut s = InlineString::try_from("hello").unwrap();
    s.truncate(2);
    assert_eq!(s.as_bytes(), "he".as_bytes());
    s.truncate(10);
    assert_eq!(s.as_bytes(), "he".as_bytes());
    s.truncate(0);
    assert!(s.is_empty());
}

#[test]
fn test_inline_pop() {
    let mut s = InlineString::try_from("fo\u{1d11e}").unwrap();
    assert_eq!(s.pop(), Some('\u{1d11e}'));
    assert_eq!(s.pop(), Some('o'));
    assert_eq!(s.pop(), Some('f'));
    assert_eq!(s.pop(), None);
}

#[test]
fn test_inline_remove_multibyte() {
    // "αβγ" is three two-byte characters.
    let mut s = InlineString::try_from("\u{3b1}\u{3b2}\u{3b3}").unwrap();
    assert_eq!(s.remove(2), '\u{3b2}');
    assert_eq!(s.as_bytes(), "\u{3b1}\u{3b3}".as_bytes());
}

#[test]
fn test_inline_remove_range() {
    let mut s = InlineString::try_from("foobar").unwrap();
    s.remove_range(RangeBound::Included(1), RangeBound::Excluded(3));
    assert_eq!(s.as_bytes(), "fbar".as_bytes());

    s.remove_range(RangeBound::Unbounded, RangeBound::Unbounded);
    assert_eq!(s.as_bytes(), "".as_bytes());
}

#[test]
fn test_inline_insert_str() {
    let mut s = InlineString::try_from("foo").unwrap();
    assert!(s.insert_str(2, "bar").is_ok());
    assert_eq!(s.as_bytes(), "fobaro".as_bytes());
}

#[test]
fn test_inline_split_off() {
    let mut hello = InlineString::try_from("Hello, World!").unwrap();
    let world = hello.split_off(7);
    assert_eq!(hello.as_bytes(), "Hello, ".as_bytes());
    assert_eq!(world.as_bytes(), "World!".as_bytes());
}

#[test]
fn test_inline_retain() {
    let mut s = InlineString::try_from("f_o_ob_ar").unwrap();
    s.retain(|c| c != '_');
    assert_eq!(s.as_bytes(), "foobar".as_bytes());

    let mut t = InlineString::try_from("abcde").unwrap();
    t.retain(|_| true);
    assert_eq!(t.as_bytes(), "abcde".as_bytes());
    t.retain(|_| false);
    assert!(t.is_empty());
}

#[test]
fn test_inline_clear() {
    let mut s = InlineString::try_from("foo").unwrap();
    s.clear();
    assert!(s.is_empty());
    assert_eq!(s.len(), 0);
}

#[test]
fn test_inline_utf8_preserved() {
    // Every operation leaves the content as valid UTF-8.
    let mut s = InlineString::try_from("a\u{3b1}b\u{1d11e}c").unwrap();
    let _ = s.push('\u{e9}');
    let _ = s.insert(1, 'x');
    let _ = s.remove(0);
    s.truncate(s.len());
    let tail = s.split_off(0);
    assert!(std::str::from_utf8(s.as_bytes()).is_ok());
    assert!(std::str::from_utf8(tail.as_bytes()).is_ok());
}

#[test]
fn test_inline_fill_to_capacity() {
    let mut s = InlineString::new();
    let exact: String = (0..INLINE_STRING_CAPACITY).map(|_| 'x').collect();
    assert!(s.push_str(&exact).is_ok());
    assert_eq!(s.len(), INLINE_STRING_CAPACITY);
    assert!(matches!(s.push_str("y"), Err(NotEnoughCapacity)));
    assert!(matches!(s.push('y'), Err(NotEnoughCapacity)));
    assert_eq!(s.as_bytes(), exact.as_bytes());
}

#[test]
fn test_inline_remove_range_excluded_start() {
    let mut s = InlineString::try_from("foobar").unwrap();
    s.remove_range(RangeBound::Excluded(0), RangeBound::Excluded(3));
    assert_eq!(s.as_bytes(), "fbar".as_bytes());
}

#[test]
fn test_inline_split_at_ends() {
    let mut s = InlineString::try_from("abc").unwrap();
    let all = s.split_off(0);
    assert!(s.is_empty());
    assert_eq!(all.as_bytes(), "abc".as_bytes());

    let mut t = InlineString::try_from("abc").unwrap();
    let none = t.split_off(3);
    assert_eq!(t.as_bytes(), "abc".as_bytes());
    assert!(none.is_empty());
}
