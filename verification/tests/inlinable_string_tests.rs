use inlinable_string::InlinableString;
use inlinable_string::RangeBound;
use inlinable_string::StringExt;
use inlinable_string::INLINE_STRING_CAPACITY;
use std::cmp::Ordering;

const LONG_STR: &str = "this is a really long string that is much larger than
                    INLINE_STRING_CAPACITY and so cannot be stored inline.";

#[test]
fn test_long_string() {
    // If this fails, increase the size of the long string.
    assert!(LONG_STR.len() > INLINE_STRING_CAPACITY);
}

#[test]
fn test_size() {
    assert_eq!(std::mem::size_of::<InlinableString>(), 4 * std::mem::size_of::<usize>());
}

// First, specifically test operations that overflow the inline capacity and
// require promoting the string to heap allocation.

#[test]
fn lib_test_push_str() {
    let mut s = InlinableString::new();
    s.push_str("small");
    assert_eq!(s.as_str(), "small");

    s.push_str(LONG_STR);
    assert_eq!(s.as_str(), String::from("small") + LONG_STR);
}

#[test]
fn lib_test_push() {
    let mut s = InlinableString::new();

    for _ in 0..INLINE_STRING_CAPACITY {
        s.push('a');
    }
    s.push('a');

    let expected: String = (0..INLINE_STRING_CAPACITY + 1).map(|_| 'a').collect();
    assert_eq!(s.as_str(), expected);
}

#[test]
fn lib_test_insert() {
    let mut s = InlinableString::new();

    for _ in 0..INLINE_STRING_CAPACITY {
        s.insert(0, 'a');
    }
    s.insert(0, 'a');

    let expected: String = (0..INLINE_STRING_CAPACITY + 1).map(|_| 'a').collect();
    assert_eq!(s.as_str(), expected);
}

#[test]
fn test_insert_str() {
    let mut s = InlinableString::new();

    for _ in 0..(INLINE_STRING_CAPACITY / 3) {
        s.insert_str(0, "foo");
    }
    s.insert_str(0, "foo");

    let expected: String = (0..(INLINE_STRING_CAPACITY / 3) + 1).map(|_| "foo").collect();
    assert_eq!(s.as_str(), expected);
}

#[test]
fn test_replace_range() {
    let mut s = InlinableString::from("smol str");
    assert!(matches!(&s, InlinableString::Inline(_)));

    s.replace_range(RangeBound::Included(1), RangeBound::Excluded(7), LONG_STR);
    assert_eq!(s.as_str(), ["s", LONG_STR, "r"].concat());
    assert!(matches!(&s, InlinableString::Heap(_)));
}

#[test]
fn test_replace_range_stays_inline() {
    let mut s = InlinableString::from("smol str");
    s.replace_range(RangeBound::Included(1), RangeBound::Excluded(4), "mall");
    assert_eq!(s.as_str(), "small str");
    assert!(matches!(&s, InlinableString::Inline(_)));
}

// Next, some general sanity tests.

#[test]
fn test_split_off() {
    // This checks the heap-to-(heap, inline) case of the function: the
    // right-hand part fits inline, so it is demoted, while the left part
    // stays on the heap.

    let mut inlinable = InlinableString::from(LONG_STR);
    let len = LONG_STR.len();
    assert!(len > INLINE_STRING_CAPACITY);

    let at = len - 7;
    let right_part = inlinable.split_off(at);
    assert_eq!(inlinable.as_str(), &LONG_STR[..at]);
    assert_eq!(right_part.as_str(), &LONG_STR[at..]);
    assert!(matches!(inlinable, InlinableString::Heap(_)));
    assert!(matches!(right_part, InlinableString::Inline(_)));
}

#[test]
fn test_split_off_heap_len_eight() {
    // A heap-resident value of length 8: split so that the right part (7
    // bytes) fits inline.
    let mut s = InlinableString::from(LONG_STR);
    s.truncate(8);
    assert!(matches!(&s, InlinableString::Heap(_)));
    assert_eq!(s.len(), 8);

    let original = s.as_str().to_string();
    let right = s.split_off(1);
    assert!(matches!(&s, InlinableString::Heap(_)));
    assert!(matches!(&right, InlinableString::Inline(_)));
    assert_eq!(format!("{}{}", s.as_str(), right.as_str()), original);
}

#[test]
fn test_split_off_inverse() {
    let cases: [(&str, usize); 4] = [("Hello, World!", 7), ("h\u{e9}llo", 3), (LONG_STR, 40), ("", 0)];
    for (text, at) in cases {
        let s = InlinableString::from(text);
        let mut a = s.clone();
        let b = a.split_off(at);
        assert_eq!(format!("{}{}", a.as_str(), b.as_str()), s.as_str());
    }
}

#[test]
fn test_new() {
    let s = <InlinableString as StringExt>::new();
    assert!(StringExt::is_empty(&s));
}

#[test]
fn test_with_capacity() {
    let s = <InlinableString as StringExt>::with_capacity(10);
    assert!(StringExt::capacity(&s) >= 10);
    assert!(matches!(&s, InlinableString::Inline(_)));

    let big = <InlinableString as StringExt>::with_capacity(100);
    assert!(matches!(&big, InlinableString::Heap(_)));
}

#[test]
fn test_from_utf8() {
    let s = <InlinableString as StringExt>::from_utf8(vec![104, 101, 108, 108, 111]);
    assert_eq!(s.unwrap().as_str(), "hello");
}

#[test]
fn test_from_utf8_invalid() {
    let s = <InlinableString as StringExt>::from_utf8(vec![240, 144, 128]);
    let err = s.err().unwrap();
    assert_eq!(err.into_bytes(), [240, 144, 128]);
}

#[test]
fn test_from_utf16() {
    let v = &mut [0xD834, 0xDD1E, 0x006d, 0x0075, 0x0073, 0x0069, 0x0063];
    let s = <InlinableString as StringExt>::from_utf16(v);
    assert_eq!(s.unwrap().as_str(), "\u{1d11e}music");
}

#[test]
fn test_from_utf16_invalid() {
    // An unpaired high surrogate makes the units malformed.
    let v = &mut [0xD834, 0xDD1E, 0x006d, 0x0075, 0xD800, 0x0069, 0x0063];
    assert!(<InlinableString as StringExt>::from_utf16(v).is_err());
}

#[test]
fn test_from_utf16_lossy() {
    let input = b"Hello \xF0\x90\x80World";
    let output = <InlinableString as StringExt>::from_utf8_lossy(input);
    assert_eq!(output.as_str(), "Hello \u{FFFD}World");
}

#[test]
fn test_utf16_lossy_replacement() {
    let v = &[
        0xD834, 0xDD1E, 0x006d, 0x0075, 0x0073, 0xDD1E, 0x0069, 0x0063, 0xD834,
    ];
    let s = <InlinableString as StringExt>::from_utf16_lossy(v);
    assert_eq!(s.as_str(), "\u{1d11e}mus\u{FFFD}ic\u{FFFD}");
}

#[test]
fn test_into_bytes() {
    let s = InlinableString::from("hello");
    let bytes = StringExt::into_bytes(s);
    assert_eq!(bytes, [104, 101, 108, 108, 111]);
}

#[test]
fn test_capacity() {
    let s = <InlinableString as StringExt>::with_capacity(100);
    assert!(InlinableString::capacity(&s) >= 100);
}

#[test]
fn test_reserve() {
    let mut s = <InlinableString as StringExt>::new();
    StringExt::reserve(&mut s, 100);
    assert!(InlinableString::capacity(&s) >= 100);
}

#[test]
fn test_reserve_exact() {
    let mut s = <InlinableString as StringExt>::new();
    StringExt::reserve_exact(&mut s, 100);
    assert!(InlinableString::capacity(&s) >= 100);
}

#[test]
fn test_shrink_to_fit() {
    let mut s = <InlinableString as StringExt>::with_capacity(100);
    StringExt::push_str(&mut s, "foo");
    StringExt::shrink_to_fit(&mut s);
    assert_eq!(InlinableString::capacity(&s), INLINE_STRING_CAPACITY);
}

#[test]
fn test_shrink_idempotent() {
    // Shrinking twice reports the same capacity as shrinking once, both for
    // content that fits inline and for content that does not.
    let mut short = <InlinableString as StringExt>::with_capacity(100);
    short.push_str("foo");
    short.shrink_to_fit();
    let cap_once = short.capacity();
    short.shrink_to_fit();
    assert_eq!(short.capacity(), cap_once);

    let mut long = <InlinableString as StringExt>::with_capacity(400);
    long.push_str(LONG_STR);
    long.shrink_to_fit();
    let cap_once = long.capacity();
    long.shrink_to_fit();
    assert_eq!(long.capacity(), cap_once);
}

#[test]
fn test_truncate() {
    let mut s = InlinableString::from("foo");
    StringExt::truncate(&mut s, 1);
    assert_eq!(s.as_str(), "f");
}

#[test]
fn test_pop() {
    let mut s = InlinableString::from("foo");
    assert_eq!(StringExt::pop(&mut s), Some('o'));
    assert_eq!(StringExt::pop(&mut s), Some('o'));
    assert_eq!(StringExt::pop(&mut s), Some('f'));
    assert_eq!(StringExt::pop(&mut s), None);
}

#[test]
fn test_ord() {
    let s1 = InlinableString::from("foo");
    let s2 = InlinableString::from("bar");
    assert_eq!(Ord::cmp(s1.as_str(), s2.as_str()), Ordering::Greater);
    assert_eq!(Ord::cmp(s1.as_str(), s1.as_str()), Ordering::Equal);
}

#[test]
fn test_display() {
    let short = InlinableString::from("he");
    let long = InlinableString::from("hello world");
    assert_eq!(format!("{}", short.as_str()), "he".to_string());
    assert_eq!(format!("{}", long.as_str()), "hello world".to_string());
}

#[test]
fn test_debug() {
    let short = InlinableString::from("he");
    let long = InlinableString::from("hello world hello world hello world");
    assert_eq!(format!("{:?}", short.as_str()), "\"he\"");
    assert_eq!(
        format!("{:?}", long.as_str()),
        "\"hello world hello world hello world\""
    );
}

#[test]
fn test_promotion_threshold() {
    // Building by repeated single-character pushes leaves inline storage
    // exactly once, at the push whose resulting length first exceeds the
    // capacity, and never before or again.
    let mut s = InlinableString::new();
    let mut transitions = 0;
    let mut was_inline = matches!(&s, InlinableString::Inline(_));
    assert!(was_inline);
    for k in 1..(2 * INLINE_STRING_CAPACITY) {
        s.push('a');
        let now_inline = matches!(&s, InlinableString::Inline(_));
        if now_inline != was_inline {
            transitions += 1;
            assert_eq!(k, INLINE_STRING_CAPACITY + 1);
        }
        assert_eq!(now_inline, k <= INLINE_STRING_CAPACITY);
        was_inline = now_inline;
    }
    assert_eq!(transitions, 1);
}

#[test]
fn test_push_str_content_preserved() {
    // Content equals the concatenation regardless of the representation the
    // result lands in.
    let cases: [(&str, &str); 3] = [("abc", "def"), ("abc", LONG_STR), ("", "x")];
    for (a, b) in cases {
        let mut s = InlinableString::from(a);
        s.push_str(b);
        assert_eq!(s.as_bytes(), [a.as_bytes(), b.as_bytes()].concat());
    }
}

#[test]
fn test_remove_range() {
    let mut s = InlinableString::from("foobar");
    s.remove_range(RangeBound::Included(1), RangeBound::Excluded(3));
    assert_eq!(s.as_str(), "fbar");

    s.remove_range(RangeBound::Unbounded, RangeBound::Unbounded);
    assert_eq!(s.as_str(), "");
}

#[test]
fn test_remove() {
    let mut s = InlinableString::from(LONG_STR);
    assert!(matches!(&s, InlinableString::Heap(_)));
    assert_eq!(s.remove(0), 't');
    assert_eq!(s.remove(0), 'h');
    assert_eq!(s.as_str(), &LONG_STR[2..]);
}

#[test]
fn test_retain() {
    let mut s = InlinableString::from("f_o_ob_ar");
    s.retain(|c| c != '_');
    assert_eq!(s.as_str(), "foobar");

    let mut heap = InlinableString::from(LONG_STR);
    heap.retain(|c| c != ' ');
    let expected: String = LONG_STR.chars().filter(|c| *c != ' ').collect();
    assert_eq!(heap.as_str(), expected);
}

#[test]
fn test_clear() {
    let mut s = InlinableString::from("foo");
    StringExt::clear(&mut s);
    assert!(StringExt::is_empty(&s));

    let mut heap = InlinableString::from(LONG_STR);
    StringExt::clear(&mut heap);
    assert!(StringExt::is_empty(&heap));
}

#[test]
fn test_utf8_invariant_preserved() {
    // Every operation leaves the content as valid UTF-8, whichever
    // representation it lands in.
    let mut s = InlinableString::from("a\u{3b1}b\u{1d11e}c");
    s.push('\u{e9}');
    s.insert(1, 'x');
    let _ = s.remove(0);
    s.push_str(LONG_STR);
    s.truncate(20);
    let tail = s.split_off(4);
    assert!(std::str::from_utf8(s.as_bytes()).is_ok());
    assert!(std::str::from_utf8(tail.as_bytes()).is_ok());
}

#[test]
fn test_heap_pop_multibyte() {
    let mut s = InlinableString::from(LONG_STR);
    s.push('\u{1d11e}');
    assert_eq!(s.pop(), Some('\u{1d11e}'));
    assert_eq!(s.as_str(), LONG_STR);
}

#[test]
fn test_reserve_keeps_inline_when_it_fits() {
    let mut s = InlinableString::from("abc");
    s.reserve(3);
    assert!(matches!(&s, InlinableString::Inline(_)));
    s.reserve(INLINE_STRING_CAPACITY);
    assert!(matches!(&s, InlinableString::Heap(_)));
    assert_eq!(s.as_str(), "abc");
}

#[test]
fn test_split_off_at_ends() {
    let mut s = InlinableString::from(LONG_STR);
    let all = s.split_off(0);
    assert_eq!(s.as_str(), "");
    assert_eq!(all.as_str(), LONG_STR);

    let mut t = InlinableString::from(LONG_STR);
    let none = t.split_off(LONG_STR.len());
    assert_eq!(t.as_str(), LONG_STR);
    assert_eq!(none.as_str(), "");
    assert!(matches!(none, InlinableString::Inline(_)));
}
