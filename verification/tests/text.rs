use patch_hub::text::{bytes_less, text_less};

#[test]
fn text_order_is_byte_order() {
    assert!(text_less("2024-01-10T00:00:00Z", "2024-01-9"));
    assert!(text_less("ab", "abc"));
    assert!(!text_less("abc", "ab"));
    assert!(!text_less("same", "same"));
    assert!(text_less("", "a"));
    assert!(!text_less("", ""));
    assert!(text_less("z", "\u{e9}"));
    assert_eq!(text_less("Z", "a"), "Z" < "a");
}

#[test]
fn byte_order_on_slices() {
    assert!(bytes_less(&[1, 2], &[1, 3]));
    assert!(!bytes_less(&[2], &[1, 9, 9]));
    assert!(bytes_less(&[], &[0]));
    assert!(!bytes_less(&[0], &[]));
}
