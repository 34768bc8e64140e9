use rusty_malloc::header::Header;

#[test]
fn header_test_2() {
    let h = Header::new_unchecked(20, true);

    assert!(h.is_tagged());
    assert_eq!(h.content_size(), 20);
    assert_eq!(h.__content_size, 21);

    let h = h.untagged();
    assert_eq!(h.content_size(), 20);
    assert_eq!(h.content_size(), h.__content_size);
}

#[test]
fn header_test_3() {
    let h = Header::new_unchecked(20, false);

    assert!(!h.is_tagged());
    assert_eq!(h.content_size(), 20);
    assert_eq!(h.content_size(), h.__content_size);

    let h = h.tagged();
    assert_eq!(h.content_size(), 20);
    assert_eq!(h.__content_size, 21);
}

#[test]
fn header_test_4() {
    let h = Header::new_unchecked(20, false);

    assert_eq!(h.untagged(), h);
    assert_eq!(h.tagged().untagged(), h);
}

#[test]
fn header_test_5() {
    let h = Header::new_unchecked(20, true);

    assert_eq!(h.tagged(), h);
    assert_eq!(h.untagged().tagged(), h);
}
