use herdr_hint::text::{byte_len, push_padded, str_or_empty};

#[test]
fn push_padded_pads_to_width_in_characters() {
    let mut s = String::from(">");
    push_padded(&mut s, "ab", 5);
    assert_eq!(s, ">ab   ");
    let mut t = String::new();
    push_padded(&mut t, "éé", 3);
    assert_eq!(t, "éé ");
}

#[test]
fn push_padded_never_truncates() {
    let mut s = String::new();
    push_padded(&mut s, "abcdef", 3);
    assert_eq!(s, "abcdef");
}

#[test]
fn byte_len_counts_utf8_bytes() {
    assert_eq!(byte_len(""), 0);
    assert_eq!(byte_len("abc"), 3);
    assert_eq!(byte_len("é"), 2);
    assert_eq!(byte_len("日"), 3);
}

#[test]
fn str_or_empty_of_options() {
    assert_eq!(str_or_empty(&Some("t".to_string())), "t");
    assert_eq!(str_or_empty(&None), "");
}
