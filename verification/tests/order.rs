use cbor_event::Sz;
use sd_cwt::serialization::StringEncoding;
use sd_cwt::{Int, Keyy};
use std::cmp::Ordering;

#[test]
fn integers_are_equal_whatever_their_width() {
    let wide = Int::Uint { value: 5, encoding: Some(Sz::Eight) };
    assert!(wide == Int::new_uint(5));
    assert!(wide != Int::new_uint(6));
    assert!(Int::new_uint(0) != Int::new_nint(0));
    assert!(Int::Nint { value: 9, encoding: Some(Sz::Two) } == Int::new_nint(9));
}

#[test]
fn integers_are_ordered_as_numbers() {
    // minus one is below zero
    assert!(Int::new_nint(0) < Int::new_uint(0));
    // minus five is below minus one
    assert!(Int::new_nint(4) < Int::new_nint(0));
    assert!(Int::new_uint(3) < Int::new_uint(7));
    assert!(Int::new_uint(7) > Int::new_nint(100));
    assert_eq!(
        Int::new_uint(7).partial_cmp(&Int::Uint { value: 7, encoding: Some(Sz::Four) }),
        Some(Ordering::Equal)
    );
    assert_eq!(Int::new_nint(4).partial_cmp(&Int::new_nint(0)), Some(Ordering::Less));
    assert_eq!(Int::new_nint(0).partial_cmp(&Int::new_nint(4)), Some(Ordering::Greater));
    assert_eq!(Int::new_uint(u64::MAX).partial_cmp(&Int::new_nint(u64::MAX)), Some(Ordering::Greater));
}

#[test]
fn keys_are_equal_whatever_the_way_they_are_written() {
    let chunked = Keyy::Text {
        text: String::from("kid"),
        text_encoding: StringEncoding::Definite(Sz::Two),
    };
    assert!(chunked == Keyy::new_text(String::from("kid")));
    assert!(chunked != Keyy::new_text(String::from("kie")));
    assert!(Keyy::new_int(Int::new_uint(1)) != Keyy::new_text(String::from("1")));
    assert!(
        Keyy::new_int(Int::Uint { value: 1, encoding: Some(Sz::One) })
            == Keyy::new_int(Int::new_uint(1))
    );
}

#[test]
fn numbers_come_before_texts_and_texts_go_by_their_bytes() {
    let text = |s: &str| Keyy::new_text(String::from(s));
    assert!(Keyy::new_int(Int::new_uint(u64::MAX)) < text(""));
    assert!(text("") > Keyy::new_int(Int::new_nint(3)));
    assert!(Keyy::new_int(Int::new_nint(3)) < Keyy::new_int(Int::new_uint(0)));
    assert!(text("a") < text("b"));
    assert!(text("a") < text("ab"));
    assert!(text("Z") < text("a"));
    assert!(text("z") < text("\u{e9}"));
    assert_eq!(text("same").partial_cmp(&text("same")), Some(Ordering::Equal));
    assert_eq!(text("b").partial_cmp(&text("a")), Some(Ordering::Greater));
    assert_eq!(text("ab").partial_cmp(&text("a")), Some(Ordering::Greater));
}
