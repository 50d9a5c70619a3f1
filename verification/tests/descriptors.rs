use cbor_event::{LenSz, StringLenSz, Sz};
use sd_cwt::serialization::{LenEncoding, StringEncoding};

#[test]
fn a_length_in_its_shortest_form_needs_no_record() {
    assert!(matches!(LenEncoding::from(LenSz::Len(5, Sz::Inline)), LenEncoding::Canonical));
    assert!(matches!(LenEncoding::from(LenSz::Len(24, Sz::One)), LenEncoding::Canonical));
    assert!(matches!(LenEncoding::from(LenSz::Len(256, Sz::Two)), LenEncoding::Canonical));
}

#[test]
fn a_length_in_a_wider_form_is_recorded() {
    assert!(matches!(LenEncoding::from(LenSz::Len(5, Sz::One)), LenEncoding::Definite(Sz::One)));
    assert!(matches!(
        LenEncoding::from(LenSz::Len(24, Sz::Eight)),
        LenEncoding::Definite(Sz::Eight)
    ));
    assert!(matches!(LenEncoding::from(LenSz::Indefinite), LenEncoding::Indefinite));
}

#[test]
fn the_layout_of_a_string_is_recorded_as_it_was_read() {
    assert!(matches!(
        StringEncoding::from(StringLenSz::Len(Sz::Inline)),
        StringEncoding::Definite(Sz::Inline)
    ));
    match StringEncoding::from(StringLenSz::Indefinite(vec![(2, Sz::Inline), (3, Sz::One)])) {
        StringEncoding::Indefinite(chunks) => {
            assert_eq!(chunks.len(), 2);
            assert_eq!(chunks[0].0, 2);
            assert!(matches!(chunks[0].1, Sz::Inline));
            assert_eq!(chunks[1].0, 3);
            assert!(matches!(chunks[1].1, Sz::One));
        }
        _ => panic!("the chunks are lost"),
    }
}
