use sd_cwt::cbor_encodings::AnyyEncoding;
use sd_cwt::error::{DeserializeError, DeserializeFailure, Key};
use sd_cwt::serialization::{LenEncoding, StringEncoding};
use sd_cwt::{
    Anyy, Deserialize, Int, IntOrText, Keyy, OrderedHashMap, Reader, Salted, SaltedClaimItem,
    SaltedElementItem, SdCwt, SdPayload, SdProtected, ToCBORBytes, Unprotected,
};

fn salt() -> Vec<u8> {
    (0u8..16).collect()
}

fn salt_item() -> Vec<u8> {
    let mut bytes = vec![0x50];
    bytes.extend(salt());
    bytes
}

fn custom_key() -> Vec<u8> {
    vec![0x66, b'c', b'u', b's', b't', b'o', b'm']
}

fn failure_of<T>(r: Result<T, DeserializeError>) -> (Option<String>, DeserializeFailure) {
    match r {
        Ok(_) => panic!("decoding succeeded"),
        Err(e) => (e.location, e.failure),
    }
}

#[test]
fn int_uses_the_shortest_width_of_each_range() {
    assert_eq!(Int::new_uint(0).to_cbor_bytes(), vec![0x00]);
    assert_eq!(Int::new_uint(23).to_cbor_bytes(), vec![0x17]);
    assert_eq!(Int::new_uint(24).to_cbor_bytes(), vec![0x18, 24]);
    assert_eq!(Int::new_uint(255).to_cbor_bytes(), vec![0x18, 0xff]);
    assert_eq!(Int::new_uint(256).to_cbor_bytes(), vec![0x19, 0x01, 0x00]);
    assert_eq!(Int::new_uint(65536).to_cbor_bytes(), vec![0x1a, 0x00, 0x01, 0x00, 0x00]);
    assert_eq!(
        Int::new_uint(1_700_000_000).to_cbor_bytes(),
        vec![0x1a, 0x65, 0x53, 0xf1, 0x00]
    );
    assert_eq!(
        Int::new_uint(u64::MAX).to_cbor_bytes(),
        vec![0x1b, 0xff, 0xff, 0xff, 0xff, 0xff, 0xff, 0xff, 0xff]
    );
    assert_eq!(Int::new_nint(4).to_cbor_bytes(), vec![0x24]);
    assert_eq!(Int::new_nint(499).to_cbor_bytes(), vec![0x39, 0x01, 0xf3]);
    assert_eq!(
        Int::new_nint(u64::MAX).to_cbor_bytes(),
        vec![0x3b, 0xff, 0xff, 0xff, 0xff, 0xff, 0xff, 0xff, 0xff]
    );
}

#[test]
fn int_decodes_with_its_width() {
    match Int::from_cbor_bytes(&[0x19, 0x00, 0x05]).unwrap() {
        Int::Uint { value, encoding } => {
            assert_eq!(value, 5);
            assert_eq!(encoding, Some(cbor_event::Sz::Two));
        }
        Int::Nint { .. } => panic!("an unsigned integer was written"),
    }
    match Int::from_cbor_bytes(&[0x38, 0x63]).unwrap() {
        Int::Nint { value, encoding } => {
            assert_eq!(value, 99);
            assert_eq!(encoding, Some(cbor_event::Sz::One));
        }
        Int::Uint { .. } => panic!("a negative integer was written"),
    }
    match Int::from_cbor_bytes(&[0x3b, 0xff, 0xff, 0xff, 0xff, 0xff, 0xff, 0xff, 0xff]).unwrap() {
        Int::Nint { value, .. } => assert_eq!(value, u64::MAX),
        Int::Uint { .. } => panic!("a negative integer was written"),
    }
}

#[test]
fn int_keeps_a_wide_head() {
    let bytes = vec![0x1b, 0, 0, 0, 0, 0, 0, 0, 7];
    let int = Int::from_cbor_bytes(&bytes).unwrap();
    assert_eq!(int.to_cbor_bytes(), bytes);
    let wide = Int::Uint { value: 7, encoding: Some(cbor_event::Sz::Two) };
    assert_eq!(wide.to_cbor_bytes(), vec![0x19, 0x00, 0x07]);
}

#[test]
fn int_falls_back_to_the_shortest_width_that_fits() {
    let tight = Int::Uint { value: 300, encoding: Some(cbor_event::Sz::One) };
    assert_eq!(tight.to_cbor_bytes(), vec![0x19, 0x01, 0x2c]);
    let inline = Int::Nint { value: 24, encoding: Some(cbor_event::Sz::Inline) };
    assert_eq!(inline.to_cbor_bytes(), vec![0x38, 24]);
}

#[test]
fn int_refuses_other_major_types() {
    let (location, failure) = failure_of(Int::from_cbor_bytes(&[0x61, b'a']));
    assert_eq!(location.as_deref(), Some("Int"));
    assert!(matches!(failure, DeserializeFailure::NoVariantMatched));
    let (location, failure) = failure_of(Int::from_cbor_bytes(&[]));
    assert_eq!(location.as_deref(), Some("Int"));
    assert!(matches!(failure, DeserializeFailure::CBOR(_)));
    let (_, failure) = failure_of(Int::from_cbor_bytes(&[0x19, 0x01]));
    assert!(matches!(failure, DeserializeFailure::CBOR(_)));
    let (_, failure) = failure_of(Int::from_cbor_bytes(&[0x1c]));
    assert!(matches!(failure, DeserializeFailure::CBOR(_)));
}

#[test]
fn int_reads_and_writes_numerals() {
    let five = Int::parse_numeral("5").unwrap();
    assert!(matches!(five, Int::Uint { value: 5, encoding: None }));
    let minus_five: Int = "-5".parse().unwrap();
    assert!(matches!(minus_five, Int::Nint { value: 4, encoding: None }));
    assert_eq!(minus_five.to_string(), "-5");
    assert_eq!(Int::new_uint(42).to_string(), "42");
    assert_eq!(Int::new_nint(u64::MAX).to_string(), "-18446744073709551616");
    assert_eq!(Int::new_nint(u64::MAX).to_i128(), -18446744073709551616i128);
    assert!(matches!(
        Int::parse_numeral("18446744073709551616"),
        Err(sd_cwt::integer::IntError::Bounds(_))
    ));
    assert!(matches!(
        Int::parse_numeral("-18446744073709551617"),
        Err(sd_cwt::integer::IntError::Bounds(_))
    ));
    assert!(matches!(
        Int::parse_numeral("five"),
        Err(sd_cwt::integer::IntError::Parsing(_))
    ));
    assert!(Int::try_from_i128(-18446744073709551616i128).is_ok());
    assert!(Int::try_from_i128(18446744073709551615i128).is_ok());
}

#[test]
fn anyy_is_an_array_of_zero() {
    assert_eq!(Anyy::new().to_cbor_bytes(), vec![0x81, 0x00]);
    let decoded = Anyy::from_cbor_bytes(&[0x81, 0x00]).unwrap();
    let encodings = decoded.encodings.unwrap();
    assert_eq!(encodings.len_encoding, LenEncoding::Canonical);
    assert_eq!(encodings.index_0_encoding, Some(cbor_event::Sz::Inline));
}

#[test]
fn anyy_keeps_an_indefinite_length_and_a_wide_zero() {
    let bytes = vec![0x9f, 0x18, 0x00, 0xff];
    let decoded = Anyy::from_cbor_bytes(&bytes).unwrap();
    assert_eq!(decoded.encodings.unwrap().len_encoding, LenEncoding::Indefinite);
    assert_eq!(decoded.to_cbor_bytes(), bytes);
    let wide = vec![0x98, 0x01, 0x00];
    assert_eq!(Anyy::from_cbor_bytes(&wide).unwrap().to_cbor_bytes(), wide);
    let built = Anyy {
        encodings: Some(AnyyEncoding {
            len_encoding: LenEncoding::Indefinite,
            index_0_encoding: Some(cbor_event::Sz::Four),
        }),
    };
    assert_eq!(built.to_cbor_bytes(), vec![0x9f, 0x1a, 0, 0, 0, 0, 0xff]);
}

#[test]
fn anyy_refuses_other_values_and_lengths() {
    let (location, failure) = failure_of(Anyy::from_cbor_bytes(&[0x81, 0x01]));
    assert_eq!(location.as_deref(), Some("Anyy.index_0"));
    assert!(matches!(
        failure,
        DeserializeFailure::FixedValueMismatch { found: Key::Uint(1), expected: Key::Uint(0) }
    ));
    let (location, failure) = failure_of(Anyy::from_cbor_bytes(&[0x80]));
    assert_eq!(location, None);
    assert!(matches!(failure, DeserializeFailure::DefiniteLenMismatch(0, None)));
    let (_, failure) = failure_of(Anyy::from_cbor_bytes(&[0x82, 0x00, 0x00]));
    assert!(matches!(failure, DeserializeFailure::DefiniteLenMismatch(2, Some(1))));
    let (location, failure) = failure_of(Anyy::from_cbor_bytes(&[0x9f, 0x00, 0xf4]));
    assert_eq!(location.as_deref(), Some("Anyy"));
    assert!(matches!(failure, DeserializeFailure::EndingBreakMissing));
    let (location, failure) = failure_of(Anyy::from_cbor_bytes(&[0x9f, 0x00]));
    assert_eq!(location.as_deref(), Some("Anyy"));
    assert!(matches!(failure, DeserializeFailure::CBOR(_)));
}

#[test]
fn text_keys_round_trip() {
    let key = Keyy::new_text(String::from("héllo"));
    let bytes = key.to_cbor_bytes();
    assert_eq!(bytes, vec![0x66, b'h', 0xc3, 0xa9, b'l', b'l', b'o']);
    match Keyy::from_cbor_bytes(&bytes).unwrap() {
        Keyy::Text { text, text_encoding } => {
            assert_eq!(text, "héllo");
            assert_eq!(text_encoding, StringEncoding::Definite(cbor_event::Sz::Inline));
        }
        Keyy::Int(_) => panic!("a text was written"),
    }
}

#[test]
fn chunked_text_is_kept() {
    let bytes = vec![0x7f, 0x62, b'a', b'b', 0x78, 0x01, b'c', 0xff];
    let decoded = IntOrText::from_cbor_bytes(&bytes).unwrap();
    match &decoded {
        IntOrText::Text { text, text_encoding } => {
            assert_eq!(text, "abc");
            assert_eq!(
                *text_encoding,
                StringEncoding::Indefinite(vec![
                    (2, cbor_event::Sz::Inline),
                    (1, cbor_event::Sz::One)
                ])
            );
        }
        IntOrText::Int(_) => panic!("a text was written"),
    }
    assert_eq!(decoded.to_cbor_bytes(), bytes);
}

#[test]
fn chunks_that_do_not_add_up_cannot_be_written() {
    let text = IntOrText::Text {
        text: String::from("abc"),
        text_encoding: StringEncoding::Indefinite(vec![(2, cbor_event::Sz::Inline)]),
    };
    let mut out = Vec::new();
    assert!(text.serialize(&mut out).is_err());
    let overflowing = IntOrText::Text {
        text: String::from("abc"),
        text_encoding: StringEncoding::Indefinite(vec![
            (u64::MAX, cbor_event::Sz::Eight),
            (4, cbor_event::Sz::Inline),
        ]),
    };
    let mut out = Vec::new();
    assert!(overflowing.serialize(&mut out).is_err());
    let split = IntOrText::Text {
        text: String::from("é"),
        text_encoding: StringEncoding::Indefinite(vec![
            (1, cbor_event::Sz::Inline),
            (1, cbor_event::Sz::Inline),
        ]),
    };
    let mut out = Vec::new();
    assert!(split.serialize(&mut out).is_err());
}

#[test]
fn integers_do_not_decode_as_index_or_key() {
    let written = IntOrText::new_int(Int::new_uint(7)).to_cbor_bytes();
    assert_eq!(written, vec![0x07]);
    let (location, failure) = failure_of(IntOrText::from_cbor_bytes(&written));
    assert_eq!(location.as_deref(), Some("IntOrText.IntOrText"));
    assert!(matches!(failure, DeserializeFailure::NoVariantMatched));
    let (location, failure) = failure_of(Keyy::from_cbor_bytes(&[0x81, 0x00]));
    assert_eq!(location.as_deref(), Some("Keyy.Int"));
    assert!(matches!(failure, DeserializeFailure::NoVariantMatched));
    let (location, failure) = failure_of(Keyy::from_cbor_bytes(&[0x40]));
    assert_eq!(location.as_deref(), Some("Keyy.Keyy"));
    assert!(matches!(failure, DeserializeFailure::NoVariantMatched));
}

#[test]
fn a_text_that_is_not_utf8_is_refused() {
    let (location, failure) = failure_of(Keyy::from_cbor_bytes(&[0x62, 0xc3, 0x28]));
    assert_eq!(location.as_deref(), Some("Keyy"));
    assert!(matches!(failure, DeserializeFailure::CBOR(_)));
}

#[test]
fn a_string_longer_than_the_input_is_refused() {
    let huge = [0x5b, 0xff, 0xff, 0xff, 0xff, 0xff, 0xff, 0xff, 0xff, 0x00];
    let mut raw = Reader::new(huge.to_vec());
    assert!(raw.bytes_sz().is_err());
    assert_eq!(raw.position(), 0);
    let mut raw = Reader::new(vec![0x7f, 0x7a, 0xff, 0xff, 0xff, 0xff, b'a']);
    assert!(raw.text_sz().is_err());
    let mut raw = Reader::new(vec![0x5f, 0x42, 0x01, 0x02, 0x5b, 0x7f, 0, 0, 0, 0, 0, 0, 0]);
    assert!(raw.bytes_sz().is_err());
    let mut raw = Reader::new(vec![0x43, 0x01, 0x02]);
    assert!(raw.bytes_sz().is_err());
}

#[test]
fn reader_moves_by_what_it_reads() {
    let mut raw = Reader::new(vec![0x18, 0x2a, 0x5f, 0x41, 0x01, 0x42, 0x02, 0x03, 0xff, 0xd2, 0x9f]);
    assert_eq!(raw.cbor_type().unwrap(), cbor_event::Type::UnsignedInteger);
    assert_eq!(raw.unsigned_integer_sz().unwrap(), (42, cbor_event::Sz::One));
    assert_eq!(raw.position(), 2);
    assert!(raw.unsigned_integer_sz().is_err());
    assert_eq!(raw.position(), 2);
    let (bytes, form) = raw.bytes_sz().unwrap();
    assert_eq!(bytes, vec![1, 2, 3]);
    assert_eq!(
        form,
        cbor_event::StringLenSz::Indefinite(vec![
            (1, cbor_event::Sz::Inline),
            (2, cbor_event::Sz::Inline)
        ])
    );
    assert_eq!(raw.position(), 9);
    assert_eq!(raw.tag_sz().unwrap(), (18, cbor_event::Sz::Inline));
    assert_eq!(raw.array_sz().unwrap(), cbor_event::LenSz::Indefinite);
    assert_eq!(raw.position(), 11);
    assert!(raw.cbor_type().is_err());
    raw.seek(9);
    assert_eq!(raw.tag_sz().unwrap(), (18, cbor_event::Sz::Inline));
}

#[test]
fn salt_must_be_sixteen_bytes() {
    for len in [0usize, 15, 17, 32] {
        let (location, failure) = failure_of(SaltedElementItem::new(vec![0; len], Anyy::new()));
        assert_eq!(location, None);
        match failure {
            DeserializeFailure::RangeCheck { found, min, max } => {
                assert_eq!(found, len as isize);
                assert_eq!(min, Some(16));
                assert_eq!(max, Some(16));
            }
            other => panic!("unexpected failure {:?}", other),
        }
        let claim = SaltedClaimItem::new(
            vec![0; len],
            IntOrText::new_text(String::from("name")),
            Anyy::new(),
        );
        assert!(matches!(failure_of(claim).1, DeserializeFailure::RangeCheck { .. }));
    }
    assert!(SaltedElementItem::new(vec![0; 16], Anyy::new()).is_ok());
    assert!(
        SaltedClaimItem::new(vec![0; 16], IntOrText::new_text(String::from("name")), Anyy::new())
            .is_ok()
    );
}

#[test]
fn a_decoded_salt_must_be_sixteen_bytes() {
    for len in [15u8, 17] {
        let mut bytes = vec![0x82, 0x40 + len];
        bytes.extend(vec![0u8; len as usize]);
        bytes.extend([0x81, 0x00]);
        let (location, failure) = failure_of(SaltedElementItem::from_cbor_bytes(&bytes));
        assert_eq!(location.as_deref(), Some("SaltedElementItem.salt"));
        match failure {
            DeserializeFailure::RangeCheck { found, .. } => assert_eq!(found, len as isize),
            other => panic!("unexpected failure {:?}", other),
        }
        let mut bytes = vec![0x83, 0x40 + len];
        bytes.extend(vec![0u8; len as usize]);
        bytes.extend([0x61, b'k', 0x81, 0x00]);
        let (location, failure) = failure_of(SaltedClaimItem::from_cbor_bytes(&bytes));
        assert_eq!(location.as_deref(), Some("SaltedClaimItem.salt"));
        assert!(matches!(failure, DeserializeFailure::RangeCheck { .. }));
    }
}

#[test]
fn salted_items_round_trip() {
    let element = SaltedElementItem::new(salt(), Anyy::new()).unwrap();
    let mut expected = vec![0x82];
    expected.extend(salt_item());
    expected.extend([0x81, 0x00]);
    assert_eq!(element.to_cbor_bytes(), expected);
    let decoded = SaltedElementItem::from_cbor_bytes(&expected).unwrap();
    assert_eq!(decoded.salt, salt());
    assert_eq!(decoded.to_cbor_bytes(), expected);

    let claim =
        SaltedClaimItem::new(salt(), IntOrText::new_text(String::from("age")), Anyy::new())
            .unwrap();
    let mut expected = vec![0x83];
    expected.extend(salt_item());
    expected.extend([0x63, b'a', b'g', b'e', 0x81, 0x00]);
    assert_eq!(claim.to_cbor_bytes(), expected);
    let decoded = SaltedClaimItem::from_cbor_bytes(&expected).unwrap();
    assert_eq!(decoded.salt, salt());
    assert!(matches!(&decoded.index_1, IntOrText::Text { text, .. } if text == "age"));
}

#[test]
fn an_array_that_declares_more_than_it_holds_is_refused() {
    let mut bytes = vec![0x83];
    bytes.extend(salt_item());
    bytes.extend([0x81, 0x00]);
    let (location, failure) = failure_of(SaltedElementItem::from_cbor_bytes(&bytes));
    assert_eq!(location, None);
    assert!(matches!(failure, DeserializeFailure::DefiniteLenMismatch(3, Some(2))));
    let mut bytes = vec![0x82];
    bytes.extend(salt_item());
    bytes.extend([0x61, b'k']);
    let (_, failure) = failure_of(SaltedClaimItem::from_cbor_bytes(&bytes));
    assert!(matches!(failure, DeserializeFailure::DefiniteLenMismatch(2, None)));
}

#[test]
fn an_array_that_ends_before_its_last_element_does_not_hold_its_declared_length() {
    let mut bytes = vec![0x83, 0x50];
    bytes.extend([0u8; 16]);
    bytes.extend([0x61, 0x61]);
    let (location, failure) = failure_of(SaltedClaimItem::from_cbor_bytes(&bytes));
    assert_eq!(location.as_deref(), Some("SaltedClaimItem"));
    assert!(matches!(failure, DeserializeFailure::DefiniteLenMismatch(3, Some(2))));

    let (_, failure) = failure_of(SaltedClaimItem::from_cbor_bytes(&[0x83]));
    assert!(matches!(failure, DeserializeFailure::DefiniteLenMismatch(3, Some(0))));

    let mut bytes = vec![0x82];
    bytes.extend(salt_item());
    let (_, failure) = failure_of(SaltedElementItem::from_cbor_bytes(&bytes));
    assert!(matches!(failure, DeserializeFailure::DefiniteLenMismatch(2, Some(1))));

    let mut bytes = token_bytes(&[0xd2]);
    bytes.truncate(bytes.len() - 3);
    let (location, failure) = failure_of(SdCwt::from_cbor_bytes(&bytes));
    assert_eq!(location.as_deref(), Some("SdCwt"));
    assert!(matches!(failure, DeserializeFailure::DefiniteLenMismatch(4, Some(3))));
}

#[test]
fn a_byte_string_holds_one_value_and_nothing_after_it() {
    let mut inner = protected_bytes();
    inner.push(0x00);
    let mut bytes = vec![0xd2, 0x84];
    bytes.extend(wrapped(&inner));
    bytes.extend(unprotected_bytes());
    bytes.extend(wrapped(&payload_bytes()));
    bytes.extend([0x42, 0xde, 0xad]);
    let (location, failure) = failure_of(SdCwt::from_cbor_bytes(&bytes));
    assert_eq!(location.as_deref(), Some("SdCwt.protected"));
    let len = inner.len() as u64;
    assert!(matches!(
        failure,
        DeserializeFailure::DefiniteLenMismatch(n, Some(m)) if n == len && m == len - 1
    ));

    let mut inner = payload_bytes();
    inner.push(0x00);
    let mut bytes = vec![0xd2, 0x84];
    bytes.extend(wrapped(&protected_bytes()));
    bytes.extend(unprotected_bytes());
    bytes.extend(wrapped(&inner));
    bytes.extend([0x42, 0xde, 0xad]);
    let (location, failure) = failure_of(SdCwt::from_cbor_bytes(&bytes));
    assert_eq!(location.as_deref(), Some("SdCwt.payload"));
    assert!(matches!(failure, DeserializeFailure::DefiniteLenMismatch(_, Some(_))));

    let mut item = vec![0x82];
    item.extend(salt_item());
    item.extend([0x81, 0x00, 0x00]);
    match failure_of(Salted::from_cbor_bytes(&wrapped(&item))).1 {
        DeserializeFailure::NoVariantMatchedWithCauses(causes) => {
            assert_eq!(causes.len(), 2);
            assert!(matches!(
                causes[1].failure,
                DeserializeFailure::DefiniteLenMismatch(n, Some(m)) if n == m + 1
            ));
        }
        other => panic!("another failure: {:?}", other),
    }
}

#[test]
fn a_disclosure_that_is_neither_leaves_the_cursor_where_it_stood() {
    let mut bytes = vec![0x07];
    bytes.extend(wrapped(&[0x80]));
    bytes.push(0x01);
    let mut raw = Reader::new(bytes);
    assert!(Int::deserialize(&mut raw).is_ok());
    assert_eq!(raw.position(), 1);
    assert!(Salted::deserialize(&mut raw).is_err());
    assert_eq!(raw.position(), 1);
    let mut raw = Reader::new(vec![0x07]);
    assert!(Salted::deserialize(&mut raw).is_err());
    assert_eq!(raw.position(), 0);
}

fn wrapped(inner: &[u8]) -> Vec<u8> {
    assert!(inner.len() < 256);
    let mut bytes = if inner.len() < 24 {
        vec![0x40 + inner.len() as u8]
    } else {
        vec![0x58, inner.len() as u8]
    };
    bytes.extend_from_slice(inner);
    bytes
}

#[test]
fn a_disclosure_is_a_claim_first_and_an_element_second() {
    let claim =
        SaltedClaimItem::new(salt(), IntOrText::new_text(String::from("age")), Anyy::new())
            .unwrap();
    let claim_bytes = claim.to_cbor_bytes();
    let salted = Salted::new_salted_claim(claim);
    let bytes = salted.to_cbor_bytes();
    assert_eq!(bytes, wrapped(&claim_bytes));
    assert!(matches!(
        Salted::from_cbor_bytes(&bytes).unwrap(),
        Salted::SaltedClaim { .. }
    ));

    let element = SaltedElementItem::new(salt(), Anyy::new()).unwrap();
    let element_bytes = element.to_cbor_bytes();
    let bytes = Salted::new_salted_element(element).to_cbor_bytes();
    assert_eq!(bytes, wrapped(&element_bytes));
    match Salted::from_cbor_bytes(&bytes).unwrap() {
        Salted::SaltedElement { salted_element, salted_element_bytes_encoding } => {
            assert_eq!(salted_element.salt, salt());
            assert_eq!(
                salted_element_bytes_encoding,
                StringEncoding::Definite(cbor_event::Sz::Inline)
            );
        }
        Salted::SaltedClaim { .. } => panic!("an element was written"),
    }
}

#[test]
fn an_element_of_indefinite_length_is_found_after_the_claim_fails() {
    let mut inner = vec![0x9f];
    inner.extend(salt_item());
    inner.extend([0x81, 0x00, 0xff]);
    let bytes = wrapped(&inner);
    let decoded = Salted::from_cbor_bytes(&bytes).unwrap();
    assert!(matches!(decoded, Salted::SaltedElement { .. }));
    assert_eq!(decoded.to_cbor_bytes(), bytes);
}

#[test]
fn a_disclosure_that_is_neither_reports_both_failures() {
    let (location, failure) = failure_of(Salted::from_cbor_bytes(&[0x43, 0x81, 0x00, 0x00]));
    assert_eq!(location.as_deref(), Some("Salted.Salted"));
    match failure {
        DeserializeFailure::NoVariantMatchedWithCauses(causes) => {
            assert_eq!(causes.len(), 2);
            assert_eq!(causes[0].location.as_deref(), Some("SaltedClaim"));
            assert!(matches!(
                causes[0].failure,
                DeserializeFailure::DefiniteLenMismatch(1, None)
            ));
            assert_eq!(causes[1].location.as_deref(), Some("SaltedElement"));
            assert!(matches!(
                causes[1].failure,
                DeserializeFailure::DefiniteLenMismatch(1, None)
            ));
        }
        other => panic!("unexpected failure {:?}", other),
    }
    let (_, failure) = failure_of(Salted::from_cbor_bytes(&[0x00]));
    match failure {
        DeserializeFailure::NoVariantMatchedWithCauses(causes) => {
            assert_eq!(causes.len(), 2);
            assert!(matches!(causes[0].failure, DeserializeFailure::CBOR(_)));
            assert!(matches!(causes[1].failure, DeserializeFailure::CBOR(_)));
        }
        other => panic!("unexpected failure {:?}", other),
    }
}

#[test]
fn the_map_keeps_the_order_of_insertion() {
    let mut map = OrderedHashMap::new();
    assert!(map.is_empty());
    assert!(map.insert(Keyy::new_text(String::from("b")), Anyy::new()).is_none());
    assert!(map.insert(Keyy::new_text(String::from("a")), Anyy::new()).is_none());
    assert!(map.insert(Keyy::new_int(Int::new_uint(3)), Anyy::new()).is_none());
    assert_eq!(map.len(), 3);
    assert!(matches!(map.key_at(0), Keyy::Text { text, .. } if text == "b"));
    assert!(matches!(map.key_at(1), Keyy::Text { text, .. } if text == "a"));
    let wide = Anyy {
        encodings: Some(AnyyEncoding {
            len_encoding: LenEncoding::Indefinite,
            index_0_encoding: None,
        }),
    };
    let replaced = map.insert(
        Keyy::Text {
            text: String::from("b"),
            text_encoding: StringEncoding::Definite(cbor_event::Sz::Two),
        },
        wide,
    );
    assert!(replaced.is_some());
    assert_eq!(map.len(), 3);
    assert!(matches!(map.key_at(0), Keyy::Text { text, .. } if text == "b"));
    assert!(map.value_at(0).encodings.is_some());
    assert_eq!(map.position(&Keyy::new_text(String::from("a"))), Some(1));
    assert_eq!(
        map.position(&Keyy::Int(Int::Uint { value: 3, encoding: Some(cbor_event::Sz::Eight) })),
        Some(2)
    );
    assert_eq!(map.position(&Keyy::new_int(Int::new_nint(3))), None);
    assert!(map.get(&Keyy::new_text(String::from("zz"))).is_none());
    assert!(map.get(&Keyy::new_text(String::from("a"))).is_some());
}

fn protected_bytes() -> Vec<u8> {
    let mut bytes = vec![0xa3, 0x01, 0x26, 0x10, 0x62, b'o', b'k'];
    bytes.extend(custom_key());
    bytes.push(0xa0);
    bytes
}

#[test]
fn a_protected_header_round_trips() {
    let header = SdProtected::new(Int::new_nint(6), String::from("ok"), OrderedHashMap::new());
    assert_eq!(header.to_cbor_bytes(), protected_bytes());
    let decoded = SdProtected::from_cbor_bytes(&protected_bytes()).unwrap();
    assert!(matches!(decoded.alg, Int::Nint { value: 6, .. }));
    assert_eq!(decoded.typ, "ok");
    assert!(decoded.custom.is_empty());
    assert_eq!(decoded.encodings.as_ref().unwrap().orig_deser_order, vec![0, 1, 2]);
    assert_eq!(decoded.to_cbor_bytes(), protected_bytes());
}

#[test]
fn a_protected_header_keeps_the_order_and_widths_of_its_entries() {
    let mut bytes = vec![0xbf];
    bytes.extend([0x78, 0x06, b'c', b'u', b's', b't', b'o', b'm']);
    bytes.extend([0xbf, 0x61, b'x', 0x9f, 0x00, 0xff, 0xff]);
    bytes.extend([0x18, 0x10, 0x7f, 0x61, b'o', 0x61, b'k', 0xff]);
    bytes.extend([0x19, 0x00, 0x01, 0x39, 0x00, 0x06]);
    bytes.push(0xff);
    let decoded = SdProtected::from_cbor_bytes(&bytes).unwrap();
    assert_eq!(decoded.typ, "ok");
    assert_eq!(decoded.custom.len(), 1);
    assert_eq!(decoded.encodings.as_ref().unwrap().orig_deser_order, vec![2, 1, 0]);
    assert_eq!(decoded.to_cbor_bytes(), bytes);
}

#[test]
fn a_key_that_stands_twice_is_refused() {
    let mut bytes = vec![0xa3, 0x01, 0x26, 0x01, 0x26];
    bytes.extend(custom_key());
    bytes.push(0xa0);
    let (location, failure) = failure_of(SdProtected::from_cbor_bytes(&bytes));
    assert_eq!(location.as_deref(), Some("SdProtected"));
    assert!(matches!(failure, DeserializeFailure::DuplicateKey(Key::Uint(1))));

    let mut bytes = vec![0xbf];
    bytes.extend(custom_key());
    bytes.push(0xa0);
    bytes.extend(custom_key());
    bytes.push(0xa0);
    bytes.push(0xff);
    let (_, failure) = failure_of(SdProtected::from_cbor_bytes(&bytes));
    assert!(matches!(failure, DeserializeFailure::DuplicateKey(Key::Str(key)) if key == "custom"));
}

#[test]
fn an_extension_key_that_stands_twice_is_refused() {
    let mut bytes = vec![0xa3, 0x01, 0x26, 0x10, 0x62, b'o', b'k'];
    bytes.extend(custom_key());
    bytes.extend([0xa2, 0x61, b'x', 0x81, 0x00, 0x78, 0x01, b'x', 0x81, 0x00]);
    let (location, failure) = failure_of(SdProtected::from_cbor_bytes(&bytes));
    assert_eq!(location.as_deref(), Some("SdProtected.custom"));
    assert!(matches!(
        failure,
        DeserializeFailure::DuplicateKey(Key::Str(key)) if key == "some complicated/unsupported type"
    ));
}

#[test]
fn a_break_inside_a_definite_length_is_refused() {
    let mut bytes = vec![0xa3, 0x01, 0x26, 0xff];
    bytes.extend(custom_key());
    bytes.push(0xa0);
    let (location, failure) = failure_of(SdProtected::from_cbor_bytes(&bytes));
    assert_eq!(location.as_deref(), Some("SdProtected"));
    assert!(matches!(failure, DeserializeFailure::BreakInDefiniteLen));

    let mut bytes = vec![0xa3, 0x01, 0x26, 0x10, 0x62, b'o', b'k'];
    bytes.extend(custom_key());
    bytes.extend([0xa1, 0xff]);
    let (location, failure) = failure_of(SdProtected::from_cbor_bytes(&bytes));
    assert_eq!(location.as_deref(), Some("SdProtected.custom"));
    assert!(matches!(failure, DeserializeFailure::BreakInDefiniteLen));
}

#[test]
fn a_map_that_does_not_end_with_a_break_is_refused() {
    let mut bytes = vec![0xbf, 0x01, 0x26, 0xf4];
    bytes.extend(custom_key());
    bytes.push(0xa0);
    let (_, failure) = failure_of(SdProtected::from_cbor_bytes(&bytes));
    assert!(matches!(failure, DeserializeFailure::EndingBreakMissing));
}

#[test]
fn a_key_of_another_type_is_refused() {
    let mut bytes = vec![0xa3, 0x41, 0x00, 0x26];
    bytes.extend(custom_key());
    bytes.push(0xa0);
    let (_, failure) = failure_of(SdProtected::from_cbor_bytes(&bytes));
    assert!(matches!(
        failure,
        DeserializeFailure::UnexpectedKeyType(cbor_event::Type::Bytes)
    ));
}

#[test]
fn a_protected_header_must_have_all_its_fields() {
    let (location, failure) = failure_of(SdProtected::from_cbor_bytes(&[0xbf, 0xff]));
    assert_eq!(location.as_deref(), Some("SdProtected"));
    assert!(matches!(failure, DeserializeFailure::MandatoryFieldMissing(Key::Uint(1))));
    let (_, failure) = failure_of(SdProtected::from_cbor_bytes(&[0xbf, 0x01, 0x26, 0xff]));
    assert!(matches!(failure, DeserializeFailure::MandatoryFieldMissing(Key::Uint(16))));
    let (_, failure) =
        failure_of(SdProtected::from_cbor_bytes(&[0xbf, 0x01, 0x26, 0x10, 0x60, 0xff]));
    assert!(matches!(
        failure,
        DeserializeFailure::MandatoryFieldMissing(Key::Str(key)) if key == "custom"
    ));
    let (_, failure) =
        failure_of(SdProtected::from_cbor_bytes(&[0xa2, 0x01, 0x26, 0x10, 0x62, b's', b'd']));
    assert!(matches!(
        failure,
        DeserializeFailure::MandatoryFieldMissing(Key::Str(key)) if key == "custom"
    ));
}

#[test]
fn a_protected_header_that_ends_early_does_not_hold_its_declared_length() {
    let (location, failure) = failure_of(SdProtected::from_cbor_bytes(&[0xa2, 0x01, 0x26]));
    assert_eq!(location.as_deref(), Some("SdProtected"));
    assert!(matches!(failure, DeserializeFailure::DefiniteLenMismatch(2, Some(1))));
    let (_, failure) = failure_of(SdProtected::from_cbor_bytes(&[0xa4, 0x01, 0x26]));
    assert!(matches!(failure, DeserializeFailure::DefiniteLenMismatch(4, Some(1))));
}

#[test]
fn a_key_that_stands_twice_is_refused_whatever_length_is_declared() {
    let mut bytes = vec![0xa4, 0x01, 0x26, 0x01, 0x26, 0x10, 0x62, b's', b'd'];
    bytes.extend(custom_key());
    bytes.push(0xa0);
    let (location, failure) = failure_of(SdProtected::from_cbor_bytes(&bytes));
    assert_eq!(location.as_deref(), Some("SdProtected"));
    assert!(matches!(failure, DeserializeFailure::DuplicateKey(Key::Uint(1))));

    let mut bytes = vec![0xa3, 0x03, 0x61, b'a', 0x03, 0x61, b'b'];
    bytes.extend(payload_bytes()[10..].iter());
    let (_, failure) = failure_of(SdPayload::from_cbor_bytes(&bytes));
    assert!(matches!(failure, DeserializeFailure::DuplicateKey(Key::Uint(3))));
}

fn payload() -> SdPayload {
    SdPayload::new(String::from("client-1"), Int::new_uint(1_700_000_000), OrderedHashMap::new())
}

fn payload_bytes() -> Vec<u8> {
    let mut bytes = vec![0xa3, 0x03, 0x68];
    bytes.extend(b"client-1");
    bytes.extend([0x06, 0x1a, 0x65, 0x53, 0xf1, 0x00]);
    bytes.extend(custom_key());
    bytes.push(0xa0);
    bytes
}

#[test]
fn claims_are_written_and_read_back() {
    let bytes = payload().to_cbor_bytes();
    assert_eq!(bytes, payload_bytes());
    let decoded = SdPayload::from_cbor_bytes(&bytes).unwrap();
    assert_eq!(decoded.aud, "client-1");
    assert!(matches!(decoded.iat, Int::Uint { value: 1_700_000_000, .. }));
    assert!(decoded.custom.is_empty());
    assert!(decoded.iss.is_none());
    assert!(decoded.redacted_keys.is_none());
    assert_eq!(decoded.to_cbor_bytes(), bytes);
}

#[test]
fn claims_with_every_field_round_trip() {
    let mut custom = OrderedHashMap::new();
    custom.insert(Keyy::new_text(String::from("x")), Anyy::new());
    let mut cnf = OrderedHashMap::new();
    cnf.insert(Keyy::new_text(String::from("k")), Anyy::new());
    let mut claims = payload();
    claims.iss = Some(String::from("issuer"));
    claims.sub = Some(String::from("subject"));
    claims.exp = Some(Int::new_uint(2_000_000_000));
    claims.nbf = Some(Int::new_nint(0));
    claims.cnonce = Some(vec![1, 2, 3]);
    claims.cnf = Some(cnf);
    claims.sd_hash = Some(vec![9; 32]);
    claims.sd_alg = Some(Int::new_nint(15));
    claims.redacted_keys = Some(vec![vec![1; 32], vec![2; 32]]);
    claims.custom = custom;
    let bytes = claims.to_cbor_bytes();
    assert_eq!(bytes[0], 0xac);
    assert_eq!(&bytes[1..9], &[0x01, 0x66, b'i', b's', b's', b'u', b'e', b'r']);
    let decoded = SdPayload::from_cbor_bytes(&bytes).unwrap();
    assert_eq!(decoded.iss.as_deref(), Some("issuer"));
    assert_eq!(decoded.sub.as_deref(), Some("subject"));
    assert!(matches!(decoded.exp, Some(Int::Uint { value: 2_000_000_000, .. })));
    assert!(matches!(decoded.nbf, Some(Int::Nint { value: 0, .. })));
    assert_eq!(decoded.cnonce, Some(vec![1, 2, 3]));
    assert_eq!(decoded.cnf.as_ref().unwrap().len(), 1);
    assert_eq!(decoded.sd_hash, Some(vec![9; 32]));
    assert!(matches!(decoded.sd_alg, Some(Int::Nint { value: 15, .. })));
    assert_eq!(decoded.redacted_keys, Some(vec![vec![1; 32], vec![2; 32]]));
    assert_eq!(decoded.custom.len(), 1);
    assert_eq!(
        decoded.encodings.as_ref().unwrap().orig_deser_order,
        vec![0, 1, 2, 3, 4, 5, 6, 7, 8, 9, 10, 11]
    );
    assert_eq!(decoded.to_cbor_bytes(), bytes);
}

#[test]
fn claims_keep_the_wire_form_of_their_entries() {
    let mut bytes = vec![0xbf];
    bytes.extend([0x19, 0x04, 0x5b, 0x9f, 0x41, 0x07, 0x5f, 0x41, 0x08, 0xff, 0xff]);
    bytes.extend([0x7f, 0x63, b'c', b'u', b's', 0x63, b't', b'o', b'm', 0xff, 0xb8, 0x00]);
    bytes.extend([0x18, 0x06, 0x1b, 0, 0, 0, 0, 0, 0, 0, 1]);
    bytes.extend([0x03, 0x78, 0x01, b'a']);
    bytes.extend([0x18, 0x27, 0x58, 0x00]);
    bytes.push(0xff);
    let decoded = SdPayload::from_cbor_bytes(&bytes).unwrap();
    assert_eq!(decoded.aud, "a");
    assert_eq!(decoded.redacted_keys, Some(vec![vec![7], vec![8]]));
    assert_eq!(decoded.cnonce, Some(vec![]));
    assert_eq!(decoded.encodings.as_ref().unwrap().orig_deser_order, vec![10, 11, 5, 2, 6]);
    assert_eq!(decoded.to_cbor_bytes(), bytes);
}

#[test]
fn claims_without_an_audience_are_refused() {
    let mut bytes = vec![0xbf, 0x06, 0x00];
    bytes.extend(custom_key());
    bytes.extend([0xa0, 0xff]);
    let (location, failure) = failure_of(SdPayload::from_cbor_bytes(&bytes));
    assert_eq!(location.as_deref(), Some("SdPayload"));
    assert!(matches!(failure, DeserializeFailure::MandatoryFieldMissing(Key::Uint(3))));

    let mut bytes = vec![0xbf, 0x03, 0x61, b'a'];
    bytes.extend(custom_key());
    bytes.extend([0xa0, 0xff]);
    let (_, failure) = failure_of(SdPayload::from_cbor_bytes(&bytes));
    assert!(matches!(failure, DeserializeFailure::MandatoryFieldMissing(Key::Uint(6))));

    let (_, failure) =
        failure_of(SdPayload::from_cbor_bytes(&[0xbf, 0x03, 0x61, b'a', 0x06, 0x00, 0xff]));
    assert!(matches!(
        failure,
        DeserializeFailure::MandatoryFieldMissing(Key::Str(key)) if key == "custom"
    ));
}

#[test]
fn claims_with_an_unknown_key_are_refused() {
    let mut bytes = vec![0xa4, 0x03, 0x61, b'a', 0x06, 0x00, 0x19, 0x27, 0x0f, 0x00];
    bytes.extend(custom_key());
    bytes.push(0xa0);
    let (location, failure) = failure_of(SdPayload::from_cbor_bytes(&bytes));
    assert_eq!(location.as_deref(), Some("SdPayload"));
    assert!(matches!(failure, DeserializeFailure::UnknownKey(Key::Uint(9999))));

    let bytes = vec![0xa3, 0x03, 0x61, b'a', 0x06, 0x00, 0x65, b'o', b't', b'h', b'e', b'r', 0xa0];
    let (_, failure) = failure_of(SdPayload::from_cbor_bytes(&bytes));
    assert!(matches!(failure, DeserializeFailure::UnknownKey(Key::Str(key)) if key == "other"));
    let (_, failure) = failure_of(SdPayload::from_cbor_bytes(&[0xa3, 0x07, 0x00]));
    assert!(matches!(failure, DeserializeFailure::UnknownKey(Key::Uint(7))));
}

#[test]
fn claims_of_definite_length_without_an_audience_name_the_missing_key() {
    let mut bytes = vec![0xa2, 0x06, 0x00];
    bytes.extend(custom_key());
    bytes.push(0xa0);
    let (location, failure) = failure_of(SdPayload::from_cbor_bytes(&bytes));
    assert_eq!(location.as_deref(), Some("SdPayload"));
    assert!(matches!(failure, DeserializeFailure::MandatoryFieldMissing(Key::Uint(3))));

    let mut bytes = vec![0xa1, 0x19, 0x04, 0x58, 0x41, 0x00];
    let (_, failure) = failure_of(Unprotected::from_cbor_bytes(&bytes));
    assert!(matches!(
        failure,
        DeserializeFailure::MandatoryFieldMissing(Key::Str(key)) if key == "custom"
    ));
    bytes[0] = 0xa2;
    let (_, failure) = failure_of(Unprotected::from_cbor_bytes(&bytes));
    assert!(matches!(failure, DeserializeFailure::DefiniteLenMismatch(2, Some(1))));
}

#[test]
fn claims_are_held_to_their_declared_length() {
    let (location, failure) = failure_of(SdPayload::from_cbor_bytes(&[0xa2, 0x03, 0x61, b'a']));
    assert_eq!(location.as_deref(), Some("SdPayload"));
    assert!(matches!(failure, DeserializeFailure::DefiniteLenMismatch(2, Some(1))));

    // three entries are declared and read; the extension entries come after them
    let mut bytes = vec![0xa3, 0x01, 0x61, b'i'];
    bytes.extend(payload_bytes()[1..].iter());
    let (location, failure) = failure_of(SdPayload::from_cbor_bytes(&bytes));
    assert_eq!(location.as_deref(), Some("SdPayload"));
    assert!(matches!(
        failure,
        DeserializeFailure::MandatoryFieldMissing(Key::Str(key)) if key == "custom"
    ));

    let mut bytes = vec![0xa4, 0x01, 0x61, b'i'];
    bytes.extend(payload_bytes()[1..].iter());
    assert!(SdPayload::from_cbor_bytes(&bytes).is_ok());
}

#[test]
fn a_field_error_names_its_place() {
    let (location, failure) = failure_of(SdPayload::from_cbor_bytes(&[0xa3, 0x06, 0x61, b'x']));
    assert_eq!(location.as_deref(), Some("SdPayload.iat.Int"));
    assert!(matches!(failure, DeserializeFailure::NoVariantMatched));
    let (location, failure) = failure_of(SdPayload::from_cbor_bytes(&[0xa3, 0x03, 0x00]));
    assert_eq!(location.as_deref(), Some("SdPayload.aud"));
    assert!(matches!(failure, DeserializeFailure::CBOR(_)));
    let mut bytes = vec![0xa3];
    bytes.extend(custom_key());
    bytes.extend([0xa1, 0x61, b'k', 0x81, 0x05]);
    let (location, failure) = failure_of(SdPayload::from_cbor_bytes(&bytes));
    assert_eq!(location.as_deref(), Some("SdPayload.custom.Anyy.index_0"));
    assert!(matches!(failure, DeserializeFailure::FixedValueMismatch { .. }));
}

fn unprotected_bytes() -> Vec<u8> {
    let mut bytes = vec![0xa1];
    bytes.extend(custom_key());
    bytes.push(0xa0);
    bytes
}

#[test]
fn an_unprotected_header_round_trips() {
    let header = Unprotected::new(OrderedHashMap::new());
    assert_eq!(header.to_cbor_bytes(), unprotected_bytes());
    let decoded = Unprotected::from_cbor_bytes(&unprotected_bytes()).unwrap();
    assert!(decoded.sd_claims.is_none());
    assert!(decoded.sd_kbt.is_none());
    assert_eq!(decoded.to_cbor_bytes(), unprotected_bytes());

    let element = SaltedElementItem::new(salt(), Anyy::new()).unwrap();
    let claim =
        SaltedClaimItem::new(salt(), IntOrText::new_text(String::from("age")), Anyy::new())
            .unwrap();
    let mut header = Unprotected::new(OrderedHashMap::new());
    header.sd_claims =
        Some(vec![Salted::new_salted_element(element), Salted::new_salted_claim(claim)]);
    header.sd_kbt = Some(vec![0xaa, 0xbb]);
    let bytes = header.to_cbor_bytes();
    assert_eq!(&bytes[..5], &[0xa3, 0x19, 0x04, 0x57, 0x82]);
    let decoded = Unprotected::from_cbor_bytes(&bytes).unwrap();
    let claims = decoded.sd_claims.as_ref().unwrap();
    assert_eq!(claims.len(), 2);
    assert!(matches!(claims[0], Salted::SaltedElement { .. }));
    assert!(matches!(claims[1], Salted::SaltedClaim { .. }));
    assert_eq!(decoded.sd_kbt, Some(vec![0xaa, 0xbb]));
    assert_eq!(decoded.to_cbor_bytes(), bytes);
}

#[test]
fn an_unprotected_header_needs_its_extension_entries() {
    let (location, failure) = failure_of(Unprotected::from_cbor_bytes(&[0xbf, 0xff]));
    assert_eq!(location.as_deref(), Some("Unprotected"));
    assert!(matches!(
        failure,
        DeserializeFailure::MandatoryFieldMissing(Key::Str(key)) if key == "custom"
    ));
    let (location, failure) = failure_of(Unprotected::from_cbor_bytes(&[0xa0]));
    assert_eq!(location.as_deref(), Some("Unprotected"));
    assert!(matches!(
        failure,
        DeserializeFailure::MandatoryFieldMissing(Key::Str(key)) if key == "custom"
    ));
    let (location, failure) =
        failure_of(Unprotected::from_cbor_bytes(&[0xa1, 0x19, 0x04, 0x58, 0x40]));
    assert_eq!(location.as_deref(), Some("Unprotected"));
    assert!(matches!(
        failure,
        DeserializeFailure::MandatoryFieldMissing(Key::Str(key)) if key == "custom"
    ));
    let mut bytes = vec![0xa2];
    bytes.extend(custom_key());
    bytes.push(0xa0);
    let (location, failure) = failure_of(Unprotected::from_cbor_bytes(&bytes));
    assert_eq!(location.as_deref(), Some("Unprotected"));
    assert!(matches!(failure, DeserializeFailure::DefiniteLenMismatch(2, Some(1))));
}

fn token() -> SdCwt {
    SdCwt::new(
        SdProtected::new(Int::new_nint(6), String::from("ok"), OrderedHashMap::new()),
        Unprotected::new(OrderedHashMap::new()),
        payload(),
        vec![0xde, 0xad],
    )
}

fn token_bytes(tag: &[u8]) -> Vec<u8> {
    let mut bytes = tag.to_vec();
    bytes.push(0x84);
    bytes.push(0x40 + protected_bytes().len() as u8);
    bytes.extend(protected_bytes());
    bytes.extend(unprotected_bytes());
    bytes.extend(wrapped(&payload_bytes()));
    bytes.extend([0x42, 0xde, 0xad]);
    bytes
}

#[test]
fn a_token_round_trips() {
    let bytes = token().to_cbor_bytes();
    assert_eq!(bytes, token_bytes(&[0xd2]));
    let decoded = SdCwt::from_cbor_bytes(&bytes).unwrap();
    assert_eq!(decoded.payload.aud, "client-1");
    assert_eq!(decoded.protected.typ, "ok");
    assert_eq!(decoded.signature, vec![0xde, 0xad]);
    assert_eq!(decoded.to_cbor_bytes(), bytes);
    assert_eq!(decoded.protected.to_cbor_bytes(), protected_bytes());
    assert_eq!(decoded.payload.to_cbor_bytes(), payload_bytes());
}

#[test]
fn a_token_keeps_a_wide_tag() {
    let bytes = token_bytes(&[0xd9, 0x00, 0x12]);
    let decoded = SdCwt::from_cbor_bytes(&bytes).unwrap();
    assert_eq!(decoded.encodings.as_ref().unwrap().tag_encoding, Some(cbor_event::Sz::Two));
    assert_eq!(decoded.to_cbor_bytes(), bytes);
}

#[test]
fn a_token_must_have_the_tag_18() {
    let (location, failure) = failure_of(SdCwt::from_cbor_bytes(&token_bytes(&[0xd8, 0x18])));
    assert_eq!(location.as_deref(), Some("SdCwt"));
    assert!(matches!(failure, DeserializeFailure::TagMismatch { found: 24, expected: 18 }));
    let (location, failure) = failure_of(SdCwt::from_cbor_bytes(&token_bytes(&[])));
    assert_eq!(location, None);
    assert!(matches!(failure, DeserializeFailure::CBOR(_)));
}

#[test]
fn a_token_names_the_part_that_fails() {
    let mut bytes = vec![0xd2, 0x84, 0x41, 0x00];
    bytes.extend(unprotected_bytes());
    let (location, failure) = failure_of(SdCwt::from_cbor_bytes(&bytes));
    assert_eq!(location.as_deref(), Some("SdCwt.protected"));
    assert!(matches!(failure, DeserializeFailure::CBOR(_)));
    let (location, failure) = failure_of(SdCwt::from_cbor_bytes(&[0xd2, 0x83]));
    assert_eq!(location, None);
    assert!(matches!(failure, DeserializeFailure::DefiniteLenMismatch(3, None)));
    let mut bytes = token_bytes(&[0xd2]);
    bytes.truncate(bytes.len() - 3);
    let (location, failure) = failure_of(SdCwt::from_cbor_bytes(&bytes));
    assert_eq!(location.as_deref(), Some("SdCwt"));
    assert!(matches!(failure, DeserializeFailure::DefiniteLenMismatch(4, Some(3))));
    let mut bytes = token_bytes(&[0xd2]);
    bytes.truncate(bytes.len() - 1);
    let (location, failure) = failure_of(SdCwt::from_cbor_bytes(&bytes));
    assert_eq!(location.as_deref(), Some("SdCwt.signature"));
    assert!(matches!(failure, DeserializeFailure::CBOR(_)));
}

#[test]
fn what_follows_a_value_is_not_read() {
    let mut bytes = payload_bytes();
    bytes.extend([0xff, 0x00]);
    let mut raw = Reader::new(bytes.clone());
    assert!(SdPayload::deserialize(&mut raw).is_ok());
    assert_eq!(raw.position(), bytes.len() - 2);
}

#[test]
fn an_error_is_annotated_from_the_inside_out() {
    let error = DeserializeError::new("field", DeserializeFailure::NoVariantMatched);
    let error = error.annotate("Type");
    assert_eq!(error.location.as_deref(), Some("Type.field"));
    let error = DeserializeError::from_failure(DeserializeFailure::EndingBreakMissing);
    assert_eq!(error.location, None);
    assert_eq!(error.annotate("Type").location.as_deref(), Some("Type"));
}
