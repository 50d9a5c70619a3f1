//! Salted disclosures. A salted claim is an array of a salt, the index of
//! the claim and its value; a salted element is an array of a salt and a
//! value. A salt is sixteen bytes. On the wire either stands inside a byte
//! string that holds its encoding, and nothing outside that byte string says
//! which of the two it is: a decoder tries the claim first and the element
//! second, each from the same position.

use crate::anyy::Anyy;
use crate::cbor_encodings::{SaltedItemEncoding, SaltedItemEncodingView};
use crate::error::{
    annotated, annotated_result, bare, cbor_error, located, DeserializeError, DeserializeFailure,
    ErrorView, FailureView,
};
use crate::int_or_text::{IntOrText, IntOrTextView};
use crate::raw::write_array;
use crate::reader::{decoded, Reader};
use crate::serialization::{
    bytes_encodable, bytes_wire, check_element, check_filled, check_len, element, exact_len,
    filling, more_items, next_item, parse_bytes, parse_closing, parse_items, read_bytes_enc,
    read_closing, shifted, write_bytes_as, LenEncoding, Next, StringEncoding,
    StringEncodingView,
};
use crate::wire::{len_head, len_width, parse_len, MAJOR_ARRAY};
use cbor_event::LenSz;
use vstd::prelude::*;

verus! {

broadcast use {vstd::seq_lib::lemma_seq_skip_of_skip, vstd::seq_lib::lemma_seq_skip_nothing};

/// The number of bytes of a salt.
pub const SALT_LEN: usize = 16;

/// A length as a range check reports it: the length itself, or the largest
/// number that the report can hold.
pub open spec fn reported(len: nat) -> isize {
    if len <= isize::MAX {
        len as isize
    } else {
        isize::MAX
    }
}

/// The failure for a salt of `len` bytes, where `len` is not sixteen.
pub open spec fn salt_out_of_range(len: nat) -> FailureView {
    FailureView::RangeCheck { found: reported(len), min: Some(16), max: Some(16) }
}

fn salt_failure(len: usize) -> (r: DeserializeFailure)
    ensures
        r@ == salt_out_of_range(len as nat),
{
    let found: isize = if len <= isize::MAX as usize {
        len as isize
    } else {
        isize::MAX
    };
    DeserializeFailure::RangeCheck { found, min: Some(16), max: Some(16) }
}

/// The salt at the start of `s`: a byte string of sixteen bytes, with the
/// way it was written.
#[verifier::opaque]
pub open spec fn parse_salt(s: Seq<u8>) -> Result<((Seq<u8>, StringEncodingView), nat), ErrorView> {
    match parse_bytes(s) {
        Some((data, enc, n)) => if data.len() != 16 {
            Err(bare(salt_out_of_range(data.len())))
        } else {
            Ok(((data, enc), n))
        },
        None => Err(cbor_error()),
    }
}

fn read_salt(raw: &mut Reader) -> (r: Result<(Vec<u8>, StringEncoding), DeserializeError>)
    ensures
        final(raw).bytes() == old(raw).bytes(),
        match parse_salt(old(raw).rest()) {
            Ok(((data, enc), n)) => r matches Ok(x) && x.0@ == data && x.1@ == enc && old(
                raw,
            ).advanced(final(raw), n),
            Err(e) => r matches Err(x) && x@ == e,
        },
{
    reveal(parse_salt);
    match read_bytes_enc(raw) {
        Ok((bytes, enc)) => {
            if bytes.len() < SALT_LEN || bytes.len() > SALT_LEN {
                Err(DeserializeError::from_failure(salt_failure(bytes.len())))
            } else {
                Ok((bytes, enc))
            }
        },
        Err(e) => Err(DeserializeError::from_cbor(e)),
    }
}

/// A salted claim: a salt, the index of the claim, and its value.
#[derive(Debug)]
pub struct SaltedClaimItem {
    pub salt: Vec<u8>,
    pub index_1: IntOrText,
    pub value: Anyy,
    pub encodings: Option<SaltedItemEncoding>,
}

/// A salted claim.
pub type SaltedClaim = SaltedClaimItem;

/// What a `SaltedClaimItem` stands for.
pub struct SaltedClaimItemView {
    pub salt: Seq<u8>,
    pub index_1: IntOrTextView,
    pub value: Anyy,
    pub encodings: Option<SaltedItemEncodingView>,
}

impl View for SaltedClaimItem {
    type V = SaltedClaimItemView;

    open spec fn view(&self) -> SaltedClaimItemView {
        SaltedClaimItemView {
            salt: self.salt@,
            index_1: self.index_1@,
            value: self.value,
            encodings: match self.encodings {
                Some(e) => Some(e@),
                None => None,
            },
        }
    }
}

/// How the array of a salted item is written: as recorded, or in the
/// shortest form.
pub open spec fn item_len_encoding(encodings: Option<SaltedItemEncodingView>) -> LenEncoding {
    match encodings {
        Some(e) => e.len_encoding,
        None => LenEncoding::Canonical,
    }
}

/// How the salt of a salted item is written: as recorded, or in the
/// shortest form.
pub open spec fn item_salt_encoding(encodings: Option<SaltedItemEncodingView>) -> StringEncodingView {
    match encodings {
        Some(e) => e.salt_encoding,
        None => StringEncodingView::Canonical,
    }
}

impl SaltedClaimItemView {
    /// Whether the claim can be written as it stands.
    pub open spec fn encodable(self) -> bool {
        &&& bytes_encodable(self.salt, item_salt_encoding(self.encodings))
        &&& self.index_1.encodable()
    }

    /// The bytes that the claim is written as.
    pub open spec fn wire(self) -> Seq<u8> {
        len_head(MAJOR_ARRAY, item_len_encoding(self.encodings).head_for(3)) + bytes_wire(
            self.salt,
            item_salt_encoding(self.encodings),
        ) + self.index_1.wire() + self.value.wire() + item_len_encoding(self.encodings).ending()
    }

    /// What follows the head of the array.
    pub open spec fn parse_body(s: Seq<u8>, len: LenSz) -> Result<
        (SaltedClaimItemView, nat),
        ErrorView,
    > {
        match element(len, 0, s, annotated_result(parse_salt(s), "salt"@)) {
            Ok(((salt, salt_encoding), a)) => match element(
                len,
                1,
                s.skip(a as int),
                annotated_result(
                    IntOrTextView::parse(IntOrText::name(), s.skip(a as int)),
                    "index_1"@,
                ),
            ) {
                Ok((index_1, b)) => match element(
                    len,
                    2,
                    s.skip((a + b) as int),
                    annotated_result(Anyy::parse(s.skip((a + b) as int)), "value"@),
                ) {
                    Ok((value, c)) => match parse_closing(s.skip((a + b + c) as int), len) {
                        Ok((_, d)) => Ok(
                            (
                                SaltedClaimItemView {
                                    salt,
                                    index_1,
                                    value,
                                    encodings: Some(
                                        SaltedItemEncodingView {
                                            len_encoding: LenEncoding::of(len),
                                            salt_encoding,
                                        },
                                    ),
                                },
                                a + b + c + d,
                            ),
                        ),
                        Err(e) => Err(e),
                    },
                    Err(e) => Err(e),
                },
                Err(e) => Err(e),
            },
            Err(e) => Err(e),
        }
    }

    /// The claim at the start of `s` and the bytes that it takes, or why
    /// there is none.
    pub open spec fn parse(s: Seq<u8>) -> Result<(SaltedClaimItemView, nat), ErrorView> {
        match parse_len(MAJOR_ARRAY, s) {
            Some(len) => match exact_len(len, 3) {
                Ok(_) => {
                    let start = 1 + len_width(len);
                    match annotated_result(
                        Self::parse_body(s.skip(start as int), len),
                        "SaltedClaimItem"@,
                    ) {
                        Ok((v, n)) => Ok((v, start + n)),
                        Err(e) => Err(e),
                    }
                },
                Err(f) => Err(bare(f)),
            },
            None => Err(cbor_error()),
        }
    }
}

impl SaltedClaimItem {
    /// A salted claim, to be written in the shortest form. The salt must be
    /// sixteen bytes.
    pub fn new(salt: Vec<u8>, index_1: IntOrText, value: Anyy) -> (r: Result<
        Self,
        DeserializeError,
    >)
        ensures
            match r {
                Ok(item) => salt@.len() == 16 && item@ == (SaltedClaimItemView {
                    salt: salt@,
                    index_1: index_1@,
                    value,
                    encodings: None,
                }),
                Err(e) => salt@.len() != 16 && e@ == bare(salt_out_of_range(salt@.len())),
            },
    {
        if salt.len() < SALT_LEN || salt.len() > SALT_LEN {
            return Err(DeserializeError::from_failure(salt_failure(salt.len())));
        }
        Ok(SaltedClaimItem { salt, index_1, value, encodings: None })
    }

    /// Writes the claim. Fails where the salt or the index cannot be written
    /// the way its descriptor says.
    pub fn serialize(&self, out: &mut Vec<u8>) -> (r: Result<(), cbor_event::Error>)
        ensures
            r is Ok <==> self@.encodable(),
            r is Ok ==> final(out)@ == old(out)@ + self@.wire(),
    {
        let len_encoding = match &self.encodings {
            Some(e) => e.len_encoding,
            None => LenEncoding::Canonical,
        };
        let canonical = StringEncoding::Canonical;
        let salt_encoding = match &self.encodings {
            Some(e) => &e.salt_encoding,
            None => &canonical,
        };
        let _ = write_array(out, len_encoding.to_len_sz(3));
        match write_bytes_as(out, &self.salt, salt_encoding) {
            Ok(_) => {},
            Err(e) => {
                return Err(e);
            },
        }
        match self.index_1.serialize(out) {
            Ok(_) => {},
            Err(e) => {
                return Err(e);
            },
        }
        let _ = self.value.serialize(out);
        let r = len_encoding.end(out);
        assert(final(out)@ =~= old(out)@ + self@.wire());
        r
    }

    fn deserialize_body(raw: &mut Reader, len: LenSz) -> (r: Result<
        SaltedClaimItem,
        DeserializeError,
    >)
        ensures
            decoded(
                *old(raw),
                *final(raw),
                r,
                SaltedClaimItemView::parse_body(old(raw).rest(), len),
            ),
    {
        match check_element(raw, len, 0) {
            Ok(_) => {},
            Err(e) => {
                return Err(e);
            },
        }
        let (salt, salt_encoding) = match read_salt(raw) {
            Ok(x) => x,
            Err(e) => {
                return Err(e.annotate("salt"));
            },
        };
        match check_element(raw, len, 1) {
            Ok(_) => {},
            Err(e) => {
                return Err(e);
            },
        }
        let index_1 = match IntOrText::deserialize(raw) {
            Ok(x) => x,
            Err(e) => {
                return Err(e.annotate("index_1"));
            },
        };
        match check_element(raw, len, 2) {
            Ok(_) => {},
            Err(e) => {
                return Err(e);
            },
        }
        let value = match Anyy::deserialize(raw) {
            Ok(x) => x,
            Err(e) => {
                return Err(e.annotate("value"));
            },
        };
        match read_closing(raw, len) {
            Ok(_) => {},
            Err(e) => {
                return Err(e);
            },
        }
        Ok(
            SaltedClaimItem {
                salt,
                index_1,
                value,
                encodings: Some(
                    SaltedItemEncoding {
                        len_encoding: LenEncoding::from_len_sz(len),
                        salt_encoding,
                    },
                ),
            },
        )
    }

    /// Reads a salted claim.
    pub fn deserialize(raw: &mut Reader) -> (r: Result<SaltedClaimItem, DeserializeError>)
        ensures
            decoded(*old(raw), *final(raw), r, SaltedClaimItemView::parse(old(raw).rest())),
    {
        let len = match raw.array_sz() {
            Ok(len) => len,
            Err(e) => {
                return Err(DeserializeError::from_cbor(e));
            },
        };
        match check_len(len, 3) {
            Ok(_) => {},
            Err(f) => {
                return Err(DeserializeError::from_failure(f));
            },
        }
        match Self::deserialize_body(raw, len) {
            Ok(v) => Ok(v),
            Err(e) => Err(e.annotate("SaltedClaimItem")),
        }
    }
}

/// A salted element: a salt and a value.
#[derive(Debug)]
pub struct SaltedElementItem {
    pub salt: Vec<u8>,
    pub value: Anyy,
    pub encodings: Option<SaltedItemEncoding>,
}

/// A salted element.
pub type SaltedElement = SaltedElementItem;

/// What a `SaltedElementItem` stands for.
pub struct SaltedElementItemView {
    pub salt: Seq<u8>,
    pub value: Anyy,
    pub encodings: Option<SaltedItemEncodingView>,
}

impl View for SaltedElementItem {
    type V = SaltedElementItemView;

    open spec fn view(&self) -> SaltedElementItemView {
        SaltedElementItemView {
            salt: self.salt@,
            value: self.value,
            encodings: match self.encodings {
                Some(e) => Some(e@),
                None => None,
            },
        }
    }
}

impl SaltedElementItemView {
    /// Whether the element can be written as it stands.
    pub open spec fn encodable(self) -> bool {
        bytes_encodable(self.salt, item_salt_encoding(self.encodings))
    }

    /// The bytes that the element is written as.
    pub open spec fn wire(self) -> Seq<u8> {
        len_head(MAJOR_ARRAY, item_len_encoding(self.encodings).head_for(2)) + bytes_wire(
            self.salt,
            item_salt_encoding(self.encodings),
        ) + self.value.wire() + item_len_encoding(self.encodings).ending()
    }

    /// What follows the head of the array.
    pub open spec fn parse_body(s: Seq<u8>, len: LenSz) -> Result<
        (SaltedElementItemView, nat),
        ErrorView,
    > {
        match element(len, 0, s, annotated_result(parse_salt(s), "salt"@)) {
            Ok(((salt, salt_encoding), a)) => match element(
                len,
                1,
                s.skip(a as int),
                annotated_result(Anyy::parse(s.skip(a as int)), "value"@),
            ) {
                Ok((value, b)) => match parse_closing(s.skip((a + b) as int), len) {
                    Ok((_, c)) => Ok(
                        (
                            SaltedElementItemView {
                                salt,
                                value,
                                encodings: Some(
                                    SaltedItemEncodingView {
                                        len_encoding: LenEncoding::of(len),
                                        salt_encoding,
                                    },
                                ),
                            },
                            a + b + c,
                        ),
                    ),
                    Err(e) => Err(e),
                },
                Err(e) => Err(e),
            },
            Err(e) => Err(e),
        }
    }

    /// The element at the start of `s` and the bytes that it takes, or why
    /// there is none.
    pub open spec fn parse(s: Seq<u8>) -> Result<(SaltedElementItemView, nat), ErrorView> {
        match parse_len(MAJOR_ARRAY, s) {
            Some(len) => match exact_len(len, 2) {
                Ok(_) => {
                    let start = 1 + len_width(len);
                    match annotated_result(
                        Self::parse_body(s.skip(start as int), len),
                        "SaltedElementItem"@,
                    ) {
                        Ok((v, n)) => Ok((v, start + n)),
                        Err(e) => Err(e),
                    }
                },
                Err(f) => Err(bare(f)),
            },
            None => Err(cbor_error()),
        }
    }
}

impl SaltedElementItem {
    /// A salted element, to be written in the shortest form. The salt must
    /// be sixteen bytes.
    pub fn new(salt: Vec<u8>, value: Anyy) -> (r: Result<Self, DeserializeError>)
        ensures
            match r {
                Ok(item) => salt@.len() == 16 && item@ == (SaltedElementItemView {
                    salt: salt@,
                    value,
                    encodings: None,
                }),
                Err(e) => salt@.len() != 16 && e@ == bare(salt_out_of_range(salt@.len())),
            },
    {
        if salt.len() < SALT_LEN || salt.len() > SALT_LEN {
            return Err(DeserializeError::from_failure(salt_failure(salt.len())));
        }
        Ok(SaltedElementItem { salt, value, encodings: None })
    }

    /// Writes the element. Fails where the salt cannot be written the way
    /// its descriptor says.
    pub fn serialize(&self, out: &mut Vec<u8>) -> (r: Result<(), cbor_event::Error>)
        ensures
            r is Ok <==> self@.encodable(),
            r is Ok ==> final(out)@ == old(out)@ + self@.wire(),
    {
        let len_encoding = match &self.encodings {
            Some(e) => e.len_encoding,
            None => LenEncoding::Canonical,
        };
        let canonical = StringEncoding::Canonical;
        let salt_encoding = match &self.encodings {
            Some(e) => &e.salt_encoding,
            None => &canonical,
        };
        let _ = write_array(out, len_encoding.to_len_sz(2));
        match write_bytes_as(out, &self.salt, salt_encoding) {
            Ok(_) => {},
            Err(e) => {
                return Err(e);
            },
        }
        let _ = self.value.serialize(out);
        let r = len_encoding.end(out);
        assert(final(out)@ =~= old(out)@ + self@.wire());
        r
    }

    fn deserialize_body(raw: &mut Reader, len: LenSz) -> (r: Result<
        SaltedElementItem,
        DeserializeError,
    >)
        ensures
            decoded(
                *old(raw),
                *final(raw),
                r,
                SaltedElementItemView::parse_body(old(raw).rest(), len),
            ),
    {
        match check_element(raw, len, 0) {
            Ok(_) => {},
            Err(e) => {
                return Err(e);
            },
        }
        let (salt, salt_encoding) = match read_salt(raw) {
            Ok(x) => x,
            Err(e) => {
                return Err(e.annotate("salt"));
            },
        };
        match check_element(raw, len, 1) {
            Ok(_) => {},
            Err(e) => {
                return Err(e);
            },
        }
        let value = match Anyy::deserialize(raw) {
            Ok(x) => x,
            Err(e) => {
                return Err(e.annotate("value"));
            },
        };
        match read_closing(raw, len) {
            Ok(_) => {},
            Err(e) => {
                return Err(e);
            },
        }
        Ok(
            SaltedElementItem {
                salt,
                value,
                encodings: Some(
                    SaltedItemEncoding {
                        len_encoding: LenEncoding::from_len_sz(len),
                        salt_encoding,
                    },
                ),
            },
        )
    }

    /// Reads a salted element.
    pub fn deserialize(raw: &mut Reader) -> (r: Result<SaltedElementItem, DeserializeError>)
        ensures
            decoded(*old(raw), *final(raw), r, SaltedElementItemView::parse(old(raw).rest())),
    {
        let len = match raw.array_sz() {
            Ok(len) => len,
            Err(e) => {
                return Err(DeserializeError::from_cbor(e));
            },
        };
        match check_len(len, 2) {
            Ok(_) => {},
            Err(f) => {
                return Err(DeserializeError::from_failure(f));
            },
        }
        match Self::deserialize_body(raw, len) {
            Ok(v) => Ok(v),
            Err(e) => Err(e.annotate("SaltedElementItem")),
        }
    }
}

/// A salted disclosure: a claim or an element, inside a byte string.
#[derive(Debug)]
pub enum Salted {
    SaltedClaim { salted_claim: SaltedClaim, salted_claim_bytes_encoding: StringEncoding },
    SaltedElement { salted_element: SaltedElement, salted_element_bytes_encoding: StringEncoding },
}

/// What a `Salted` stands for.
pub enum SaltedView {
    SaltedClaim { salted_claim: SaltedClaimItemView, salted_claim_bytes_encoding: StringEncodingView },
    SaltedElement {
        salted_element: SaltedElementItemView,
        salted_element_bytes_encoding: StringEncodingView,
    },
}

impl View for Salted {
    type V = SaltedView;

    open spec fn view(&self) -> SaltedView {
        match self {
            Salted::SaltedClaim { salted_claim, salted_claim_bytes_encoding } => {
                SaltedView::SaltedClaim {
                    salted_claim: salted_claim@,
                    salted_claim_bytes_encoding: salted_claim_bytes_encoding@,
                }
            },
            Salted::SaltedElement { salted_element, salted_element_bytes_encoding } => {
                SaltedView::SaltedElement {
                    salted_element: salted_element@,
                    salted_element_bytes_encoding: salted_element_bytes_encoding@,
                }
            },
        }
    }
}

/// The failure of a disclosure that is neither a claim nor an element: why
/// it is no claim, and why it is no element.
pub open spec fn neither(claim: ErrorView, element: ErrorView) -> ErrorView {
    located(
        "Salted"@,
        FailureView::NoVariantMatchedWithCauses(
            seq![annotated(claim, "SaltedClaim"@), annotated(element, "SaltedElement"@)],
        ),
    )
}

impl SaltedView {
    /// Whether the disclosure can be written as it stands.
    pub open spec fn encodable(self) -> bool {
        match self {
            SaltedView::SaltedClaim { salted_claim, salted_claim_bytes_encoding } => {
                &&& salted_claim.encodable()
                &&& bytes_encodable(salted_claim.wire(), salted_claim_bytes_encoding)
            },
            SaltedView::SaltedElement { salted_element, salted_element_bytes_encoding } => {
                &&& salted_element.encodable()
                &&& bytes_encodable(salted_element.wire(), salted_element_bytes_encoding)
            },
        }
    }

    /// The bytes that the disclosure is written as: a byte string that holds
    /// the encoding of the claim or element.
    pub open spec fn wire(self) -> Seq<u8> {
        match self {
            SaltedView::SaltedClaim { salted_claim, salted_claim_bytes_encoding } => bytes_wire(
                salted_claim.wire(),
                salted_claim_bytes_encoding,
            ),
            SaltedView::SaltedElement {
                salted_element,
                salted_element_bytes_encoding,
            } => bytes_wire(salted_element.wire(), salted_element_bytes_encoding),
        }
    }

    /// The byte string at the start of `s`, read as a salted claim. The
    /// claim takes the whole byte string.
    pub open spec fn parse_claim(s: Seq<u8>) -> Result<(SaltedView, nat), ErrorView> {
        match parse_bytes(s) {
            Some((inner, salted_claim_bytes_encoding, n)) => match filling(
                inner.len(),
                SaltedClaimItemView::parse(inner),
            ) {
                Ok(salted_claim) => Ok(
                    (SaltedView::SaltedClaim { salted_claim, salted_claim_bytes_encoding }, n),
                ),
                Err(e) => Err(e),
            },
            None => Err(cbor_error()),
        }
    }

    /// The byte string at the start of `s`, read as a salted element. The
    /// element takes the whole byte string.
    pub open spec fn parse_element(s: Seq<u8>) -> Result<(SaltedView, nat), ErrorView> {
        match parse_bytes(s) {
            Some((inner, salted_element_bytes_encoding, n)) => match filling(
                inner.len(),
                SaltedElementItemView::parse(inner),
            ) {
                Ok(salted_element) => Ok(
                    (SaltedView::SaltedElement { salted_element, salted_element_bytes_encoding }, n),
                ),
                Err(e) => Err(e),
            },
            None => Err(cbor_error()),
        }
    }

    /// The disclosure at the start of `s`, before the error is given its
    /// place: a claim where it reads as one, else an element where it reads
    /// as one.
    pub open spec fn parse_inner(s: Seq<u8>) -> Result<(SaltedView, nat), ErrorView> {
        match Self::parse_claim(s) {
            Ok(found) => Ok(found),
            Err(claim) => match Self::parse_element(s) {
                Ok(found) => Ok(found),
                Err(element) => Err(neither(claim, element)),
            },
        }
    }

    /// The disclosure at the start of `s` and the bytes that it takes, or
    /// why there is none.
    pub open spec fn parse(s: Seq<u8>) -> Result<(SaltedView, nat), ErrorView> {
        annotated_result(Self::parse_inner(s), "Salted"@)
    }
}

impl Salted {
    /// A salted claim, to be written in the shortest form.
    pub fn new_salted_claim(salted_claim: SaltedClaim) -> (r: Self)
        ensures
            r@ == (SaltedView::SaltedClaim {
                salted_claim: salted_claim@,
                salted_claim_bytes_encoding: StringEncodingView::Canonical,
            }),
    {
        Salted::SaltedClaim { salted_claim, salted_claim_bytes_encoding: StringEncoding::Canonical }
    }

    /// A salted element, to be written in the shortest form.
    pub fn new_salted_element(salted_element: SaltedElement) -> (r: Self)
        ensures
            r@ == (SaltedView::SaltedElement {
                salted_element: salted_element@,
                salted_element_bytes_encoding: StringEncodingView::Canonical,
            }),
    {
        Salted::SaltedElement {
            salted_element,
            salted_element_bytes_encoding: StringEncoding::Canonical,
        }
    }

    /// Writes the disclosure. Fails where a part of it cannot be written
    /// the way its descriptor says.
    pub fn serialize(&self, out: &mut Vec<u8>) -> (r: Result<(), cbor_event::Error>)
        ensures
            r is Ok <==> self@.encodable(),
            r is Ok ==> final(out)@ == old(out)@ + self@.wire(),
    {
        let mut inner: Vec<u8> = Vec::new();
        match self {
            Salted::SaltedClaim { salted_claim, salted_claim_bytes_encoding } => {
                match salted_claim.serialize(&mut inner) {
                    Ok(_) => {},
                    Err(e) => {
                        return Err(e);
                    },
                }
                assert(inner@ =~= salted_claim@.wire());
                write_bytes_as(out, &inner, salted_claim_bytes_encoding)
            },
            Salted::SaltedElement { salted_element, salted_element_bytes_encoding } => {
                match salted_element.serialize(&mut inner) {
                    Ok(_) => {},
                    Err(e) => {
                        return Err(e);
                    },
                }
                assert(inner@ =~= salted_element@.wire());
                write_bytes_as(out, &inner, salted_element_bytes_encoding)
            },
        }
    }

    fn deserialize_claim(raw: &mut Reader) -> (r: Result<Salted, DeserializeError>)
        ensures
            decoded(*old(raw), *final(raw), r, SaltedView::parse_claim(old(raw).rest())),
    {
        let (bytes, salted_claim_bytes_encoding) = match read_bytes_enc(raw) {
            Ok(x) => x,
            Err(e) => {
                return Err(DeserializeError::from_cbor(e));
            },
        };
        let total = bytes.len();
        let mut inner = Reader::new(bytes);
        match SaltedClaimItem::deserialize(&mut inner) {
            Ok(salted_claim) => match check_filled(&inner, total) {
                Ok(_) => Ok(Salted::SaltedClaim { salted_claim, salted_claim_bytes_encoding }),
                Err(e) => Err(e),
            },
            Err(e) => Err(e),
        }
    }

    fn deserialize_element(raw: &mut Reader) -> (r: Result<Salted, DeserializeError>)
        ensures
            decoded(*old(raw), *final(raw), r, SaltedView::parse_element(old(raw).rest())),
    {
        let (bytes, salted_element_bytes_encoding) = match read_bytes_enc(raw) {
            Ok(x) => x,
            Err(e) => {
                return Err(DeserializeError::from_cbor(e));
            },
        };
        let total = bytes.len();
        let mut inner = Reader::new(bytes);
        match SaltedElementItem::deserialize(&mut inner) {
            Ok(salted_element) => match check_filled(&inner, total) {
                Ok(_) => Ok(Salted::SaltedElement { salted_element, salted_element_bytes_encoding }),
                Err(e) => Err(e),
            },
            Err(e) => Err(e),
        }
    }

    fn deserialize_inner(raw: &mut Reader) -> (r: Result<Salted, DeserializeError>)
        ensures
            decoded(*old(raw), *final(raw), r, SaltedView::parse_inner(old(raw).rest())),
            r is Err ==> old(raw).unmoved(final(raw)),
    {
        let initial_position = raw.position();
        let mut errs: Vec<DeserializeError> = Vec::new();
        match Self::deserialize_claim(raw) {
            Ok(found) => {
                return Ok(found);
            },
            Err(e) => {
                errs.push(e.annotate("SaltedClaim"));
                raw.seek(initial_position);
            },
        }
        match Self::deserialize_element(raw) {
            Ok(found) => {
                return Ok(found);
            },
            Err(e) => {
                errs.push(e.annotate("SaltedElement"));
                raw.seek(initial_position);
            },
        }
        let ghost causes = seq![errs@[0]@, errs@[1]@];
        let failure = DeserializeFailure::NoVariantMatchedWithCauses(errs);
        assert(failure@ == FailureView::NoVariantMatchedWithCauses(causes)) by {
            assert(failure@->NoVariantMatchedWithCauses_0 =~= causes);
        }
        Err(DeserializeError::new("Salted", failure))
    }

    /// Reads a disclosure: a claim where the input reads as one, else an
    /// element where it reads as one. Where it reads as neither, the cursor
    /// stands where it stood.
    pub fn deserialize(raw: &mut Reader) -> (r: Result<Salted, DeserializeError>)
        ensures
            decoded(*old(raw), *final(raw), r, SaltedView::parse(old(raw).rest())),
            r is Err ==> old(raw).unmoved(final(raw)),
    {
        match Self::deserialize_inner(raw) {
            Ok(v) => Ok(v),
            Err(e) => Err(e.annotate("Salted")),
        }
    }
}

/// What a list of disclosures stands for.
pub open spec fn salted_views(items: Seq<Salted>) -> Seq<SaltedView> {
    Seq::new(items.len(), |i: int| items[i]@)
}

/// The disclosure at the start of `s`, as one item of a list.
#[verifier::opaque]
pub open spec fn parse_listed(acc: Seq<SaltedView>, s: Seq<u8>) -> Result<
    (SaltedView, nat),
    ErrorView,
> {
    SaltedView::parse(s)
}

/// How one disclosure of a list is read.
pub open spec fn salted_reader() -> spec_fn(Seq<SaltedView>, Seq<u8>) -> Result<
    (SaltedView, nat),
    ErrorView,
> {
    |acc: Seq<SaltedView>, s: Seq<u8>| parse_listed(acc, s)
}

/// The list of disclosures at the start of `s`: the disclosures, how the
/// length was written, and the bytes that the list takes.
#[verifier::opaque]
pub open spec fn parse_salted_list(s: Seq<u8>) -> Result<
    ((Seq<SaltedView>, LenEncoding), nat),
    ErrorView,
> {
    match parse_len(MAJOR_ARRAY, s) {
        Some(len) => {
            let start = 1 + len_width(len);
            match parse_items(salted_reader(), len, Seq::empty(), s.skip(start as int)) {
                Ok((items, n)) => Ok(((items, LenEncoding::of(len)), start + n)),
                Err(e) => Err(e),
            }
        },
        None => Err(cbor_error()),
    }
}

/// Whether every disclosure of a list can be written as it stands.
pub open spec fn salted_list_encodable(items: Seq<SaltedView>) -> bool {
    forall|i: int| 0 <= i < items.len() ==> (#[trigger] items[i]).encodable()
}

/// The disclosures one after the other.
pub open spec fn salted_items_wire(items: Seq<SaltedView>) -> Seq<u8>
    decreases items.len(),
{
    if items.len() == 0 {
        Seq::empty()
    } else {
        salted_items_wire(items.drop_last()) + items.last().wire()
    }
}

/// The bytes that a list of disclosures is written as.
#[verifier::opaque]
pub open spec fn salted_list_wire(items: Seq<SaltedView>, enc: LenEncoding) -> Seq<u8> {
    len_head(MAJOR_ARRAY, enc.head_for(items.len() as u64)) + salted_items_wire(items)
        + enc.ending()
}

/// Writes a list of disclosures. Fails where one of them cannot be written
/// the way its descriptors say.
pub fn serialize_salted_list(items: &Vec<Salted>, enc: LenEncoding, out: &mut Vec<u8>) -> (r:
    Result<(), cbor_event::Error>)
    ensures
        r is Ok <==> salted_list_encodable(salted_views(items@)),
        r is Ok ==> final(out)@ == old(out)@ + salted_list_wire(salted_views(items@), enc),
{
    reveal(salted_list_wire);
    let ghost views = salted_views(items@);
    let _ = write_array(out, enc.to_len_sz(items.len() as u64));
    let ghost head = len_head(MAJOR_ARRAY, enc.head_for(views.len() as u64));
    let mut i: usize = 0;
    while i < items.len()
        invariant
            i <= items@.len(),
            views == salted_views(items@),
            out@ == old(out)@ + head + salted_items_wire(views.take(i as int)),
            forall|j: int| 0 <= j < i ==> (#[trigger] views[j]).encodable(),
        decreases items@.len() - i,
    {
        match items[i].serialize(out) {
            Ok(_) => {},
            Err(e) => {
                assert(!views[i as int].encodable());
                return Err(e);
            },
        }
        proof {
            let next = views.take(i + 1);
            assert(next.drop_last() =~= views.take(i as int));
            assert(next.last() == views[i as int]);
            assert(out@ =~= old(out)@ + head + salted_items_wire(next));
        }
        i = i + 1;
    }
    assert(views.take(i as int) =~= views);
    let r = enc.end(out);
    assert(final(out)@ =~= old(out)@ + salted_list_wire(views, enc));
    r
}

fn read_listed(raw: &mut Reader, Ghost(acc): Ghost<Seq<SaltedView>>) -> (r: Result<
    Salted,
    DeserializeError,
>)
    ensures
        final(raw).bytes() == old(raw).bytes(),
        match parse_listed(acc, old(raw).rest()) {
            Ok((item, n)) => {
                &&& r matches Ok(x)
                &&& x@ == item
                &&& old(raw).advanced(final(raw), n)
                &&& 0 < n <= old(raw).rest().len()
            },
            Err(e) => r matches Err(x) && x@ == e,
        },
{
    reveal(parse_listed);
    reveal(parse_bytes);
    let at = raw.position();
    let r = Salted::deserialize(raw);
    let after = raw.position();
    r
}

/// Reads a list of disclosures.
pub fn deserialize_salted_list(raw: &mut Reader) -> (r: Result<
    (Vec<Salted>, LenEncoding),
    DeserializeError,
>)
    ensures
        final(raw).bytes() == old(raw).bytes(),
        match parse_salted_list(old(raw).rest()) {
            Ok(((items, enc), n)) => r matches Ok(x) && salted_views(x.0@) == items && x.1 == enc
                && old(raw).advanced(final(raw), n),
            Err(e) => r matches Err(x) && x@ == e,
        },
{
    reveal(parse_salted_list);
    let len = match raw.array_sz() {
        Ok(len) => len,
        Err(e) => {
            return Err(DeserializeError::from_cbor(e));
        },
    };
    let ghost start = 1 + len_width(len);
    let ghost body = raw.rest();
    let ghost whole = parse_items(salted_reader(), len, Seq::empty(), body);
    let mut items: Vec<Salted> = Vec::new();
    let ghost mut used: nat = 0;
    assert(salted_views(items@) =~= Seq::<SaltedView>::empty());
    loop
        invariant
            raw.bytes() == old(raw).bytes(),
            old(raw).advanced(raw, start + used),
            parse_len(MAJOR_ARRAY, old(raw).rest()) == Some(len),
            start == 1 + len_width(len),
            body == old(raw).rest().skip(start as int),
            whole == parse_items(salted_reader(), len, Seq::empty(), body),
            whole == shifted(
                parse_items(salted_reader(), len, salted_views(items@), raw.rest()),
                used,
            ),
        decreases raw.bytes().len() - raw.offset(),
    {
        reveal(parse_salted_list);
        let at = raw.position();
        if !more_items(len, items.len()) {
            return Ok((items, LenEncoding::from_len_sz(len)));
        }
        match next_item(raw, len, items.len()) {
            Ok(Next::Item) => {},
            Ok(Next::End) => {
                return Ok((items, LenEncoding::from_len_sz(len)));
            },
            Err(e) => {
                return Err(e);
            },
        }
        let item = match read_listed(raw, Ghost(salted_views(items@))) {
            Ok(item) => item,
            Err(e) => {
                return Err(e);
            },
        };
        let after = raw.position();
        let ghost before = salted_views(items@);
        items.push(item);
        proof {
            assert(salted_views(items@) =~= before.push(item@));
            used = used + (after - at) as nat;
        }
    }
}

} // verus!
