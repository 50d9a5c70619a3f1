//! The token: under the tag 18, an array of the protected header, the
//! unprotected header, the claims and the signature. The protected header
//! and the claims each stand inside a byte string that holds their
//! encoding; a signature is made and checked over those byte strings as they
//! were sent.

use crate::error::{
    annotated_result, bare, cbor_error, located, DeserializeError, DeserializeFailure, ErrorView,
    FailureView,
};
use crate::payload::{SdPayload, SdPayloadView};
use crate::protected::{SdProtected, SdProtectedView};
use crate::raw::{write_array, write_tag};
use crate::reader::{decoded, Reader};
use crate::serialization::{
    bytes_encodable, bytes_wire, check_element, check_filled, check_len, element, exact_len,
    filling, fit_sz, fitting, parse_bytes, parse_closing, read_bytes_enc, read_closing, shifted,
    write_bytes_as, LenEncoding, StringEncoding, StringEncodingView,
};
use crate::unprotected::{Unprotected, UnprotectedView};
use crate::wire::{head, len_head, len_width, parse_arg, parse_len, width, MAJOR_ARRAY, MAJOR_TAG};
use cbor_event::{LenSz, Sz};
use vstd::prelude::*;

verus! {

broadcast use {vstd::seq_lib::lemma_seq_skip_of_skip, vstd::seq_lib::lemma_seq_skip_nothing};

/// The tag of a token.
pub const TAG: u64 = 18;

/// How a token was written.
#[derive(Debug)]
pub struct SdCwtEncoding {
    pub len_encoding: LenEncoding,
    pub tag_encoding: Option<Sz>,
    pub protected_bytes_encoding: StringEncoding,
    pub payload_bytes_encoding: StringEncoding,
    pub signature_encoding: StringEncoding,
}

/// What an `SdCwtEncoding` stands for.
pub struct SdCwtEncodingView {
    pub len_encoding: LenEncoding,
    pub tag_encoding: Option<Sz>,
    pub protected_bytes_encoding: StringEncodingView,
    pub payload_bytes_encoding: StringEncodingView,
    pub signature_encoding: StringEncodingView,
}

impl View for SdCwtEncoding {
    type V = SdCwtEncodingView;

    open spec fn view(&self) -> SdCwtEncodingView {
        SdCwtEncodingView {
            len_encoding: self.len_encoding,
            tag_encoding: self.tag_encoding,
            protected_bytes_encoding: self.protected_bytes_encoding@,
            payload_bytes_encoding: self.payload_bytes_encoding@,
            signature_encoding: self.signature_encoding@,
        }
    }
}

impl SdCwtEncodingView {
    /// The wire form of a token that is written in the shortest form.
    pub open spec fn plain() -> SdCwtEncodingView {
        SdCwtEncodingView {
            len_encoding: LenEncoding::Canonical,
            tag_encoding: None,
            protected_bytes_encoding: StringEncodingView::Canonical,
            payload_bytes_encoding: StringEncodingView::Canonical,
            signature_encoding: StringEncodingView::Canonical,
        }
    }
}

impl Default for SdCwtEncoding {
    fn default() -> (r: Self)
        ensures
            r@ == SdCwtEncodingView::plain(),
    {
        SdCwtEncoding {
            len_encoding: LenEncoding::Canonical,
            tag_encoding: None,
            protected_bytes_encoding: StringEncoding::Canonical,
            payload_bytes_encoding: StringEncoding::Canonical,
            signature_encoding: StringEncoding::Canonical,
        }
    }
}

/// A token.
#[derive(Debug)]
pub struct SdCwt {
    pub protected: SdProtected,
    pub unprotected: Unprotected,
    pub payload: SdPayload,
    pub signature: Vec<u8>,
    pub encodings: Option<SdCwtEncoding>,
}

/// What an `SdCwt` stands for.
pub struct SdCwtView {
    pub protected: SdProtectedView,
    pub unprotected: UnprotectedView,
    pub payload: SdPayloadView,
    pub signature: Seq<u8>,
    pub encodings: Option<SdCwtEncodingView>,
}

impl View for SdCwt {
    type V = SdCwtView;

    open spec fn view(&self) -> SdCwtView {
        SdCwtView {
            protected: self.protected@,
            unprotected: self.unprotected@,
            payload: self.payload@,
            signature: self.signature@,
            encodings: match self.encodings {
                Some(e) => Some(e@),
                None => None,
            },
        }
    }
}

/// The failure for a tag that is not the tag of a token.
pub open spec fn wrong_tag(found: u64) -> ErrorView {
    located("SdCwt"@, FailureView::TagMismatch { found, expected: 18 })
}

/// The protected header inside the byte string at the start of `s`, and how
/// the byte string was written. The header takes the whole byte string.
#[verifier::opaque]
pub open spec fn parse_wrapped_protected(s: Seq<u8>) -> Result<
    ((SdProtectedView, StringEncodingView), nat),
    ErrorView,
> {
    match parse_bytes(s) {
        Some((inner, enc, n)) => match filling(inner.len(), SdProtectedView::parse(inner)) {
            Ok(v) => Ok(((v, enc), n)),
            Err(e) => Err(e),
        },
        None => Err(cbor_error()),
    }
}

/// The claims inside the byte string at the start of `s`, and how the byte
/// string was written. The claims take the whole byte string.
#[verifier::opaque]
pub open spec fn parse_wrapped_payload(s: Seq<u8>) -> Result<
    ((SdPayloadView, StringEncodingView), nat),
    ErrorView,
> {
    match parse_bytes(s) {
        Some((inner, enc, n)) => match filling(inner.len(), SdPayloadView::parse(inner)) {
            Ok(v) => Ok(((v, enc), n)),
            Err(e) => Err(e),
        },
        None => Err(cbor_error()),
    }
}

/// The signature at the start of `s`, and how it was written.
#[verifier::opaque]
pub open spec fn parse_signature(s: Seq<u8>) -> Result<((Seq<u8>, StringEncodingView), nat), ErrorView> {
    match parse_bytes(s) {
        Some((data, enc, n)) => Ok(((data, enc), n)),
        None => Err(cbor_error()),
    }
}

impl SdCwtView {
    /// The wire form that the token is written in.
    pub open spec fn form(self) -> SdCwtEncodingView {
        match self.encodings {
            Some(e) => e,
            None => SdCwtEncodingView::plain(),
        }
    }

    /// Whether every number in the orders that the fields of the headers and
    /// of the claims are written in is the number of a field.
    pub open spec fn well_formed(self) -> bool {
        &&& self.protected.well_formed()
        &&& self.unprotected.well_formed()
        &&& self.payload.well_formed()
    }

    /// Whether the token can be written as it stands.
    pub open spec fn encodable(self) -> bool {
        &&& self.protected.encodable()
        &&& bytes_encodable(self.protected.wire(), self.form().protected_bytes_encoding)
        &&& self.unprotected.encodable()
        &&& self.payload.encodable()
        &&& bytes_encodable(self.payload.wire(), self.form().payload_bytes_encoding)
        &&& bytes_encodable(self.signature, self.form().signature_encoding)
    }

    /// The bytes that the token is written as.
    pub open spec fn wire(self) -> Seq<u8> {
        head(MAJOR_TAG, 18, fitting(18, self.form().tag_encoding)) + len_head(
            MAJOR_ARRAY,
            self.form().len_encoding.head_for(4),
        ) + bytes_wire(self.protected.wire(), self.form().protected_bytes_encoding)
            + self.unprotected.wire() + bytes_wire(
            self.payload.wire(),
            self.form().payload_bytes_encoding,
        ) + bytes_wire(self.signature, self.form().signature_encoding)
            + self.form().len_encoding.ending()
    }

    /// What follows the head of the array.
    #[verifier::opaque]
    pub open spec fn parse_body(s: Seq<u8>, tag_enc: Sz, len: LenSz) -> Result<
        (SdCwtView, nat),
        ErrorView,
    > {
        match element(len, 0, s, annotated_result(parse_wrapped_protected(s), "protected"@)) {
            Ok(((protected, protected_bytes_encoding), a)) => match element(
                len,
                1,
                s.skip(a as int),
                annotated_result(UnprotectedView::parse(s.skip(a as int)), "unprotected"@),
            ) {
                Ok((unprotected, b)) => match element(
                    len,
                    2,
                    s.skip((a + b) as int),
                    annotated_result(parse_wrapped_payload(s.skip((a + b) as int)), "payload"@),
                ) {
                    Ok(((payload, payload_bytes_encoding), c)) => match element(
                        len,
                        3,
                        s.skip((a + b + c) as int),
                        annotated_result(
                            parse_signature(s.skip((a + b + c) as int)),
                            "signature"@,
                        ),
                    ) {
                        Ok(((signature, signature_encoding), d)) => match parse_closing(
                            s.skip((a + b + c + d) as int),
                            len,
                        ) {
                            Ok((_, e)) => Ok(
                                (
                                    SdCwtView {
                                        protected,
                                        unprotected,
                                        payload,
                                        signature,
                                        encodings: Some(
                                            SdCwtEncodingView {
                                                len_encoding: LenEncoding::of(len),
                                                tag_encoding: Some(tag_enc),
                                                protected_bytes_encoding,
                                                payload_bytes_encoding,
                                                signature_encoding,
                                            },
                                        ),
                                    },
                                    a + b + c + d + e,
                                ),
                            ),
                            Err(e) => Err(e),
                        },
                        Err(e) => Err(e),
                    },
                    Err(e) => Err(e),
                },
                Err(e) => Err(e),
            },
            Err(e) => Err(e),
        }
    }

    /// What follows the tag.
    pub open spec fn parse_array(s: Seq<u8>, tag_enc: Sz) -> Result<(SdCwtView, nat), ErrorView> {
        match parse_len(MAJOR_ARRAY, s) {
            Some(len) => match exact_len(len, 4) {
                Ok(_) => shifted(
                    annotated_result(
                        Self::parse_body(s.skip(1 + len_width(len) as int), tag_enc, len),
                        "SdCwt"@,
                    ),
                    1 + len_width(len),
                ),
                Err(f) => Err(bare(f)),
            },
            None => Err(cbor_error()),
        }
    }

    /// The token at the start of `s` and the bytes that it takes, or why
    /// there is none.
    pub open spec fn parse(s: Seq<u8>) -> Result<(SdCwtView, nat), ErrorView> {
        match parse_arg(MAJOR_TAG, s) {
            Some((tag, tag_enc)) => if tag != 18 {
                Err(wrong_tag(tag))
            } else {
                shifted(
                    Self::parse_array(s.skip(1 + width(tag_enc) as int), tag_enc),
                    1 + width(tag_enc),
                )
            },
            None => Err(cbor_error()),
        }
    }
}

fn read_wrapped_protected(raw: &mut Reader) -> (r: Result<
    (SdProtected, StringEncoding),
    DeserializeError,
>)
    ensures
        final(raw).bytes() == old(raw).bytes(),
        match parse_wrapped_protected(old(raw).rest()) {
            Ok(((v, enc), n)) => r matches Ok(x) && x.0@ == v && x.1@ == enc && old(raw).advanced(
                final(raw),
                n,
            ),
            Err(e) => r matches Err(x) && x@ == e,
        },
{
    reveal(parse_wrapped_protected);
    let (bytes, enc) = match read_bytes_enc(raw) {
        Ok(x) => x,
        Err(e) => {
            return Err(DeserializeError::from_cbor(e));
        },
    };
    let total = bytes.len();
    let mut inner = Reader::new(bytes);
    match SdProtected::deserialize(&mut inner) {
        Ok(v) => match check_filled(&inner, total) {
            Ok(_) => Ok((v, enc)),
            Err(e) => Err(e),
        },
        Err(e) => Err(e),
    }
}

fn read_wrapped_payload(raw: &mut Reader) -> (r: Result<
    (SdPayload, StringEncoding),
    DeserializeError,
>)
    ensures
        final(raw).bytes() == old(raw).bytes(),
        match parse_wrapped_payload(old(raw).rest()) {
            Ok(((v, enc), n)) => r matches Ok(x) && x.0@ == v && x.1@ == enc && old(raw).advanced(
                final(raw),
                n,
            ),
            Err(e) => r matches Err(x) && x@ == e,
        },
{
    reveal(parse_wrapped_payload);
    let (bytes, enc) = match read_bytes_enc(raw) {
        Ok(x) => x,
        Err(e) => {
            return Err(DeserializeError::from_cbor(e));
        },
    };
    let total = bytes.len();
    let mut inner = Reader::new(bytes);
    match SdPayload::deserialize(&mut inner) {
        Ok(v) => match check_filled(&inner, total) {
            Ok(_) => Ok((v, enc)),
            Err(e) => Err(e),
        },
        Err(e) => Err(e),
    }
}

fn read_signature(raw: &mut Reader) -> (r: Result<(Vec<u8>, StringEncoding), DeserializeError>)
    ensures
        final(raw).bytes() == old(raw).bytes(),
        match parse_signature(old(raw).rest()) {
            Ok(((v, enc), n)) => r matches Ok(x) && x.0@ == v && x.1@ == enc && old(raw).advanced(
                final(raw),
                n,
            ),
            Err(e) => r matches Err(x) && x@ == e,
        },
{
    reveal(parse_signature);
    match read_bytes_enc(raw) {
        Ok(x) => Ok(x),
        Err(e) => Err(DeserializeError::from_cbor(e)),
    }
}

impl SdCwt {
    /// A token, to be written in the shortest form.
    pub fn new(
        protected: SdProtected,
        unprotected: Unprotected,
        payload: SdPayload,
        signature: Vec<u8>,
    ) -> (r: Self)
        ensures
            r@ == (SdCwtView {
                protected: protected@,
                unprotected: unprotected@,
                payload: payload@,
                signature: signature@,
                encodings: None,
            }),
    {
        SdCwt { protected, unprotected, payload, signature, encodings: None }
    }

    /// Writes the token. Fails where a part of it cannot be written the way
    /// its descriptor says. Every number in a recorded order must be the
    /// number of a field.
    pub fn serialize(&self, out: &mut Vec<u8>) -> (r: Result<(), cbor_event::Error>)
        requires
            self@.well_formed(),
        ensures
            r is Ok <==> self@.encodable(),
            r is Ok ==> final(out)@ == old(out)@ + self@.wire(),
    {
        let plain = SdCwtEncoding::default();
        let form = match &self.encodings {
            Some(e) => e,
            None => &plain,
        };
        let _ = write_tag(out, TAG, fit_sz(TAG, form.tag_encoding));
        let _ = write_array(out, form.len_encoding.to_len_sz(4));
        let mut protected_bytes: Vec<u8> = Vec::new();
        match self.protected.serialize(&mut protected_bytes) {
            Ok(_) => {},
            Err(e) => {
                return Err(e);
            },
        }
        assert(protected_bytes@ =~= self@.protected.wire());
        match write_bytes_as(out, &protected_bytes, &form.protected_bytes_encoding) {
            Ok(_) => {},
            Err(e) => {
                return Err(e);
            },
        }
        match self.unprotected.serialize(out) {
            Ok(_) => {},
            Err(e) => {
                return Err(e);
            },
        }
        let mut payload_bytes: Vec<u8> = Vec::new();
        match self.payload.serialize(&mut payload_bytes) {
            Ok(_) => {},
            Err(e) => {
                return Err(e);
            },
        }
        assert(payload_bytes@ =~= self@.payload.wire());
        match write_bytes_as(out, &payload_bytes, &form.payload_bytes_encoding) {
            Ok(_) => {},
            Err(e) => {
                return Err(e);
            },
        }
        match write_bytes_as(out, &self.signature, &form.signature_encoding) {
            Ok(_) => {},
            Err(e) => {
                return Err(e);
            },
        }
        let r = form.len_encoding.end(out);
        assert(final(out)@ =~= old(out)@ + self@.wire());
        r
    }

    fn deserialize_body(raw: &mut Reader, tag_enc: Sz, len: LenSz) -> (r: Result<
        SdCwt,
        DeserializeError,
    >)
        ensures
            decoded(
                *old(raw),
                *final(raw),
                r,
                SdCwtView::parse_body(old(raw).rest(), tag_enc, len),
            ),
    {
        reveal(SdCwtView::parse_body);
        match check_element(raw, len, 0) {
            Ok(_) => {},
            Err(e) => {
                return Err(e);
            },
        }
        let (protected, protected_bytes_encoding) = match read_wrapped_protected(raw) {
            Ok(x) => x,
            Err(e) => {
                return Err(e.annotate("protected"));
            },
        };
        match check_element(raw, len, 1) {
            Ok(_) => {},
            Err(e) => {
                return Err(e);
            },
        }
        let unprotected = match Unprotected::deserialize(raw) {
            Ok(x) => x,
            Err(e) => {
                return Err(e.annotate("unprotected"));
            },
        };
        match check_element(raw, len, 2) {
            Ok(_) => {},
            Err(e) => {
                return Err(e);
            },
        }
        let (payload, payload_bytes_encoding) = match read_wrapped_payload(raw) {
            Ok(x) => x,
            Err(e) => {
                return Err(e.annotate("payload"));
            },
        };
        match check_element(raw, len, 3) {
            Ok(_) => {},
            Err(e) => {
                return Err(e);
            },
        }
        let (signature, signature_encoding) = match read_signature(raw) {
            Ok(x) => x,
            Err(e) => {
                return Err(e.annotate("signature"));
            },
        };
        match read_closing(raw, len) {
            Ok(_) => {},
            Err(e) => {
                return Err(e);
            },
        }
        Ok(
            SdCwt {
                protected,
                unprotected,
                payload,
                signature,
                encodings: Some(
                    SdCwtEncoding {
                        len_encoding: LenEncoding::from_len_sz(len),
                        tag_encoding: Some(tag_enc),
                        protected_bytes_encoding,
                        payload_bytes_encoding,
                        signature_encoding,
                    },
                ),
            },
        )
    }

    fn deserialize_array(raw: &mut Reader, tag_enc: Sz) -> (r: Result<SdCwt, DeserializeError>)
        ensures
            decoded(*old(raw), *final(raw), r, SdCwtView::parse_array(old(raw).rest(), tag_enc)),
    {
        let len = match raw.array_sz() {
            Ok(len) => len,
            Err(e) => {
                return Err(DeserializeError::from_cbor(e));
            },
        };
        match check_len(len, 4) {
            Ok(_) => {},
            Err(f) => {
                return Err(DeserializeError::from_failure(f));
            },
        }
        match Self::deserialize_body(raw, tag_enc, len) {
            Ok(v) => Ok(v),
            Err(e) => Err(e.annotate("SdCwt")),
        }
    }

    /// Reads a token.
    pub fn deserialize(raw: &mut Reader) -> (r: Result<SdCwt, DeserializeError>)
        ensures
            decoded(*old(raw), *final(raw), r, SdCwtView::parse(old(raw).rest())),
    {
        let (tag, tag_enc) = match raw.tag_sz() {
            Ok(x) => x,
            Err(e) => {
                return Err(DeserializeError::from_cbor(e));
            },
        };
        if tag != TAG {
            return Err(
                DeserializeError::new(
                    "SdCwt",
                    DeserializeFailure::TagMismatch { found: tag, expected: 18 },
                ),
            );
        }
        Self::deserialize_array(raw, tag_enc)
    }
}

} // verus!
