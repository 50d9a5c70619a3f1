//! The value of an extension entry. It has one form on the wire: an array
//! that holds the single number zero.

use crate::cbor_encodings::AnyyEncoding;
use crate::error::{
    annotated_result, bare, cbor_error, DeserializeError, DeserializeFailure, ErrorView,
    FailureView, Key, KeyView,
};
use crate::raw::{write_array, write_unsigned_integer};
use crate::reader::{decoded, decoded_plain, Reader};
use crate::serialization::{
    check_element, check_len, element, exact_len, fit_sz, fitting, parse_closing, read_closing,
    LenEncoding,
};
use crate::wire::{head, len_head, len_width, parse_arg, parse_len, width, MAJOR_ARRAY, MAJOR_UINT};
use cbor_event::{LenSz, Sz};
use vstd::prelude::*;

verus! {

broadcast use {vstd::seq_lib::lemma_seq_skip_of_skip, vstd::seq_lib::lemma_seq_skip_nothing};

/// The value of an extension entry, with its wire form where it was decoded.
#[derive(Clone, Copy, Debug)]
pub struct Anyy {
    pub encodings: Option<AnyyEncoding>,
}

impl View for Anyy {
    type V = Anyy;

    open spec fn view(&self) -> Anyy {
        *self
    }
}

impl Default for Anyy {
    fn default() -> (r: Self)
        ensures
            r == (Anyy { encodings: None }),
    {
        Anyy { encodings: None }
    }
}

impl Anyy {
    /// How the length of the array is written.
    pub open spec fn len_encoding(self) -> LenEncoding {
        match self.encodings {
            Some(e) => e.len_encoding,
            None => LenEncoding::Canonical,
        }
    }

    /// The width that the number zero is written with.
    pub open spec fn index_0_width(self) -> Sz {
        match self.encodings {
            Some(e) => fitting(0, e.index_0_encoding),
            None => fitting(0, None),
        }
    }

    /// The bytes that the value is written as.
    #[verifier::opaque]
    pub open spec fn wire(self) -> Seq<u8> {
        len_head(MAJOR_ARRAY, self.len_encoding().head_for(1)) + head(
            MAJOR_UINT,
            0,
            self.index_0_width(),
        ) + self.len_encoding().ending()
    }

    /// The number zero at the start of `s`: the width of its head.
    pub open spec fn parse_index_0(s: Seq<u8>) -> Result<(Sz, nat), ErrorView> {
        match parse_arg(MAJOR_UINT, s) {
            Some((value, sz)) => if value != 0 {
                Err(
                    bare(
                        FailureView::FixedValueMismatch {
                            found: KeyView::Uint(value),
                            expected: KeyView::Uint(0),
                        },
                    ),
                )
            } else {
                Ok((sz, 1 + width(sz)))
            },
            None => Err(cbor_error()),
        }
    }

    /// What follows the head of the array.
    pub open spec fn parse_body(s: Seq<u8>, len: LenSz) -> Result<(Anyy, nat), ErrorView> {
        match element(len, 0, s, annotated_result(Self::parse_index_0(s), "index_0"@)) {
            Ok((sz, n)) => match parse_closing(s.skip(n as int), len) {
                Ok((_, m)) => Ok(
                    (
                        Anyy {
                            encodings: Some(
                                AnyyEncoding {
                                    len_encoding: LenEncoding::of(len),
                                    index_0_encoding: Some(sz),
                                },
                            ),
                        },
                        n + m,
                    ),
                ),
                Err(e) => Err(e),
            },
            Err(e) => Err(e),
        }
    }

    /// The value at the start of `s` and the bytes that it takes, or why
    /// there is none.
    #[verifier::opaque]
    pub open spec fn parse(s: Seq<u8>) -> Result<(Anyy, nat), ErrorView> {
        match parse_len(MAJOR_ARRAY, s) {
            Some(len) => match exact_len(len, 1) {
                Ok(_) => {
                    let start = 1 + len_width(len);
                    match annotated_result(Self::parse_body(s.skip(start as int), len), "Anyy"@) {
                        Ok((v, n)) => Ok((v, start + n)),
                        Err(e) => Err(e),
                    }
                },
                Err(f) => Err(bare(f)),
            },
            None => Err(cbor_error()),
        }
    }

    /// A value that is written in the shortest form.
    pub fn new() -> (r: Self)
        ensures
            r == (Anyy { encodings: None }),
    {
        Anyy { encodings: None }
    }

    /// Writes the value.
    pub fn serialize(&self, out: &mut Vec<u8>) -> (r: Result<(), cbor_event::Error>)
        ensures
            r is Ok,
            final(out)@ == old(out)@ + self.wire(),
    {
        reveal(Anyy::wire);
        let (len_encoding, index_0_encoding) = match self.encodings {
            Some(e) => (e.len_encoding, e.index_0_encoding),
            None => (LenEncoding::Canonical, None),
        };
        let _ = write_array(out, len_encoding.to_len_sz(1));
        let _ = write_unsigned_integer(out, 0u64, fit_sz(0u64, index_0_encoding));
        let r = len_encoding.end(out);
        assert(final(out)@ =~= old(out)@ + self.wire());
        r
    }

    fn deserialize_index_0(raw: &mut Reader) -> (r: Result<Sz, DeserializeError>)
        ensures
            decoded_plain(*old(raw), *final(raw), r, Self::parse_index_0(old(raw).rest())),
    {
        match raw.unsigned_integer_sz() {
            Ok((value, sz)) => {
                if value != 0 {
                    Err(
                        DeserializeError::from_failure(
                            DeserializeFailure::FixedValueMismatch {
                                found: Key::Uint(value),
                                expected: Key::Uint(0),
                            },
                        ),
                    )
                } else {
                    Ok(sz)
                }
            },
            Err(e) => Err(DeserializeError::from_cbor(e)),
        }
    }

    fn deserialize_body(raw: &mut Reader, len: LenSz) -> (r: Result<Anyy, DeserializeError>)
        ensures
            decoded(*old(raw), *final(raw), r, Self::parse_body(old(raw).rest(), len)),
    {
        match check_element(raw, len, 0) {
            Ok(_) => {},
            Err(e) => {
                return Err(e);
            },
        }
        let sz = match Self::deserialize_index_0(raw) {
            Ok(sz) => sz,
            Err(e) => {
                return Err(e.annotate("index_0"));
            },
        };
        match read_closing(raw, len) {
            Ok(_) => {},
            Err(e) => {
                return Err(e);
            },
        }
        Ok(
            Anyy {
                encodings: Some(
                    AnyyEncoding {
                        len_encoding: LenEncoding::from_len_sz(len),
                        index_0_encoding: Some(sz),
                    },
                ),
            },
        )
    }

    /// Reads a value.
    pub fn deserialize(raw: &mut Reader) -> (r: Result<Anyy, DeserializeError>)
        ensures
            decoded(*old(raw), *final(raw), r, Self::parse(old(raw).rest())),
    {
        reveal(Anyy::parse);
        let len = match raw.array_sz() {
            Ok(len) => len,
            Err(e) => {
                return Err(DeserializeError::from_cbor(e));
            },
        };
        match check_len(len, 1) {
            Ok(_) => {},
            Err(f) => {
                return Err(DeserializeError::from_failure(f));
            },
        }
        match Self::deserialize_body(raw, len) {
            Ok(v) => Ok(v),
            Err(e) => Err(e.annotate("Anyy")),
        }
    }
}

} // verus!
