//! The two ends of the codec: a value to its bytes, and bytes to a value.

use crate::anyy::Anyy;
use crate::error::{DeserializeError, ErrorView};
use crate::int_or_text::{IntOrText, IntOrTextView, Keyy};
use crate::integer::Int;
use crate::payload::{SdPayload, SdPayloadView};
use crate::protected::{SdProtected, SdProtectedView};
use crate::reader::{decoded, Reader};
use crate::salted::{
    Salted, SaltedClaimItem, SaltedClaimItemView, SaltedElementItem, SaltedElementItemView,
    SaltedView,
};
use crate::sd_cwt::{SdCwt, SdCwtView};
use crate::unprotected::{Unprotected, UnprotectedView};
use vstd::pervasive::unreached;
use vstd::prelude::*;
use vstd::slice::slice_to_vec;

verus! {

/// Values that have a CBOR encoding.
pub trait ToCBORBytes {
    /// Whether the value can be written as it stands.
    spec fn encodable(&self) -> bool;

    /// The bytes that the value is written as.
    spec fn wire(&self) -> Seq<u8>;

    /// The CBOR encoding of the value, which must be one that can be
    /// written.
    fn to_cbor_bytes(&self) -> (r: Vec<u8>)
        requires
            self.encodable(),
        ensures
            r@ == self.wire(),
    ;
}

/// Values that can be read from a CBOR encoding.
pub trait Deserialize: Sized + View {
    /// The value at the start of `s` and the bytes that it takes, or why
    /// there is none.
    spec fn parse(s: Seq<u8>) -> Result<(Self::V, nat), ErrorView>;

    /// Reads a value from where the cursor stands.
    fn deserialize(raw: &mut Reader) -> (r: Result<Self, DeserializeError>)
        ensures
            decoded(*old(raw), *final(raw), r, Self::parse(old(raw).rest())),
    ;

    /// Reads a value from the start of `data`. What follows the value is not
    /// looked at.
    fn from_cbor_bytes(data: &[u8]) -> (r: Result<Self, DeserializeError>)
        ensures
            match Self::parse(data@) {
                Ok((v, _)) => r matches Ok(x) && x@ == v,
                Err(e) => r matches Err(x) && x@ == e,
            },
    {
        let mut raw = Reader::new(slice_to_vec(data));
        assert(raw.rest() =~= data@);
        Self::deserialize(&mut raw)
    }
}

impl ToCBORBytes for Int {
    open spec fn encodable(&self) -> bool {
        true
    }

    open spec fn wire(&self) -> Seq<u8> {
        Int::wire(*self)
    }

    fn to_cbor_bytes(&self) -> (r: Vec<u8>) {
        let mut out: Vec<u8> = Vec::new();
        let _ = self.serialize(&mut out);
        assert(out@ =~= Int::wire(*self));
        out
    }
}

impl Deserialize for Int {
    open spec fn parse(s: Seq<u8>) -> Result<(Int, nat), ErrorView> {
        Int::parse(s)
    }

    fn deserialize(raw: &mut Reader) -> (r: Result<Self, DeserializeError>) {
        Int::deserialize(raw)
    }
}

impl ToCBORBytes for Anyy {
    open spec fn encodable(&self) -> bool {
        true
    }

    open spec fn wire(&self) -> Seq<u8> {
        Anyy::wire(*self)
    }

    fn to_cbor_bytes(&self) -> (r: Vec<u8>) {
        let mut out: Vec<u8> = Vec::new();
        let _ = self.serialize(&mut out);
        assert(out@ =~= Anyy::wire(*self));
        out
    }
}

impl Deserialize for Anyy {
    open spec fn parse(s: Seq<u8>) -> Result<(Anyy, nat), ErrorView> {
        Anyy::parse(s)
    }

    fn deserialize(raw: &mut Reader) -> (r: Result<Self, DeserializeError>) {
        Anyy::deserialize(raw)
    }
}

impl ToCBORBytes for IntOrText {
    open spec fn encodable(&self) -> bool {
        self@.encodable()
    }

    open spec fn wire(&self) -> Seq<u8> {
        self@.wire()
    }

    fn to_cbor_bytes(&self) -> (r: Vec<u8>) {
        let mut out: Vec<u8> = Vec::new();
        match self.serialize(&mut out) {
            Ok(_) => {
                assert(out@ =~= self@.wire());
                out
            },
            Err(_) => unreached(),
        }
    }
}

impl Deserialize for IntOrText {
    open spec fn parse(s: Seq<u8>) -> Result<(IntOrTextView, nat), ErrorView> {
        IntOrTextView::parse(IntOrText::name(), s)
    }

    fn deserialize(raw: &mut Reader) -> (r: Result<Self, DeserializeError>) {
        IntOrText::deserialize(raw)
    }
}

impl ToCBORBytes for Keyy {
    open spec fn encodable(&self) -> bool {
        self@.encodable()
    }

    open spec fn wire(&self) -> Seq<u8> {
        self@.wire()
    }

    fn to_cbor_bytes(&self) -> (r: Vec<u8>) {
        let mut out: Vec<u8> = Vec::new();
        match self.serialize(&mut out) {
            Ok(_) => {
                assert(out@ =~= self@.wire());
                out
            },
            Err(_) => unreached(),
        }
    }
}

impl Deserialize for Keyy {
    open spec fn parse(s: Seq<u8>) -> Result<(IntOrTextView, nat), ErrorView> {
        IntOrTextView::parse(Keyy::name(), s)
    }

    fn deserialize(raw: &mut Reader) -> (r: Result<Self, DeserializeError>) {
        Keyy::deserialize(raw)
    }
}

impl ToCBORBytes for SaltedClaimItem {
    open spec fn encodable(&self) -> bool {
        self@.encodable()
    }

    open spec fn wire(&self) -> Seq<u8> {
        self@.wire()
    }

    fn to_cbor_bytes(&self) -> (r: Vec<u8>) {
        let mut out: Vec<u8> = Vec::new();
        match self.serialize(&mut out) {
            Ok(_) => {
                assert(out@ =~= self@.wire());
                out
            },
            Err(_) => unreached(),
        }
    }
}

impl Deserialize for SaltedClaimItem {
    open spec fn parse(s: Seq<u8>) -> Result<(SaltedClaimItemView, nat), ErrorView> {
        SaltedClaimItemView::parse(s)
    }

    fn deserialize(raw: &mut Reader) -> (r: Result<Self, DeserializeError>) {
        SaltedClaimItem::deserialize(raw)
    }
}

impl ToCBORBytes for SaltedElementItem {
    open spec fn encodable(&self) -> bool {
        self@.encodable()
    }

    open spec fn wire(&self) -> Seq<u8> {
        self@.wire()
    }

    fn to_cbor_bytes(&self) -> (r: Vec<u8>) {
        let mut out: Vec<u8> = Vec::new();
        match self.serialize(&mut out) {
            Ok(_) => {
                assert(out@ =~= self@.wire());
                out
            },
            Err(_) => unreached(),
        }
    }
}

impl Deserialize for SaltedElementItem {
    open spec fn parse(s: Seq<u8>) -> Result<(SaltedElementItemView, nat), ErrorView> {
        SaltedElementItemView::parse(s)
    }

    fn deserialize(raw: &mut Reader) -> (r: Result<Self, DeserializeError>) {
        SaltedElementItem::deserialize(raw)
    }
}

impl ToCBORBytes for Salted {
    open spec fn encodable(&self) -> bool {
        self@.encodable()
    }

    open spec fn wire(&self) -> Seq<u8> {
        self@.wire()
    }

    fn to_cbor_bytes(&self) -> (r: Vec<u8>) {
        let mut out: Vec<u8> = Vec::new();
        match self.serialize(&mut out) {
            Ok(_) => {
                assert(out@ =~= self@.wire());
                out
            },
            Err(_) => unreached(),
        }
    }
}

impl Deserialize for Salted {
    open spec fn parse(s: Seq<u8>) -> Result<(SaltedView, nat), ErrorView> {
        SaltedView::parse(s)
    }

    fn deserialize(raw: &mut Reader) -> (r: Result<Self, DeserializeError>) {
        Salted::deserialize(raw)
    }
}

impl ToCBORBytes for SdProtected {
    open spec fn encodable(&self) -> bool {
        self@.well_formed() && self@.encodable()
    }

    open spec fn wire(&self) -> Seq<u8> {
        self@.wire()
    }

    fn to_cbor_bytes(&self) -> (r: Vec<u8>) {
        let mut out: Vec<u8> = Vec::new();
        match self.serialize(&mut out) {
            Ok(_) => {
                assert(out@ =~= self@.wire());
                out
            },
            Err(_) => unreached(),
        }
    }
}

impl Deserialize for SdProtected {
    open spec fn parse(s: Seq<u8>) -> Result<(SdProtectedView, nat), ErrorView> {
        SdProtectedView::parse(s)
    }

    fn deserialize(raw: &mut Reader) -> (r: Result<Self, DeserializeError>) {
        SdProtected::deserialize(raw)
    }
}

impl ToCBORBytes for Unprotected {
    open spec fn encodable(&self) -> bool {
        self@.well_formed() && self@.encodable()
    }

    open spec fn wire(&self) -> Seq<u8> {
        self@.wire()
    }

    fn to_cbor_bytes(&self) -> (r: Vec<u8>) {
        let mut out: Vec<u8> = Vec::new();
        match self.serialize(&mut out) {
            Ok(_) => {
                assert(out@ =~= self@.wire());
                out
            },
            Err(_) => unreached(),
        }
    }
}

impl Deserialize for Unprotected {
    open spec fn parse(s: Seq<u8>) -> Result<(UnprotectedView, nat), ErrorView> {
        UnprotectedView::parse(s)
    }

    fn deserialize(raw: &mut Reader) -> (r: Result<Self, DeserializeError>) {
        Unprotected::deserialize(raw)
    }
}

impl ToCBORBytes for SdPayload {
    open spec fn encodable(&self) -> bool {
        self@.well_formed() && self@.encodable()
    }

    open spec fn wire(&self) -> Seq<u8> {
        self@.wire()
    }

    fn to_cbor_bytes(&self) -> (r: Vec<u8>) {
        let mut out: Vec<u8> = Vec::new();
        match self.serialize(&mut out) {
            Ok(_) => {
                assert(out@ =~= self@.wire());
                out
            },
            Err(_) => unreached(),
        }
    }
}

impl Deserialize for SdPayload {
    open spec fn parse(s: Seq<u8>) -> Result<(SdPayloadView, nat), ErrorView> {
        SdPayloadView::parse(s)
    }

    fn deserialize(raw: &mut Reader) -> (r: Result<Self, DeserializeError>) {
        SdPayload::deserialize(raw)
    }
}

impl ToCBORBytes for SdCwt {
    open spec fn encodable(&self) -> bool {
        self@.well_formed() && self@.encodable()
    }

    open spec fn wire(&self) -> Seq<u8> {
        self@.wire()
    }

    fn to_cbor_bytes(&self) -> (r: Vec<u8>) {
        let mut out: Vec<u8> = Vec::new();
        match self.serialize(&mut out) {
            Ok(_) => {
                assert(out@ =~= self@.wire());
                out
            },
            Err(_) => unreached(),
        }
    }
}

impl Deserialize for SdCwt {
    open spec fn parse(s: Seq<u8>) -> Result<(SdCwtView, nat), ErrorView> {
        SdCwtView::parse(s)
    }

    fn deserialize(raw: &mut Reader) -> (r: Result<Self, DeserializeError>) {
        SdCwt::deserialize(raw)
    }
}

} // verus!
