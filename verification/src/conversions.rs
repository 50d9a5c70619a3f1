//! How the descriptors of lengths and of strings are made of what the
//! reader found.

use crate::serialization::{LenEncoding, StringEncoding};
use cbor_event::{LenSz, StringLenSz};
use vstd::prelude::*;
use vstd::std_specs::convert::FromSpecImpl;

verus! {

impl From<LenSz> for LenEncoding {
    fn from(len_sz: LenSz) -> (r: Self) {
        LenEncoding::from_len_sz(len_sz)
    }
}

impl FromSpecImpl<LenSz> for LenEncoding {
    open spec fn obeys_from_spec() -> bool {
        true
    }

    open spec fn from_spec(len_sz: LenSz) -> Self {
        LenEncoding::of(len_sz)
    }
}

impl From<StringLenSz> for StringEncoding {
    fn from(len_sz: StringLenSz) -> (r: Self) {
        match len_sz {
            StringLenSz::Len(sz) => StringEncoding::Definite(sz),
            StringLenSz::Indefinite(lens) => StringEncoding::Indefinite(lens),
        }
    }
}

impl FromSpecImpl<StringLenSz> for StringEncoding {
    open spec fn obeys_from_spec() -> bool {
        true
    }

    open spec fn from_spec(len_sz: StringLenSz) -> Self {
        match len_sz {
            StringLenSz::Len(sz) => StringEncoding::Definite(sz),
            StringLenSz::Indefinite(lens) => StringEncoding::Indefinite(lens),
        }
    }
}

} // verus!
