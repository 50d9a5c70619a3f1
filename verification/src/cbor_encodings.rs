//! The wire forms that decoded values keep beside their content.

use crate::serialization::{LenEncoding, StringEncoding, StringEncodingView};
use cbor_event::Sz;
use vstd::prelude::*;

verus! {

/// How an `Anyy` was written.
#[derive(Clone, Copy, Debug)]
pub struct AnyyEncoding {
    pub len_encoding: LenEncoding,
    pub index_0_encoding: Option<Sz>,
}

impl Default for AnyyEncoding {
    fn default() -> (r: Self)
        ensures
            r == (AnyyEncoding { len_encoding: LenEncoding::Canonical, index_0_encoding: None }),
    {
        AnyyEncoding { len_encoding: LenEncoding::Canonical, index_0_encoding: None }
    }
}

/// How a salted item was written: the length of its array and its salt.
#[derive(Debug)]
pub struct SaltedItemEncoding {
    pub len_encoding: LenEncoding,
    pub salt_encoding: StringEncoding,
}

/// What a `SaltedItemEncoding` stands for.
pub struct SaltedItemEncodingView {
    pub len_encoding: LenEncoding,
    pub salt_encoding: StringEncodingView,
}

impl View for SaltedItemEncoding {
    type V = SaltedItemEncodingView;

    open spec fn view(&self) -> SaltedItemEncodingView {
        SaltedItemEncodingView {
            len_encoding: self.len_encoding,
            salt_encoding: self.salt_encoding@,
        }
    }
}

impl Clone for SaltedItemEncoding {
    fn clone(&self) -> (r: Self)
        ensures
            r@ == self@,
    {
        SaltedItemEncoding {
            len_encoding: self.len_encoding,
            salt_encoding: self.salt_encoding.clone(),
        }
    }
}

impl Default for SaltedItemEncoding {
    fn default() -> (r: Self)
        ensures
            r@ == (SaltedItemEncodingView {
                len_encoding: LenEncoding::Canonical,
                salt_encoding: StringEncodingView::Canonical,
            }),
    {
        SaltedItemEncoding {
            len_encoding: LenEncoding::Canonical,
            salt_encoding: StringEncoding::Canonical,
        }
    }
}

/// How a `SaltedClaimItem` was written.
pub type SaltedClaimItemEncoding = SaltedItemEncoding;

/// How a `SaltedElementItem` was written.
pub type SaltedElementItemEncoding = SaltedItemEncoding;

} // verus!
