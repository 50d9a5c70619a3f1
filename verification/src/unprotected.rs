//! The unprotected header of a token: the salted disclosures under the key
//! 1111 and the key-binding token under the key 1112, each of which may be
//! missing, and the extension entries under the text key `custom`, which
//! must be there.

use crate::error::{
    annotated_result, bare, cbor_error, DeserializeError, DeserializeFailure, ErrorView,
    FailureView, Key, KeyView,
};
use crate::ordered_hash_map::{
    deserialize_table, entries_encodable, parse_table, serialize_table, table_wire, EntryView,
    OrderedHashMap,
};
use crate::raw::{write_map, write_unsigned_integer};
use crate::reader::{decoded, Reader};
use crate::salted::{
    deserialize_salted_list, parse_salted_list, salted_list_encodable, salted_list_wire,
    salted_views, serialize_salted_list, Salted, SaltedView,
};
use crate::serialization::{
    bytes_encodable, bytes_wire, claim, close, fit_sz, fitting, more_items, next_item,
    parse_bytes, parse_items, parse_text, read_bytes_enc, read_text_enc, shifted,
    text_encodable, text_wire, write_bytes_as, write_text_as, CBORReadLen, LenEncoding, Next,
    StringEncoding, StringEncodingView,
};
use crate::wire::{
    head, len_head, len_width, parse_arg, parse_len, type_of, width, MAJOR_MAP, MAJOR_UINT,
};
use cbor_event::{LenSz, Sz, Type};
use vstd::prelude::*;
use vstd::string::StringExecFns;

verus! {

broadcast use {vstd::seq_lib::lemma_seq_skip_of_skip, vstd::seq_lib::lemma_seq_skip_nothing};

/// The key of the salted disclosures.
pub const KEY_SD_CLAIMS: u64 = 1111;

/// The key of the key-binding token.
pub const KEY_SD_KBT: u64 = 1112;

/// How an unprotected header was written.
#[derive(Debug)]
pub struct UnprotectedEncoding {
    pub len_encoding: LenEncoding,
    pub orig_deser_order: Vec<usize>,
    pub sd_claims_encoding: LenEncoding,
    pub sd_claims_key_encoding: Option<Sz>,
    pub sd_kbt_encoding: StringEncoding,
    pub sd_kbt_key_encoding: Option<Sz>,
    pub custom_encoding: LenEncoding,
    pub custom_key_encoding: StringEncoding,
}

/// What an `UnprotectedEncoding` stands for.
pub struct UnprotectedEncodingView {
    pub len_encoding: LenEncoding,
    pub orig_deser_order: Seq<usize>,
    pub sd_claims_encoding: LenEncoding,
    pub sd_claims_key_encoding: Option<Sz>,
    pub sd_kbt_encoding: StringEncodingView,
    pub sd_kbt_key_encoding: Option<Sz>,
    pub custom_encoding: LenEncoding,
    pub custom_key_encoding: StringEncodingView,
}

impl View for UnprotectedEncoding {
    type V = UnprotectedEncodingView;

    open spec fn view(&self) -> UnprotectedEncodingView {
        UnprotectedEncodingView {
            len_encoding: self.len_encoding,
            orig_deser_order: self.orig_deser_order@,
            sd_claims_encoding: self.sd_claims_encoding,
            sd_claims_key_encoding: self.sd_claims_key_encoding,
            sd_kbt_encoding: self.sd_kbt_encoding@,
            sd_kbt_key_encoding: self.sd_kbt_key_encoding,
            custom_encoding: self.custom_encoding,
            custom_key_encoding: self.custom_key_encoding@,
        }
    }
}

impl UnprotectedEncodingView {
    /// The wire form of a header that is written in the shortest form, in
    /// the order of the keys.
    pub open spec fn plain() -> UnprotectedEncodingView {
        UnprotectedEncodingView {
            len_encoding: LenEncoding::Canonical,
            orig_deser_order: Seq::empty(),
            sd_claims_encoding: LenEncoding::Canonical,
            sd_claims_key_encoding: None,
            sd_kbt_encoding: StringEncodingView::Canonical,
            sd_kbt_key_encoding: None,
            custom_encoding: LenEncoding::Canonical,
            custom_key_encoding: StringEncodingView::Canonical,
        }
    }
}

impl Default for UnprotectedEncoding {
    fn default() -> (r: Self)
        ensures
            r@ == UnprotectedEncodingView::plain(),
    {
        UnprotectedEncoding {
            len_encoding: LenEncoding::Canonical,
            orig_deser_order: Vec::new(),
            sd_claims_encoding: LenEncoding::Canonical,
            sd_claims_key_encoding: None,
            sd_kbt_encoding: StringEncoding::Canonical,
            sd_kbt_key_encoding: None,
            custom_encoding: LenEncoding::Canonical,
            custom_key_encoding: StringEncoding::Canonical,
        }
    }
}

/// The unprotected header of a token.
#[derive(Debug)]
pub struct Unprotected {
    pub sd_claims: Option<Vec<Salted>>,
    pub sd_kbt: Option<Vec<u8>>,
    pub custom: OrderedHashMap,
    pub encodings: Option<UnprotectedEncoding>,
}

/// What an `Unprotected` stands for.
pub struct UnprotectedView {
    pub sd_claims: Option<Seq<SaltedView>>,
    pub sd_kbt: Option<Seq<u8>>,
    pub custom: Seq<EntryView>,
    pub encodings: Option<UnprotectedEncodingView>,
}

impl View for Unprotected {
    type V = UnprotectedView;

    open spec fn view(&self) -> UnprotectedView {
        UnprotectedView {
            sd_claims: match self.sd_claims {
                Some(v) => Some(salted_views(v@)),
                None => None,
            },
            sd_kbt: match self.sd_kbt {
                Some(v) => Some(v@),
                None => None,
            },
            custom: self.custom@,
            encodings: match self.encodings {
                Some(e) => Some(e@),
                None => None,
            },
        }
    }
}

/// What has been found of an unprotected header while its entries are read.
pub struct UnprotectedScan {
    pub sd_claims: Option<Seq<SaltedView>>,
    pub sd_kbt: Option<Seq<u8>>,
    pub custom: Option<Seq<EntryView>>,
    pub encodings: UnprotectedEncodingView,
    /// The length that the head of the map declared.
    pub len: LenSz,
    /// How many entries have been claimed of a definite length.
    pub claimed: u64,
}

impl UnprotectedScan {
    /// Nothing found yet, in a map whose head declared `len` and of whose
    /// entries `claimed` are claimed.
    pub open spec fn start(len: LenSz, claimed: u64) -> UnprotectedScan {
        UnprotectedScan {
            sd_claims: None,
            sd_kbt: None,
            custom: None,
            encodings: UnprotectedEncodingView {
                len_encoding: LenEncoding::of(len),
                ..UnprotectedEncodingView::plain()
            },
            len,
            claimed,
        }
    }

    /// What has been found after the entries whose states are `acc`.
    pub open spec fn after(start: UnprotectedScan, acc: Seq<UnprotectedScan>) -> UnprotectedScan {
        if acc.len() == 0 {
            start
        } else {
            acc.last()
        }
    }

    /// The header that was found, or why the map is none: the extension
    /// entries are missing, or a definite length declares more entries than
    /// the map holds.
    pub open spec fn finished(self) -> Result<UnprotectedView, FailureView> {
        match self.custom {
            Some(custom) => match close(self.len, self.claimed) {
                Ok(_) => Ok(
                    UnprotectedView {
                        sd_claims: self.sd_claims,
                        sd_kbt: self.sd_kbt,
                        custom,
                        encodings: Some(self.encodings),
                    },
                ),
                Err(f) => Err(f),
            },
            None => Err(FailureView::MandatoryFieldMissing(KeyView::Str("custom"@))),
        }
    }

    /// The state after the salted disclosures are read from the start of
    /// `s`, before the error is given its place.
    pub open spec fn after_sd_claims(self, key_enc: Sz, s: Seq<u8>) -> Result<
        (UnprotectedScan, nat),
        ErrorView,
    > {
        match claim(self.len, self.claimed, 1) {
            Ok(claimed) => match parse_salted_list(s) {
                Ok(((sd_claims, sd_claims_encoding), n)) => Ok(
                    (
                        UnprotectedScan {
                            sd_claims: Some(sd_claims),
                            encodings: UnprotectedEncodingView {
                                sd_claims_encoding,
                                sd_claims_key_encoding: Some(key_enc),
                                orig_deser_order: self.encodings.orig_deser_order.push(0),
                                ..self.encodings
                            },
                            claimed,
                            ..self
                        },
                        n,
                    ),
                ),
                Err(e) => Err(e),
            },
            Err(f) => Err(bare(f)),
        }
    }

    /// The state after the key-binding token is read from the start of `s`,
    /// before the error is given its place.
    pub open spec fn after_sd_kbt(self, key_enc: Sz, s: Seq<u8>) -> Result<
        (UnprotectedScan, nat),
        ErrorView,
    > {
        match claim(self.len, self.claimed, 1) {
            Ok(claimed) => match parse_bytes(s) {
                Some((sd_kbt, sd_kbt_encoding, n)) => Ok(
                    (
                        UnprotectedScan {
                            sd_kbt: Some(sd_kbt),
                            encodings: UnprotectedEncodingView {
                                sd_kbt_encoding,
                                sd_kbt_key_encoding: Some(key_enc),
                                orig_deser_order: self.encodings.orig_deser_order.push(1),
                                ..self.encodings
                            },
                            claimed,
                            ..self
                        },
                        n,
                    ),
                ),
                None => Err(cbor_error()),
            },
            Err(f) => Err(bare(f)),
        }
    }

    /// The state after the value of the integer key `key`, whose head had
    /// the width `key_enc`, is read from the start of `s`.
    pub open spec fn after_uint_key(self, key: u64, key_enc: Sz, s: Seq<u8>) -> Result<
        (UnprotectedScan, nat),
        ErrorView,
    > {
        if key == 1111 {
            if self.sd_claims is Some {
                Err(bare(FailureView::DuplicateKey(KeyView::Uint(1111))))
            } else {
                annotated_result(self.after_sd_claims(key_enc, s), "sd_claims"@)
            }
        } else if key == 1112 {
            if self.sd_kbt is Some {
                Err(bare(FailureView::DuplicateKey(KeyView::Uint(1112))))
            } else {
                annotated_result(self.after_sd_kbt(key_enc, s), "sd_kbt"@)
            }
        } else {
            Err(bare(FailureView::UnknownKey(KeyView::Uint(key))))
        }
    }

    /// The state after the value of the text key `key`, which was written
    /// the way `key_enc` says, is read from the start of `s`.
    pub open spec fn after_text_key(self, key: Seq<char>, key_enc: StringEncodingView, s: Seq<u8>)
        -> Result<(UnprotectedScan, nat), ErrorView> {
        if key == "custom"@ {
            if self.custom is Some {
                Err(bare(FailureView::DuplicateKey(KeyView::Str("custom"@))))
            } else {
                match claim(self.len, self.claimed, 1) {
                    Ok(claimed) => match annotated_result(parse_table(s), "custom"@) {
                        Ok(((custom, custom_encoding), n)) => Ok(
                            (
                                UnprotectedScan {
                                    custom: Some(custom),
                                    encodings: UnprotectedEncodingView {
                                        custom_encoding,
                                        custom_key_encoding: key_enc,
                                        orig_deser_order: self.encodings.orig_deser_order.push(2),
                                        ..self.encodings
                                    },
                                    claimed,
                                    ..self
                                },
                                n,
                            ),
                        ),
                        Err(e) => Err(e),
                    },
                    Err(f) => Err(bare(f)),
                }
            }
        } else {
            Err(bare(FailureView::UnknownKey(KeyView::Str(key))))
        }
    }

    /// The state after the entry at the start of `s` is read: a key, which
    /// is an unsigned integer or a text, and the value that belongs under
    /// it.
    #[verifier::opaque]
    pub open spec fn after_entry(self, s: Seq<u8>) -> Result<(UnprotectedScan, nat), ErrorView> {
        if s.len() == 0 {
            Err(cbor_error())
        } else if type_of(s[0]) == Type::UnsignedInteger {
            match parse_arg(MAJOR_UINT, s) {
                Some((key, key_enc)) => shifted(
                    self.after_uint_key(key, key_enc, s.skip(1 + width(key_enc) as int)),
                    1 + width(key_enc),
                ),
                None => Err(cbor_error()),
            }
        } else if type_of(s[0]) == Type::Text {
            match parse_text(s) {
                Some((key, key_enc, k)) => shifted(
                    self.after_text_key(key, key_enc, s.skip(k as int)),
                    k,
                ),
                None => Err(cbor_error()),
            }
        } else {
            Err(bare(FailureView::UnexpectedKeyType(type_of(s[0]))))
        }
    }
}

/// How one entry of an unprotected header is read, after the entries that
/// led from the state `start` to the states `acc`.
pub open spec fn unprotected_reader(start: UnprotectedScan) -> spec_fn(
    Seq<UnprotectedScan>,
    Seq<u8>,
) -> Result<(UnprotectedScan, nat), ErrorView> {
    |acc: Seq<UnprotectedScan>, s: Seq<u8>| UnprotectedScan::after(start, acc).after_entry(s)
}

/// One for a field that is there, nothing for one that is missing.
pub open spec fn one_if(present: bool) -> nat {
    if present {
        1
    } else {
        0
    }
}

impl UnprotectedView {
    /// How the length of the map is written.
    pub open spec fn len_encoding(self) -> LenEncoding {
        match self.encodings {
            Some(e) => e.len_encoding,
            None => LenEncoding::Canonical,
        }
    }

    /// The wire form that the fields are written in.
    pub open spec fn form(self) -> UnprotectedEncodingView {
        match self.encodings {
            Some(e) => e,
            None => UnprotectedEncodingView::plain(),
        }
    }

    /// The number of entries of the map.
    pub open spec fn count(self) -> nat {
        1 + one_if(self.sd_claims is Some) + one_if(self.sd_kbt is Some)
    }

    /// The order in which the fields are written: the order in which they
    /// were read where one is recorded for as many fields as are there, the
    /// order of the keys otherwise. The fields are numbered 0 for the salted
    /// disclosures, 1 for the key-binding token and 2 for the extension
    /// entries.
    pub open spec fn order(self) -> Seq<usize> {
        match self.encodings {
            Some(e) => if e.orig_deser_order.len() == self.count() {
                e.orig_deser_order
            } else {
                seq![0usize, 1usize, 2usize]
            },
            None => seq![0usize, 1usize, 2usize],
        }
    }

    /// Whether every number in the order that the fields are written in is
    /// the number of a field.
    pub open spec fn well_formed(self) -> bool {
        forall|i: int| 0 <= i < self.order().len() ==> #[trigger] self.order()[i] < 3
    }

    /// Whether the field with the number `index` can be written as it
    /// stands.
    pub open spec fn field_encodable(self, index: usize) -> bool {
        if index == 0 {
            self.sd_claims matches Some(v) ==> salted_list_encodable(v)
        } else if index == 1 {
            self.sd_kbt matches Some(v) ==> bytes_encodable(v, self.form().sd_kbt_encoding)
        } else if index == 2 {
            text_encodable("custom"@, self.form().custom_key_encoding) && entries_encodable(
                self.custom,
            )
        } else {
            true
        }
    }

    /// The bytes that the field with the number `index` is written as: its
    /// key and its value, or nothing for a field that is missing.
    pub open spec fn field_wire(self, index: usize) -> Seq<u8> {
        if index == 0 {
            match self.sd_claims {
                Some(v) => head(MAJOR_UINT, 1111, fitting(1111, self.form().sd_claims_key_encoding))
                    + salted_list_wire(v, self.form().sd_claims_encoding),
                None => Seq::empty(),
            }
        } else if index == 1 {
            match self.sd_kbt {
                Some(v) => head(MAJOR_UINT, 1112, fitting(1112, self.form().sd_kbt_key_encoding))
                    + bytes_wire(v, self.form().sd_kbt_encoding),
                None => Seq::empty(),
            }
        } else if index == 2 {
            text_wire("custom"@, self.form().custom_key_encoding) + table_wire(
                self.custom,
                self.form().custom_encoding,
            )
        } else {
            Seq::empty()
        }
    }

    /// The fields with the given numbers, one after the other.
    pub open spec fn fields_wire(self, order: Seq<usize>) -> Seq<u8>
        decreases order.len(),
    {
        if order.len() == 0 {
            Seq::empty()
        } else {
            self.fields_wire(order.drop_last()) + self.field_wire(order.last())
        }
    }

    /// Whether the header can be written as it stands.
    pub open spec fn encodable(self) -> bool {
        forall|i: int|
            0 <= i < self.order().len() ==> self.field_encodable(#[trigger] self.order()[i])
    }

    /// The bytes that the header is written as.
    #[verifier::opaque]
    pub open spec fn wire(self) -> Seq<u8> {
        len_head(MAJOR_MAP, self.len_encoding().head_for(self.count() as u64)) + self.fields_wire(
            self.order(),
        ) + self.len_encoding().ending()
    }

    /// The entries of the map at the start of `s`, read from the state
    /// `start`, and the header that they make.
    pub open spec fn parse_fields(s: Seq<u8>, start: UnprotectedScan) -> Result<
        (UnprotectedView, nat),
        ErrorView,
    > {
        match parse_items(unprotected_reader(start), start.len, Seq::empty(), s) {
            Ok((acc, n)) => match UnprotectedScan::after(start, acc).finished() {
                Ok(v) => Ok((v, n)),
                Err(f) => Err(bare(f)),
            },
            Err(e) => Err(e),
        }
    }

    /// The header at the start of `s` and the bytes that it takes, or why
    /// there is none.
    #[verifier::opaque]
    pub open spec fn parse(s: Seq<u8>) -> Result<(UnprotectedView, nat), ErrorView> {
        match parse_len(MAJOR_MAP, s) {
            Some(len) => shifted(
                annotated_result(
                    Self::parse_fields(
                        s.skip(1 + len_width(len) as int),
                        UnprotectedScan::start(len, 0),
                    ),
                    "Unprotected"@,
                ),
                1 + len_width(len),
            ),
            None => Err(cbor_error()),
        }
    }
}

/// What has been found of an unprotected header while its entries are read.
struct UnprotectedBuilder {
    sd_claims: Option<Vec<Salted>>,
    sd_kbt: Option<Vec<u8>>,
    custom: Option<OrderedHashMap>,
    encodings: UnprotectedEncoding,
    read_len: CBORReadLen,
}

impl View for UnprotectedBuilder {
    type V = UnprotectedScan;

    closed spec fn view(&self) -> UnprotectedScan {
        UnprotectedScan {
            sd_claims: match self.sd_claims {
                Some(v) => Some(salted_views(v@)),
                None => None,
            },
            sd_kbt: match self.sd_kbt {
                Some(v) => Some(v@),
                None => None,
            },
            custom: match self.custom {
                Some(c) => Some(c@),
                None => None,
            },
            encodings: self.encodings@,
            len: self.read_len.declared(),
            claimed: self.read_len.claimed(),
        }
    }
}

impl UnprotectedBuilder {
    fn new(read_len: CBORReadLen) -> (r: Self)
        ensures
            r@ == UnprotectedScan::start(read_len.declared(), read_len.claimed()),
    {
        let len_encoding = LenEncoding::from_len_sz(read_len.len());
        UnprotectedBuilder {
            sd_claims: None,
            sd_kbt: None,
            custom: None,
            encodings: UnprotectedEncoding {
                len_encoding,
                orig_deser_order: Vec::new(),
                sd_claims_encoding: LenEncoding::Canonical,
                sd_claims_key_encoding: None,
                sd_kbt_encoding: StringEncoding::Canonical,
                sd_kbt_key_encoding: None,
                custom_encoding: LenEncoding::Canonical,
                custom_key_encoding: StringEncoding::Canonical,
            },
            read_len,
        }
    }

    fn finish(self) -> (r: Result<Unprotected, DeserializeError>)
        ensures
            match self@.finished() {
                Ok(v) => r matches Ok(x) && x@ == v,
                Err(f) => r matches Err(e) && e@ == bare(f),
            },
    {
        let custom = match self.custom {
            Some(x) => x,
            None => {
                return Err(
                    DeserializeError::from_failure(
                        DeserializeFailure::MandatoryFieldMissing(
                            Key::Str(String::from_str("custom")),
                        ),
                    ),
                );
            },
        };
        match self.read_len.finish() {
            Ok(_) => {},
            Err(f) => {
                return Err(DeserializeError::from_failure(f));
            },
        }
        Ok(
            Unprotected {
                sd_claims: self.sd_claims,
                sd_kbt: self.sd_kbt,
                custom,
                encodings: Some(self.encodings),
            },
        )
    }

    fn read_sd_claims(&mut self, raw: &mut Reader, key_enc: Sz) -> (r: Result<
        (),
        DeserializeError,
    >)
        ensures
            final(raw).bytes() == old(raw).bytes(),
            match old(self)@.after_sd_claims(key_enc, old(raw).rest()) {
                Ok((next, n)) => r is Ok && final(self)@ == next && old(raw).advanced(
                    final(raw),
                    n,
                ),
                Err(e) => r matches Err(x) && x@ == e,
            },
    {
        match self.read_len.read_elems(1) {
            Ok(_) => {},
            Err(f) => {
                return Err(DeserializeError::from_failure(f));
            },
        }
        match deserialize_salted_list(raw) {
            Ok((sd_claims, sd_claims_encoding)) => {
                self.sd_claims = Some(sd_claims);
                self.encodings.sd_claims_encoding = sd_claims_encoding;
                self.encodings.sd_claims_key_encoding = Some(key_enc);
                self.encodings.orig_deser_order.push(0);
                Ok(())
            },
            Err(e) => Err(e),
        }
    }

    fn read_sd_kbt(&mut self, raw: &mut Reader, key_enc: Sz) -> (r: Result<(), DeserializeError>)
        ensures
            final(raw).bytes() == old(raw).bytes(),
            match old(self)@.after_sd_kbt(key_enc, old(raw).rest()) {
                Ok((next, n)) => r is Ok && final(self)@ == next && old(raw).advanced(
                    final(raw),
                    n,
                ),
                Err(e) => r matches Err(x) && x@ == e,
            },
    {
        match self.read_len.read_elems(1) {
            Ok(_) => {},
            Err(f) => {
                return Err(DeserializeError::from_failure(f));
            },
        }
        match read_bytes_enc(raw) {
            Ok((sd_kbt, sd_kbt_encoding)) => {
                self.sd_kbt = Some(sd_kbt);
                self.encodings.sd_kbt_encoding = sd_kbt_encoding;
                self.encodings.sd_kbt_key_encoding = Some(key_enc);
                self.encodings.orig_deser_order.push(1);
                Ok(())
            },
            Err(e) => Err(DeserializeError::from_cbor(e)),
        }
    }

    fn read_uint_key(&mut self, raw: &mut Reader, key: u64, key_enc: Sz) -> (r: Result<
        (),
        DeserializeError,
    >)
        ensures
            final(raw).bytes() == old(raw).bytes(),
            match old(self)@.after_uint_key(key, key_enc, old(raw).rest()) {
                Ok((next, n)) => r is Ok && final(self)@ == next && old(raw).advanced(
                    final(raw),
                    n,
                ),
                Err(e) => r matches Err(x) && x@ == e,
            },
    {
        if key == KEY_SD_CLAIMS {
            if self.sd_claims.is_some() {
                return Err(
                    DeserializeError::from_failure(
                        DeserializeFailure::DuplicateKey(Key::Uint(1111)),
                    ),
                );
            }
            match self.read_sd_claims(raw, key_enc) {
                Ok(_) => Ok(()),
                Err(e) => Err(e.annotate("sd_claims")),
            }
        } else if key == KEY_SD_KBT {
            if self.sd_kbt.is_some() {
                return Err(
                    DeserializeError::from_failure(
                        DeserializeFailure::DuplicateKey(Key::Uint(1112)),
                    ),
                );
            }
            match self.read_sd_kbt(raw, key_enc) {
                Ok(_) => Ok(()),
                Err(e) => Err(e.annotate("sd_kbt")),
            }
        } else {
            Err(DeserializeError::from_failure(DeserializeFailure::UnknownKey(Key::Uint(key))))
        }
    }

    fn read_text_key(&mut self, raw: &mut Reader, key: String, key_enc: StringEncoding) -> (r:
        Result<(), DeserializeError>)
        ensures
            final(raw).bytes() == old(raw).bytes(),
            match old(self)@.after_text_key(key@, key_enc@, old(raw).rest()) {
                Ok((next, n)) => r is Ok && final(self)@ == next && old(raw).advanced(
                    final(raw),
                    n,
                ),
                Err(e) => r matches Err(x) && x@ == e,
            },
    {
        if key == String::from_str("custom") {
            if self.custom.is_some() {
                return Err(
                    DeserializeError::from_failure(DeserializeFailure::DuplicateKey(Key::Str(key))),
                );
            }
            match self.read_len.read_elems(1) {
                Ok(_) => {},
                Err(f) => {
                    return Err(DeserializeError::from_failure(f));
                },
            }
            match deserialize_table(raw) {
                Ok((custom, custom_encoding)) => {
                    self.custom = Some(custom);
                    self.encodings.custom_encoding = custom_encoding;
                    self.encodings.custom_key_encoding = key_enc;
                    self.encodings.orig_deser_order.push(2);
                    Ok(())
                },
                Err(e) => Err(e.annotate("custom")),
            }
        } else {
            Err(DeserializeError::from_failure(DeserializeFailure::UnknownKey(Key::Str(key))))
        }
    }

    fn read_entry(&mut self, raw: &mut Reader) -> (r: Result<(), DeserializeError>)
        ensures
            final(raw).bytes() == old(raw).bytes(),
            match old(self)@.after_entry(old(raw).rest()) {
                Ok((next, n)) => {
                    &&& r is Ok
                    &&& final(self)@ == next
                    &&& old(raw).advanced(final(raw), n)
                    &&& 0 < n <= old(raw).rest().len()
                },
                Err(e) => r matches Err(x) && x@ == e,
            },
    {
        reveal(UnprotectedScan::after_entry);
        reveal(parse_text);
        let at = raw.position();
        let kind = match raw.cbor_type() {
            Ok(kind) => kind,
            Err(e) => {
                return Err(DeserializeError::from_cbor(e));
            },
        };
        let r = match kind {
            Type::UnsignedInteger => match raw.unsigned_integer_sz() {
                Ok((key, key_enc)) => self.read_uint_key(raw, key, key_enc),
                Err(e) => Err(DeserializeError::from_cbor(e)),
            },
            Type::Text => match read_text_enc(raw) {
                Ok((key, key_enc)) => self.read_text_key(raw, key, key_enc),
                Err(e) => Err(DeserializeError::from_cbor(e)),
            },
            other_type => Err(
                DeserializeError::from_failure(DeserializeFailure::UnexpectedKeyType(other_type)),
            ),
        };
        let after = raw.position();
        r
    }
}

impl Unprotected {
    /// An unprotected header without disclosures and key-binding token, to
    /// be written in the shortest form.
    pub fn new(custom: OrderedHashMap) -> (r: Self)
        ensures
            r@ == (UnprotectedView {
                sd_claims: None,
                sd_kbt: None,
                custom: custom@,
                encodings: None,
            }),
    {
        Unprotected { sd_claims: None, sd_kbt: None, custom, encodings: None }
    }

    /// The number of entries of the map.
    pub(crate) fn count(&self) -> (r: usize)
        ensures
            r == self@.count(),
    {
        let a: usize = if self.sd_claims.is_some() {
            1
        } else {
            0
        };
        let b: usize = if self.sd_kbt.is_some() {
            1
        } else {
            0
        };
        1 + a + b
    }

    fn write_field(&self, index: usize, out: &mut Vec<u8>) -> (r: Result<(), cbor_event::Error>)
        requires
            index < 3,
        ensures
            r is Ok <==> self@.field_encodable(index),
            r is Ok ==> final(out)@ == old(out)@ + self@.field_wire(index),
    {
        let plain = UnprotectedEncoding::default();
        let form = match &self.encodings {
            Some(e) => e,
            None => &plain,
        };
        if index == 0 {
            match &self.sd_claims {
                Some(field) => {
                    let _ = write_unsigned_integer(
                        out,
                        KEY_SD_CLAIMS,
                        fit_sz(KEY_SD_CLAIMS, form.sd_claims_key_encoding),
                    );
                    let r = serialize_salted_list(field, form.sd_claims_encoding, out);
                    assert(r is Ok ==> final(out)@ =~= old(out)@ + self@.field_wire(index));
                    r
                },
                None => {
                    assert(out@ =~= old(out)@ + self@.field_wire(index));
                    Ok(())
                },
            }
        } else if index == 1 {
            match &self.sd_kbt {
                Some(field) => {
                    let _ = write_unsigned_integer(
                        out,
                        KEY_SD_KBT,
                        fit_sz(KEY_SD_KBT, form.sd_kbt_key_encoding),
                    );
                    let r = write_bytes_as(out, field, &form.sd_kbt_encoding);
                    assert(r is Ok ==> final(out)@ =~= old(out)@ + self@.field_wire(index));
                    r
                },
                None => {
                    assert(out@ =~= old(out)@ + self@.field_wire(index));
                    Ok(())
                },
            }
        } else {
            match write_text_as(out, "custom", &form.custom_key_encoding) {
                Ok(_) => {},
                Err(e) => {
                    return Err(e);
                },
            }
            let r = serialize_table(&self.custom, form.custom_encoding, out);
            assert(r is Ok ==> final(out)@ =~= old(out)@ + self@.field_wire(index));
            r
        }
    }

    /// Writes the fields in their order.
    fn write_fields(&self, count: usize, out: &mut Vec<u8>) -> (r: Result<(), cbor_event::Error>)
        requires
            self@.well_formed(),
            count == self@.count(),
        ensures
            r is Ok <==> self@.encodable(),
            r is Ok ==> final(out)@ == old(out)@ + self@.fields_wire(self@.order()),
    {
        let ghost order = self@.order();
        let recorded = match &self.encodings {
            Some(e) => e.orig_deser_order.len() == count,
            None => false,
        };
        let steps: usize = if recorded {
            count
        } else {
            3
        };
        let mut i: usize = 0;
        assert(out@ =~= old(out)@ + self@.fields_wire(order.take(0)));
        while i < steps
            invariant
                i <= steps,
                order == self@.order(),
                order.len() == steps,
                count == self@.count(),
                recorded == (self@.encodings matches Some(e) && e.orig_deser_order.len() == count),
                self@.well_formed(),
                out@ == old(out)@ + self@.fields_wire(order.take(i as int)),
                forall|j: int| 0 <= j < i ==> self@.field_encodable(#[trigger] order[j]),
            decreases steps - i,
        {
            let index = match &self.encodings {
                Some(e) => if recorded {
                    e.orig_deser_order[i]
                } else {
                    i
                },
                None => i,
            };
            assert(index == order[i as int]);
            match self.write_field(index, out) {
                Ok(_) => {},
                Err(e) => {
                    return Err(e);
                },
            }
            proof {
                let next = order.take(i + 1);
                assert(next.drop_last() =~= order.take(i as int));
                assert(next.last() == order[i as int]);
                assert(out@ =~= old(out)@ + self@.fields_wire(next));
            }
            i = i + 1;
        }
        assert(order.take(steps as int) =~= order);
        Ok(())
    }

    /// Writes the header. Fails where a part of it cannot be written the way
    /// its descriptor says. Every number in a recorded order must be the
    /// number of a field.
    pub fn serialize(&self, out: &mut Vec<u8>) -> (r: Result<(), cbor_event::Error>)
        requires
            self@.well_formed(),
        ensures
            r is Ok <==> self@.encodable(),
            r is Ok ==> final(out)@ == old(out)@ + self@.wire(),
    {
        reveal(UnprotectedView::wire);
        let len_encoding = match &self.encodings {
            Some(e) => e.len_encoding,
            None => LenEncoding::Canonical,
        };
        let count = self.count();
        let _ = write_map(out, len_encoding.to_len_sz(count as u64));
        match self.write_fields(count, out) {
            Ok(_) => {},
            Err(e) => {
                return Err(e);
            },
        }
        let r = len_encoding.end(out);
        assert(final(out)@ =~= old(out)@ + self@.wire());
        r
    }

    fn deserialize_fields(raw: &mut Reader, read_len: CBORReadLen) -> (r: Result<
        Unprotected,
        DeserializeError,
    >)
        ensures
            decoded(
                *old(raw),
                *final(raw),
                r,
                UnprotectedView::parse_fields(
                    old(raw).rest(),
                    UnprotectedScan::start(read_len.declared(), read_len.claimed()),
                ),
            ),
    {
        let _ = raw.position();
        let len = read_len.len();
        let ghost claimed = read_len.claimed();
        let ghost start = UnprotectedScan::start(len, claimed);
        let ghost body = raw.rest();
        let ghost whole = parse_items(unprotected_reader(start), len, Seq::empty(), body);
        let mut st = UnprotectedBuilder::new(read_len);
        let mut read: usize = 0;
        let ghost mut acc: Seq<UnprotectedScan> = Seq::empty();
        let ghost mut used: nat = 0;
        loop
            invariant
                raw.bytes() == old(raw).bytes(),
                old(raw).advanced(raw, used),
                body == old(raw).rest(),
                start == UnprotectedScan::start(len, claimed),
                len == read_len.declared(),
                claimed == read_len.claimed(),
                whole == parse_items(unprotected_reader(start), len, Seq::empty(), body),
                whole == shifted(parse_items(unprotected_reader(start), len, acc, raw.rest()), used),
                acc.len() == read,
                read <= used,
                st@ == UnprotectedScan::after(start, acc),
            decreases raw.bytes().len() - raw.offset(),
        {
            let at = raw.position();
            if !more_items(len, read) {
                return st.finish();
            }
            match next_item(raw, len, read) {
                Ok(Next::Item) => {},
                Ok(Next::End) => {
                    return st.finish();
                },
                Err(e) => {
                    return Err(e);
                },
            }
            match st.read_entry(raw) {
                Ok(_) => {},
                Err(e) => {
                    return Err(e);
                },
            }
            let after = raw.position();
            read = read + 1;
            proof {
                acc = acc.push(st@);
                used = used + (after - at) as nat;
            }
        }
    }

    /// Reads an unprotected header.
    pub fn deserialize(raw: &mut Reader) -> (r: Result<Unprotected, DeserializeError>)
        ensures
            decoded(*old(raw), *final(raw), r, UnprotectedView::parse(old(raw).rest())),
    {
        reveal(UnprotectedView::parse);
        let len = match raw.map_sz() {
            Ok(len) => len,
            Err(e) => {
                return Err(DeserializeError::from_cbor(e));
            },
        };
        let read_len = CBORReadLen::new(len);
        match Self::deserialize_fields(raw, read_len) {
            Ok(v) => Ok(v),
            Err(e) => Err(e.annotate("Unprotected")),
        }
    }
}

} // verus!
