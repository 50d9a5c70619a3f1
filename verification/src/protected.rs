//! The protected header of a token: the algorithm under the key 1, the type
//! under the key 16, and the extension entries under the text key `custom`.
//! All three must be there, once each, in any order.

use crate::error::{
    annotated, annotated_result, bare, cbor_error, DeserializeError, DeserializeFailure, ErrorView,
    FailureView, Key, KeyView,
};
use crate::integer::Int;
use crate::ordered_hash_map::{
    deserialize_table, entries_encodable, parse_table, serialize_table, table_wire, EntryView,
    OrderedHashMap,
};
use crate::raw::{write_map, write_unsigned_integer};
use crate::reader::{decoded, Reader};
use crate::serialization::{
    fit_sz, fitting, more_items, next_item, parse_items, parse_text, read_text_enc, shifted,
    text_encodable, text_wire, write_text_as, LenEncoding, Next, StringEncoding,
    StringEncodingView,
};
use crate::wire::{
    head, len_head, len_width, parse_arg, parse_len, type_of, width, MAJOR_MAP, MAJOR_UINT,
};
use cbor_event::{LenSz, Sz, Type};
use vstd::prelude::*;
use vstd::string::StringExecFns;

verus! {

broadcast use {vstd::seq_lib::lemma_seq_skip_of_skip, vstd::seq_lib::lemma_seq_skip_nothing};

/// The key of the algorithm.
pub const KEY_ALG: u64 = 1;

/// The key of the type.
pub const KEY_TYP: u64 = 16;

/// How a protected header was written.
#[derive(Debug)]
pub struct SdProtectedEncoding {
    pub len_encoding: LenEncoding,
    pub orig_deser_order: Vec<usize>,
    pub alg_key_encoding: Option<Sz>,
    pub typ_encoding: StringEncoding,
    pub typ_key_encoding: Option<Sz>,
    pub custom_encoding: LenEncoding,
    pub custom_key_encoding: StringEncoding,
}

/// What an `SdProtectedEncoding` stands for.
pub struct SdProtectedEncodingView {
    pub len_encoding: LenEncoding,
    pub orig_deser_order: Seq<usize>,
    pub alg_key_encoding: Option<Sz>,
    pub typ_encoding: StringEncodingView,
    pub typ_key_encoding: Option<Sz>,
    pub custom_encoding: LenEncoding,
    pub custom_key_encoding: StringEncodingView,
}

impl View for SdProtectedEncoding {
    type V = SdProtectedEncodingView;

    open spec fn view(&self) -> SdProtectedEncodingView {
        SdProtectedEncodingView {
            len_encoding: self.len_encoding,
            orig_deser_order: self.orig_deser_order@,
            alg_key_encoding: self.alg_key_encoding,
            typ_encoding: self.typ_encoding@,
            typ_key_encoding: self.typ_key_encoding,
            custom_encoding: self.custom_encoding,
            custom_key_encoding: self.custom_key_encoding@,
        }
    }
}

impl SdProtectedEncodingView {
    /// The wire form of a header that is written in the shortest form, in
    /// the order of the keys.
    pub open spec fn plain() -> SdProtectedEncodingView {
        SdProtectedEncodingView {
            len_encoding: LenEncoding::Canonical,
            orig_deser_order: Seq::empty(),
            alg_key_encoding: None,
            typ_encoding: StringEncodingView::Canonical,
            typ_key_encoding: None,
            custom_encoding: LenEncoding::Canonical,
            custom_key_encoding: StringEncodingView::Canonical,
        }
    }
}

impl Default for SdProtectedEncoding {
    fn default() -> (r: Self)
        ensures
            r@ == SdProtectedEncodingView::plain(),
    {
        SdProtectedEncoding {
            len_encoding: LenEncoding::Canonical,
            orig_deser_order: Vec::new(),
            alg_key_encoding: None,
            typ_encoding: StringEncoding::Canonical,
            typ_key_encoding: None,
            custom_encoding: LenEncoding::Canonical,
            custom_key_encoding: StringEncoding::Canonical,
        }
    }
}

/// The protected header of a token.
#[derive(Debug)]
pub struct SdProtected {
    pub alg: Int,
    pub typ: String,
    pub custom: OrderedHashMap,
    pub encodings: Option<SdProtectedEncoding>,
}

/// What an `SdProtected` stands for.
pub struct SdProtectedView {
    pub alg: Int,
    pub typ: Seq<char>,
    pub custom: Seq<EntryView>,
    pub encodings: Option<SdProtectedEncodingView>,
}

impl View for SdProtected {
    type V = SdProtectedView;

    open spec fn view(&self) -> SdProtectedView {
        SdProtectedView {
            alg: self.alg,
            typ: self.typ@,
            custom: self.custom@,
            encodings: match self.encodings {
                Some(e) => Some(e@),
                None => None,
            },
        }
    }
}

/// What has been found of a protected header while its entries are read.
pub struct ProtectedScan {
    pub alg: Option<Int>,
    pub typ: Option<Seq<char>>,
    pub custom: Option<Seq<EntryView>>,
    pub encodings: SdProtectedEncodingView,
}

impl ProtectedScan {
    /// Nothing found yet, in a map whose head declared `len`.
    pub open spec fn start(len: LenSz) -> ProtectedScan {
        ProtectedScan {
            alg: None,
            typ: None,
            custom: None,
            encodings: SdProtectedEncodingView {
                len_encoding: LenEncoding::of(len),
                ..SdProtectedEncodingView::plain()
            },
        }
    }

    /// What has been found after the entries whose states are `acc`.
    pub open spec fn after(len: LenSz, acc: Seq<ProtectedScan>) -> ProtectedScan {
        if acc.len() == 0 {
            Self::start(len)
        } else {
            acc.last()
        }
    }

    /// The header that was found, or the first field that is missing.
    pub open spec fn finished(self) -> Result<SdProtectedView, FailureView> {
        match self.alg {
            Some(alg) => match self.typ {
                Some(typ) => match self.custom {
                    Some(custom) => Ok(
                        SdProtectedView { alg, typ, custom, encodings: Some(self.encodings) },
                    ),
                    None => Err(FailureView::MandatoryFieldMissing(KeyView::Str("custom"@))),
                },
                None => Err(FailureView::MandatoryFieldMissing(KeyView::Uint(16))),
            },
            None => Err(FailureView::MandatoryFieldMissing(KeyView::Uint(1))),
        }
    }

    /// The state after the value of the integer key `key`, whose head had
    /// the width `key_enc`, is read from the start of `s`.
    pub open spec fn after_uint_key(self, key: u64, key_enc: Sz, s: Seq<u8>) -> Result<
        (ProtectedScan, nat),
        ErrorView,
    > {
        if key == 1 {
            if self.alg is Some {
                Err(bare(FailureView::DuplicateKey(KeyView::Uint(1))))
            } else {
                match annotated_result(Int::parse(s), "alg"@) {
                    Ok((alg, n)) => Ok(
                        (
                            ProtectedScan {
                                alg: Some(alg),
                                encodings: SdProtectedEncodingView {
                                    alg_key_encoding: Some(key_enc),
                                    orig_deser_order: self.encodings.orig_deser_order.push(0),
                                    ..self.encodings
                                },
                                ..self
                            },
                            n,
                        ),
                    ),
                    Err(e) => Err(e),
                }
            }
        } else if key == 16 {
            if self.typ is Some {
                Err(bare(FailureView::DuplicateKey(KeyView::Uint(16))))
            } else {
                match parse_text(s) {
                    Some((typ, typ_encoding, n)) => Ok(
                        (
                            ProtectedScan {
                                typ: Some(typ),
                                encodings: SdProtectedEncodingView {
                                    typ_encoding,
                                    typ_key_encoding: Some(key_enc),
                                    orig_deser_order: self.encodings.orig_deser_order.push(1),
                                    ..self.encodings
                                },
                                ..self
                            },
                            n,
                        ),
                    ),
                    None => Err(annotated(cbor_error(), "typ"@)),
                }
            }
        } else {
            Err(bare(FailureView::UnknownKey(KeyView::Uint(key))))
        }
    }

    /// The state after the value of the text key `key`, which was written
    /// the way `key_enc` says, is read from the start of `s`.
    pub open spec fn after_text_key(self, key: Seq<char>, key_enc: StringEncodingView, s: Seq<u8>)
        -> Result<(ProtectedScan, nat), ErrorView> {
        if key == "custom"@ {
            if self.custom is Some {
                Err(bare(FailureView::DuplicateKey(KeyView::Str("custom"@))))
            } else {
                match annotated_result(parse_table(s), "custom"@) {
                    Ok(((custom, custom_encoding), n)) => Ok(
                        (
                            ProtectedScan {
                                custom: Some(custom),
                                encodings: SdProtectedEncodingView {
                                    custom_encoding,
                                    custom_key_encoding: key_enc,
                                    orig_deser_order: self.encodings.orig_deser_order.push(2),
                                    ..self.encodings
                                },
                                ..self
                            },
                            n,
                        ),
                    ),
                    Err(e) => Err(e),
                }
            }
        } else {
            Err(bare(FailureView::UnknownKey(KeyView::Str(key))))
        }
    }

    /// The state after the entry at the start of `s` is read: a key, which
    /// is an unsigned integer or a text, and the value that belongs under
    /// it.
    #[verifier::opaque]
    pub open spec fn after_entry(self, s: Seq<u8>) -> Result<(ProtectedScan, nat), ErrorView> {
        if s.len() == 0 {
            Err(cbor_error())
        } else if type_of(s[0]) == Type::UnsignedInteger {
            match parse_arg(MAJOR_UINT, s) {
                Some((key, key_enc)) => shifted(
                    self.after_uint_key(key, key_enc, s.skip(1 + width(key_enc) as int)),
                    1 + width(key_enc),
                ),
                None => Err(cbor_error()),
            }
        } else if type_of(s[0]) == Type::Text {
            match parse_text(s) {
                Some((key, key_enc, k)) => shifted(
                    self.after_text_key(key, key_enc, s.skip(k as int)),
                    k,
                ),
                None => Err(cbor_error()),
            }
        } else {
            Err(bare(FailureView::UnexpectedKeyType(type_of(s[0]))))
        }
    }
}

/// How one entry of a protected header is read, after the entries that led
/// to the states `acc`.
pub open spec fn protected_reader(len: LenSz) -> spec_fn(Seq<ProtectedScan>, Seq<u8>) -> Result<
    (ProtectedScan, nat),
    ErrorView,
> {
    |acc: Seq<ProtectedScan>, s: Seq<u8>| ProtectedScan::after(len, acc).after_entry(s)
}

impl SdProtectedView {
    /// How the length of the map is written.
    pub open spec fn len_encoding(self) -> LenEncoding {
        match self.encodings {
            Some(e) => e.len_encoding,
            None => LenEncoding::Canonical,
        }
    }

    /// The wire form that the fields are written in.
    pub open spec fn form(self) -> SdProtectedEncodingView {
        match self.encodings {
            Some(e) => e,
            None => SdProtectedEncodingView::plain(),
        }
    }

    /// The order in which the fields are written: the order in which they
    /// were read where one is recorded for all three, the order of the keys
    /// otherwise. The fields are numbered 0 for the algorithm, 1 for the type
    /// and 2 for the extension entries.
    pub open spec fn order(self) -> Seq<usize> {
        match self.encodings {
            Some(e) => if e.orig_deser_order.len() == 3 {
                e.orig_deser_order
            } else {
                seq![0usize, 1usize, 2usize]
            },
            None => seq![0usize, 1usize, 2usize],
        }
    }

    /// Whether every number in the order that the fields are written in is
    /// the number of a field.
    pub open spec fn well_formed(self) -> bool {
        forall|i: int| 0 <= i < self.order().len() ==> #[trigger] self.order()[i] < 3
    }

    /// Whether the field with the number `index` can be written as it
    /// stands.
    pub open spec fn field_encodable(self, index: usize) -> bool {
        if index == 1 {
            text_encodable(self.typ, self.form().typ_encoding)
        } else if index == 2 {
            text_encodable("custom"@, self.form().custom_key_encoding) && entries_encodable(
                self.custom,
            )
        } else {
            true
        }
    }

    /// The bytes that the field with the number `index` is written as: its
    /// key and its value.
    pub open spec fn field_wire(self, index: usize) -> Seq<u8> {
        if index == 0 {
            head(MAJOR_UINT, 1, fitting(1, self.form().alg_key_encoding)) + self.alg.wire()
        } else if index == 1 {
            head(MAJOR_UINT, 16, fitting(16, self.form().typ_key_encoding)) + text_wire(
                self.typ,
                self.form().typ_encoding,
            )
        } else if index == 2 {
            text_wire("custom"@, self.form().custom_key_encoding) + table_wire(
                self.custom,
                self.form().custom_encoding,
            )
        } else {
            Seq::empty()
        }
    }

    /// The fields with the given numbers, one after the other.
    pub open spec fn fields_wire(self, order: Seq<usize>) -> Seq<u8>
        decreases order.len(),
    {
        if order.len() == 0 {
            Seq::empty()
        } else {
            self.fields_wire(order.drop_last()) + self.field_wire(order.last())
        }
    }

    /// Whether the header can be written as it stands.
    pub open spec fn encodable(self) -> bool {
        forall|i: int|
            0 <= i < self.order().len() ==> self.field_encodable(#[trigger] self.order()[i])
    }

    /// The bytes that the header is written as.
    #[verifier::opaque]
    pub open spec fn wire(self) -> Seq<u8> {
        len_head(MAJOR_MAP, self.len_encoding().head_for(3)) + self.fields_wire(self.order())
            + self.len_encoding().ending()
    }

    /// The entries of the map at the start of `s`, whose head declared
    /// `len`, and the header that they make.
    pub open spec fn parse_fields(s: Seq<u8>, len: LenSz) -> Result<
        (SdProtectedView, nat),
        ErrorView,
    > {
        match parse_items(protected_reader(len), len, Seq::empty(), s) {
            Ok((acc, n)) => match ProtectedScan::after(len, acc).finished() {
                Ok(v) => Ok((v, n)),
                Err(f) => Err(bare(f)),
            },
            Err(e) => Err(e),
        }
    }

    /// The header at the start of `s` and the bytes that it takes, or why
    /// there is none.
    #[verifier::opaque]
    pub open spec fn parse(s: Seq<u8>) -> Result<(SdProtectedView, nat), ErrorView> {
        match parse_len(MAJOR_MAP, s) {
            Some(len) => shifted(
                annotated_result(
                    Self::parse_fields(s.skip(1 + len_width(len) as int), len),
                    "SdProtected"@,
                ),
                1 + len_width(len),
            ),
            None => Err(cbor_error()),
        }
    }
}

/// What has been found of a protected header while its entries are read.
struct ProtectedBuilder {
    alg: Option<Int>,
    typ: Option<String>,
    custom: Option<OrderedHashMap>,
    encodings: SdProtectedEncoding,
}

impl View for ProtectedBuilder {
    type V = ProtectedScan;

    closed spec fn view(&self) -> ProtectedScan {
        ProtectedScan {
            alg: self.alg,
            typ: match self.typ {
                Some(t) => Some(t@),
                None => None,
            },
            custom: match self.custom {
                Some(c) => Some(c@),
                None => None,
            },
            encodings: self.encodings@,
        }
    }
}

impl ProtectedBuilder {
    fn new(len: LenSz) -> (r: Self)
        ensures
            r@ == ProtectedScan::start(len),
    {
        ProtectedBuilder {
            alg: None,
            typ: None,
            custom: None,
            encodings: SdProtectedEncoding {
                len_encoding: LenEncoding::from_len_sz(len),
                orig_deser_order: Vec::new(),
                alg_key_encoding: None,
                typ_encoding: StringEncoding::Canonical,
                typ_key_encoding: None,
                custom_encoding: LenEncoding::Canonical,
                custom_key_encoding: StringEncoding::Canonical,
            },
        }
    }

    fn finish(self) -> (r: Result<SdProtected, DeserializeError>)
        ensures
            match self@.finished() {
                Ok(v) => r matches Ok(x) && x@ == v,
                Err(f) => r matches Err(e) && e@ == bare(f),
            },
    {
        let alg = match self.alg {
            Some(x) => x,
            None => {
                return Err(
                    DeserializeError::from_failure(
                        DeserializeFailure::MandatoryFieldMissing(Key::Uint(1)),
                    ),
                );
            },
        };
        let typ = match self.typ {
            Some(x) => x,
            None => {
                return Err(
                    DeserializeError::from_failure(
                        DeserializeFailure::MandatoryFieldMissing(Key::Uint(16)),
                    ),
                );
            },
        };
        let custom = match self.custom {
            Some(x) => x,
            None => {
                return Err(
                    DeserializeError::from_failure(
                        DeserializeFailure::MandatoryFieldMissing(
                            Key::Str(String::from_str("custom")),
                        ),
                    ),
                );
            },
        };
        Ok(SdProtected { alg, typ, custom, encodings: Some(self.encodings) })
    }

    fn read_uint_key(&mut self, raw: &mut Reader, key: u64, key_enc: Sz) -> (r: Result<
        (),
        DeserializeError,
    >)
        ensures
            final(raw).bytes() == old(raw).bytes(),
            match old(self)@.after_uint_key(key, key_enc, old(raw).rest()) {
                Ok((next, n)) => r is Ok && final(self)@ == next && old(raw).advanced(
                    final(raw),
                    n,
                ),
                Err(e) => r matches Err(x) && x@ == e,
            },
    {
        if key == KEY_ALG {
            if self.alg.is_some() {
                return Err(
                    DeserializeError::from_failure(DeserializeFailure::DuplicateKey(Key::Uint(1))),
                );
            }
            match Int::deserialize(raw) {
                Ok(alg) => {
                    self.alg = Some(alg);
                    self.encodings.alg_key_encoding = Some(key_enc);
                    self.encodings.orig_deser_order.push(0);
                    Ok(())
                },
                Err(e) => Err(e.annotate("alg")),
            }
        } else if key == KEY_TYP {
            if self.typ.is_some() {
                return Err(
                    DeserializeError::from_failure(
                        DeserializeFailure::DuplicateKey(Key::Uint(16)),
                    ),
                );
            }
            match read_text_enc(raw) {
                Ok((typ, typ_encoding)) => {
                    self.typ = Some(typ);
                    self.encodings.typ_encoding = typ_encoding;
                    self.encodings.typ_key_encoding = Some(key_enc);
                    self.encodings.orig_deser_order.push(1);
                    Ok(())
                },
                Err(e) => Err(DeserializeError::from_cbor(e).annotate("typ")),
            }
        } else {
            Err(DeserializeError::from_failure(DeserializeFailure::UnknownKey(Key::Uint(key))))
        }
    }

    fn read_text_key(&mut self, raw: &mut Reader, key: String, key_enc: StringEncoding) -> (r:
        Result<(), DeserializeError>)
        ensures
            final(raw).bytes() == old(raw).bytes(),
            match old(self)@.after_text_key(key@, key_enc@, old(raw).rest()) {
                Ok((next, n)) => r is Ok && final(self)@ == next && old(raw).advanced(
                    final(raw),
                    n,
                ),
                Err(e) => r matches Err(x) && x@ == e,
            },
    {
        if key == String::from_str("custom") {
            if self.custom.is_some() {
                return Err(
                    DeserializeError::from_failure(DeserializeFailure::DuplicateKey(Key::Str(key))),
                );
            }
            match deserialize_table(raw) {
                Ok((custom, custom_encoding)) => {
                    self.custom = Some(custom);
                    self.encodings.custom_encoding = custom_encoding;
                    self.encodings.custom_key_encoding = key_enc;
                    self.encodings.orig_deser_order.push(2);
                    Ok(())
                },
                Err(e) => Err(e.annotate("custom")),
            }
        } else {
            Err(DeserializeError::from_failure(DeserializeFailure::UnknownKey(Key::Str(key))))
        }
    }

    fn read_entry(&mut self, raw: &mut Reader) -> (r: Result<(), DeserializeError>)
        ensures
            final(raw).bytes() == old(raw).bytes(),
            match old(self)@.after_entry(old(raw).rest()) {
                Ok((next, n)) => {
                    &&& r is Ok
                    &&& final(self)@ == next
                    &&& old(raw).advanced(final(raw), n)
                    &&& 0 < n <= old(raw).rest().len()
                },
                Err(e) => r matches Err(x) && x@ == e,
            },
    {
        reveal(ProtectedScan::after_entry);
        reveal(parse_text);
        let at = raw.position();
        let kind = match raw.cbor_type() {
            Ok(kind) => kind,
            Err(e) => {
                return Err(DeserializeError::from_cbor(e));
            },
        };
        let r = match kind {
            Type::UnsignedInteger => match raw.unsigned_integer_sz() {
                Ok((key, key_enc)) => self.read_uint_key(raw, key, key_enc),
                Err(e) => Err(DeserializeError::from_cbor(e)),
            },
            Type::Text => match read_text_enc(raw) {
                Ok((key, key_enc)) => self.read_text_key(raw, key, key_enc),
                Err(e) => Err(DeserializeError::from_cbor(e)),
            },
            other_type => Err(
                DeserializeError::from_failure(DeserializeFailure::UnexpectedKeyType(other_type)),
            ),
        };
        let after = raw.position();
        r
    }
}

impl SdProtected {
    /// A protected header, to be written in the shortest form.
    pub fn new(alg: Int, typ: String, custom: OrderedHashMap) -> (r: Self)
        ensures
            r@ == (SdProtectedView { alg, typ: typ@, custom: custom@, encodings: None }),
    {
        SdProtected { alg, typ, custom, encodings: None }
    }

    fn write_field(&self, index: usize, out: &mut Vec<u8>) -> (r: Result<(), cbor_event::Error>)
        requires
            index < 3,
        ensures
            r is Ok <==> self@.field_encodable(index),
            r is Ok ==> final(out)@ == old(out)@ + self@.field_wire(index),
    {
        let plain = SdProtectedEncoding::default();
        let form = match &self.encodings {
            Some(e) => e,
            None => &plain,
        };
        if index == 0 {
            let _ = write_unsigned_integer(out, KEY_ALG, fit_sz(KEY_ALG, form.alg_key_encoding));
            let r = self.alg.serialize(out);
            assert(final(out)@ =~= old(out)@ + self@.field_wire(index));
            r
        } else if index == 1 {
            let _ = write_unsigned_integer(out, KEY_TYP, fit_sz(KEY_TYP, form.typ_key_encoding));
            let r = write_text_as(out, self.typ.as_str(), &form.typ_encoding);
            assert(r is Ok ==> final(out)@ =~= old(out)@ + self@.field_wire(index));
            r
        } else {
            match write_text_as(out, "custom", &form.custom_key_encoding) {
                Ok(_) => {},
                Err(e) => {
                    return Err(e);
                },
            }
            let r = serialize_table(&self.custom, form.custom_encoding, out);
            assert(r is Ok ==> final(out)@ =~= old(out)@ + self@.field_wire(index));
            r
        }
    }

    /// Writes the header. Fails where a text cannot be written the way its
    /// descriptor says. Every number in a recorded order must be the number
    /// of a field.
    pub fn serialize(&self, out: &mut Vec<u8>) -> (r: Result<(), cbor_event::Error>)
        requires
            self@.well_formed(),
        ensures
            r is Ok <==> self@.encodable(),
            r is Ok ==> final(out)@ == old(out)@ + self@.wire(),
    {
        reveal(SdProtectedView::wire);
        let len_encoding = match &self.encodings {
            Some(e) => e.len_encoding,
            None => LenEncoding::Canonical,
        };
        let _ = write_map(out, len_encoding.to_len_sz(3));
        let ghost start = len_head(MAJOR_MAP, len_encoding.head_for(3));
        let ghost order = self@.order();
        let mut i: usize = 0;
        while i < 3
            invariant
                i <= 3,
                order == self@.order(),
                order.len() == 3,
                self@.well_formed(),
                out@ == old(out)@ + start + self@.fields_wire(order.take(i as int)),
                forall|j: int| 0 <= j < i ==> self@.field_encodable(#[trigger] order[j]),
            decreases 3 - i,
        {
            let index = match &self.encodings {
                Some(e) => if e.orig_deser_order.len() == 3 {
                    e.orig_deser_order[i]
                } else {
                    i
                },
                None => i,
            };
            assert(index == order[i as int]);
            match self.write_field(index, out) {
                Ok(_) => {},
                Err(e) => {
                    return Err(e);
                },
            }
            proof {
                let next = order.take(i + 1);
                assert(next.drop_last() =~= order.take(i as int));
                assert(next.last() == order[i as int]);
                assert(out@ =~= old(out)@ + start + self@.fields_wire(next));
            }
            i = i + 1;
        }
        assert(order.take(3) =~= order);
        let r = len_encoding.end(out);
        assert(final(out)@ =~= old(out)@ + self@.wire());
        r
    }

    fn deserialize_fields(raw: &mut Reader, len: LenSz) -> (r: Result<
        SdProtected,
        DeserializeError,
    >)
        ensures
            decoded(*old(raw), *final(raw), r, SdProtectedView::parse_fields(old(raw).rest(), len)),
    {
        let _ = raw.position();
        let ghost body = raw.rest();
        let ghost whole = parse_items(protected_reader(len), len, Seq::empty(), body);
        let mut st = ProtectedBuilder::new(len);
        let mut read: usize = 0;
        let ghost mut acc: Seq<ProtectedScan> = Seq::empty();
        let ghost mut used: nat = 0;
        loop
            invariant
                raw.bytes() == old(raw).bytes(),
                old(raw).advanced(raw, used),
                body == old(raw).rest(),
                whole == parse_items(protected_reader(len), len, Seq::empty(), body),
                whole == shifted(parse_items(protected_reader(len), len, acc, raw.rest()), used),
                acc.len() == read,
                read <= used,
                st@ == ProtectedScan::after(len, acc),
            decreases raw.bytes().len() - raw.offset(),
        {
            let at = raw.position();
            if !more_items(len, read) {
                return st.finish();
            }
            match next_item(raw, len, read) {
                Ok(Next::Item) => {},
                Ok(Next::End) => {
                    return st.finish();
                },
                Err(e) => {
                    return Err(e);
                },
            }
            match st.read_entry(raw) {
                Ok(_) => {},
                Err(e) => {
                    return Err(e);
                },
            }
            let after = raw.position();
            read = read + 1;
            proof {
                acc = acc.push(st@);
                used = used + (after - at) as nat;
            }
        }
    }

    /// Reads a protected header.
    pub fn deserialize(raw: &mut Reader) -> (r: Result<SdProtected, DeserializeError>)
        ensures
            decoded(*old(raw), *final(raw), r, SdProtectedView::parse(old(raw).rest())),
    {
        reveal(SdProtectedView::parse);
        let len = match raw.map_sz() {
            Ok(len) => len,
            Err(e) => {
                return Err(DeserializeError::from_cbor(e));
            },
        };
        match Self::deserialize_fields(raw, len) {
            Ok(v) => Ok(v),
            Err(e) => Err(e.annotate("SdProtected")),
        }
    }
}

} // verus!
