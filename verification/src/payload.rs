//! The claims of a token: a map from integer keys to the registered claims,
//! and from the text key `custom` to the extension entries. The audience,
//! the time of issue and the extension entries must be there; every other
//! claim may be missing. No key may stand twice, and no key may stand that
//! is not listed here.

use crate::error::{
    annotated_result, bare, cbor_error, DeserializeError, DeserializeFailure, ErrorView,
    FailureView, Key, KeyView,
};
use crate::integer::Int;
use crate::ordered_hash_map::{
    deserialize_table, entries_encodable, parse_table, serialize_table, table_wire, EntryView,
    OrderedHashMap,
};
use crate::raw::{write_array, write_map, write_unsigned_integer};
use crate::reader::{decoded, Reader};
use crate::serialization::{
    bytes_encodable, bytes_wire, claim, close, fit_sz, fitting, more_items, next_item,
    parse_bytes, parse_items, parse_text, read_bytes_enc, read_text_enc, shifted,
    text_encodable, text_wire, write_bytes_as, write_text_as, CBORReadLen, LenEncoding, Next,
    StringEncoding, StringEncodingView,
};
use crate::unprotected::one_if;
use crate::wire::{
    head, len_head, len_width, parse_arg, parse_len, type_of, width, MAJOR_ARRAY, MAJOR_MAP,
    MAJOR_UINT,
};
use cbor_event::{LenSz, Sz, Type};
use vstd::prelude::*;
use vstd::string::StringExecFns;

verus! {

broadcast use {vstd::seq_lib::lemma_seq_skip_of_skip, vstd::seq_lib::lemma_seq_skip_nothing};

/// The key of the issuer.
pub const KEY_ISS: u64 = 1;

/// The key of the subject.
pub const KEY_SUB: u64 = 2;

/// The key of the audience.
pub const KEY_AUD: u64 = 3;

/// The key of the expiry time.
pub const KEY_EXP: u64 = 4;

/// The key of the time before which the token is not valid.
pub const KEY_NBF: u64 = 5;

/// The key of the time of issue.
pub const KEY_IAT: u64 = 6;

/// The key of the client nonce.
pub const KEY_CNONCE: u64 = 39;

/// The key of the confirmation.
pub const KEY_CNF: u64 = 8;

/// The key of the hash of the disclosures.
pub const KEY_SD_HASH: u64 = 1113;

/// The key of the hash algorithm.
pub const KEY_SD_ALG: u64 = 1114;

/// The key of the digests of the redacted claims.
pub const KEY_REDACTED_KEYS: u64 = 1115;

/// The number of fields of the claims.
pub const FIELDS: usize = 12;

/// A digest as it stands in a list: its bytes and the way they were written.
pub type DigestView = (Seq<u8>, StringEncodingView);

/// What a list of digests stands for.
pub open spec fn digest_views(items: Seq<Vec<u8>>) -> Seq<Seq<u8>> {
    Seq::new(items.len(), |i: int| items[i]@)
}

/// What a list of string descriptors stands for.
pub open spec fn encoding_views(items: Seq<StringEncoding>) -> Seq<StringEncodingView> {
    Seq::new(items.len(), |i: int| items[i]@)
}

/// The bytes of the digests of a list.
pub open spec fn digest_bytes(items: Seq<DigestView>) -> Seq<Seq<u8>> {
    Seq::new(items.len(), |i: int| items[i].0)
}

/// The descriptors of the digests of a list.
pub open spec fn digest_encodings(items: Seq<DigestView>) -> Seq<StringEncodingView> {
    Seq::new(items.len(), |i: int| items[i].1)
}

/// The digest at the start of `s`, as one item of a list.
#[verifier::opaque]
pub open spec fn parse_digest(acc: Seq<DigestView>, s: Seq<u8>) -> Result<
    (DigestView, nat),
    ErrorView,
> {
    match parse_bytes(s) {
        Some((data, enc, n)) => Ok(((data, enc), n)),
        None => Err(cbor_error()),
    }
}

/// How one digest of a list is read.
pub open spec fn digest_reader() -> spec_fn(Seq<DigestView>, Seq<u8>) -> Result<
    (DigestView, nat),
    ErrorView,
> {
    |acc: Seq<DigestView>, s: Seq<u8>| parse_digest(acc, s)
}

/// The list of digests at the start of `s`: the digests, how the length was
/// written, and the bytes that the list takes.
#[verifier::opaque]
pub open spec fn parse_digests(s: Seq<u8>) -> Result<((Seq<DigestView>, LenEncoding), nat), ErrorView> {
    match parse_len(MAJOR_ARRAY, s) {
        Some(len) => {
            let start = 1 + len_width(len);
            match parse_items(digest_reader(), len, Seq::empty(), s.skip(start as int)) {
                Ok((items, n)) => Ok(((items, LenEncoding::of(len)), start + n)),
                Err(e) => Err(e),
            }
        },
        None => Err(cbor_error()),
    }
}

/// How the digest at a position is written: as recorded for that position,
/// or in the shortest form.
pub open spec fn digest_encoding(encodings: Seq<StringEncodingView>, i: int) -> StringEncodingView {
    if 0 <= i < encodings.len() {
        encodings[i]
    } else {
        StringEncodingView::Canonical
    }
}

/// Whether every digest of a list can be written the way its descriptor
/// says.
pub open spec fn digests_encodable(items: Seq<Seq<u8>>, encodings: Seq<StringEncodingView>) -> bool {
    forall|i: int|
        0 <= i < items.len() ==> bytes_encodable(#[trigger] items[i], digest_encoding(encodings, i))
}

/// The first `count` digests one after the other.
pub open spec fn digest_items_wire(
    items: Seq<Seq<u8>>,
    encodings: Seq<StringEncodingView>,
    count: nat,
) -> Seq<u8>
    decreases count,
{
    if count == 0 || count > items.len() {
        Seq::empty()
    } else {
        digest_items_wire(items, encodings, (count - 1) as nat) + bytes_wire(
            items[count - 1],
            digest_encoding(encodings, count - 1),
        )
    }
}

/// The bytes that a list of digests is written as.
#[verifier::opaque]
pub open spec fn digests_wire(
    items: Seq<Seq<u8>>,
    encodings: Seq<StringEncodingView>,
    enc: LenEncoding,
) -> Seq<u8> {
    len_head(MAJOR_ARRAY, enc.head_for(items.len() as u64)) + digest_items_wire(
        items,
        encodings,
        items.len(),
    ) + enc.ending()
}

/// Writes a list of digests. Fails where one of them cannot be written the
/// way its descriptor says.
pub fn serialize_digests(
    items: &Vec<Vec<u8>>,
    encodings: &Vec<StringEncoding>,
    enc: LenEncoding,
    out: &mut Vec<u8>,
) -> (r: Result<(), cbor_event::Error>)
    ensures
        r is Ok <==> digests_encodable(digest_views(items@), encoding_views(encodings@)),
        r is Ok ==> final(out)@ == old(out)@ + digests_wire(
            digest_views(items@),
            encoding_views(encodings@),
            enc,
        ),
{
    reveal(digests_wire);
    let ghost views = digest_views(items@);
    let ghost forms = encoding_views(encodings@);
    let _ = write_array(out, enc.to_len_sz(items.len() as u64));
    let ghost start = len_head(MAJOR_ARRAY, enc.head_for(views.len() as u64));
    let canonical = StringEncoding::Canonical;
    let mut i: usize = 0;
    while i < items.len()
        invariant
            i <= items@.len(),
            views == digest_views(items@),
            forms == encoding_views(encodings@),
            canonical@ == StringEncodingView::Canonical,
            out@ == old(out)@ + start + digest_items_wire(views, forms, i as nat),
            forall|j: int|
                0 <= j < i ==> bytes_encodable(#[trigger] views[j], digest_encoding(forms, j)),
        decreases items@.len() - i,
    {
        let form = if i < encodings.len() {
            &encodings[i]
        } else {
            &canonical
        };
        assert(form@ == digest_encoding(forms, i as int));
        match write_bytes_as(out, &items[i], form) {
            Ok(_) => {},
            Err(e) => {
                assert(!bytes_encodable(views[i as int], digest_encoding(forms, i as int)));
                return Err(e);
            },
        }
        assert(out@ =~= old(out)@ + start + digest_items_wire(views, forms, (i + 1) as nat));
        i = i + 1;
    }
    let r = enc.end(out);
    assert(final(out)@ =~= old(out)@ + digests_wire(views, forms, enc));
    r
}

fn read_digest(raw: &mut Reader, Ghost(acc): Ghost<Seq<DigestView>>) -> (r: Result<
    (Vec<u8>, StringEncoding),
    DeserializeError,
>)
    ensures
        final(raw).bytes() == old(raw).bytes(),
        match parse_digest(acc, old(raw).rest()) {
            Ok((item, n)) => {
                &&& r matches Ok(x)
                &&& x.0@ == item.0
                &&& x.1@ == item.1
                &&& old(raw).advanced(final(raw), n)
                &&& 0 < n <= old(raw).rest().len()
            },
            Err(e) => r matches Err(x) && x@ == e,
        },
{
    reveal(parse_digest);
    reveal(parse_bytes);
    let at = raw.position();
    let r = match read_bytes_enc(raw) {
        Ok(x) => Ok(x),
        Err(e) => Err(DeserializeError::from_cbor(e)),
    };
    let after = raw.position();
    r
}

/// Reads a list of digests: the digests, how the length was written, and how
/// each digest was written.
pub fn deserialize_digests(raw: &mut Reader) -> (r: Result<
    (Vec<Vec<u8>>, LenEncoding, Vec<StringEncoding>),
    DeserializeError,
>)
    ensures
        final(raw).bytes() == old(raw).bytes(),
        match parse_digests(old(raw).rest()) {
            Ok(((items, enc), n)) => {
                &&& r matches Ok(x)
                &&& digest_views(x.0@) == digest_bytes(items)
                &&& x.1 == enc
                &&& encoding_views(x.2@) == digest_encodings(items)
                &&& old(raw).advanced(final(raw), n)
            },
            Err(e) => r matches Err(x) && x@ == e,
        },
{
    reveal(parse_digests);
    let len = match raw.array_sz() {
        Ok(len) => len,
        Err(e) => {
            return Err(DeserializeError::from_cbor(e));
        },
    };
    let ghost start = 1 + len_width(len);
    let ghost body = raw.rest();
    let ghost whole = parse_items(digest_reader(), len, Seq::empty(), body);
    let mut items: Vec<Vec<u8>> = Vec::new();
    let mut encodings: Vec<StringEncoding> = Vec::new();
    let ghost mut acc: Seq<DigestView> = Seq::empty();
    let ghost mut used: nat = 0;
    assert(digest_views(items@) =~= digest_bytes(acc));
    assert(encoding_views(encodings@) =~= digest_encodings(acc));
    loop
        invariant
            raw.bytes() == old(raw).bytes(),
            old(raw).advanced(raw, start + used),
            parse_len(MAJOR_ARRAY, old(raw).rest()) == Some(len),
            start == 1 + len_width(len),
            body == old(raw).rest().skip(start as int),
            whole == parse_items(digest_reader(), len, Seq::empty(), body),
            whole == shifted(parse_items(digest_reader(), len, acc, raw.rest()), used),
            acc.len() == items@.len(),
            acc.len() == encodings@.len(),
            digest_views(items@) == digest_bytes(acc),
            encoding_views(encodings@) == digest_encodings(acc),
        decreases raw.bytes().len() - raw.offset(),
    {
        reveal(parse_digests);
        let at = raw.position();
        if !more_items(len, items.len()) {
            return Ok((items, LenEncoding::from_len_sz(len), encodings));
        }
        match next_item(raw, len, items.len()) {
            Ok(Next::Item) => {},
            Ok(Next::End) => {
                return Ok((items, LenEncoding::from_len_sz(len), encodings));
            },
            Err(e) => {
                return Err(e);
            },
        }
        let (item, form) = match read_digest(raw, Ghost(acc)) {
            Ok(x) => x,
            Err(e) => {
                return Err(e);
            },
        };
        let after = raw.position();
        let ghost items_before = items@;
        let ghost encodings_before = encodings@;
        let ghost acc_before = acc;
        proof {
            acc = acc.push((item@, form@));
        }
        items.push(item);
        encodings.push(form);
        proof {
            assert forall|j: int| 0 <= j < items@.len() implies digest_views(items@)[j]
                == digest_bytes(acc)[j] by {
                if j < items_before.len() {
                    assert(digest_views(items_before)[j] == digest_bytes(acc_before)[j]);
                }
            }
            assert(digest_views(items@) =~= digest_bytes(acc));
            assert forall|j: int| 0 <= j < encodings@.len() implies encoding_views(encodings@)[j]
                == digest_encodings(acc)[j] by {
                if j < encodings_before.len() {
                    assert(encoding_views(encodings_before)[j] == digest_encodings(acc_before)[j]);
                }
            }
            assert(encoding_views(encodings@) =~= digest_encodings(acc));
            used = used + (after - at) as nat;
        }
    }
}

/// How the claims were written.
#[derive(Debug)]
pub struct SdPayloadEncoding {
    pub len_encoding: LenEncoding,
    pub orig_deser_order: Vec<usize>,
    pub iss_encoding: StringEncoding,
    pub iss_key_encoding: Option<Sz>,
    pub sub_encoding: StringEncoding,
    pub sub_key_encoding: Option<Sz>,
    pub aud_encoding: StringEncoding,
    pub aud_key_encoding: Option<Sz>,
    pub exp_key_encoding: Option<Sz>,
    pub nbf_key_encoding: Option<Sz>,
    pub iat_key_encoding: Option<Sz>,
    pub cnonce_encoding: StringEncoding,
    pub cnonce_key_encoding: Option<Sz>,
    pub cnf_encoding: LenEncoding,
    pub cnf_key_encoding: Option<Sz>,
    pub sd_hash_encoding: StringEncoding,
    pub sd_hash_key_encoding: Option<Sz>,
    pub sd_alg_key_encoding: Option<Sz>,
    pub redacted_keys_encoding: LenEncoding,
    pub redacted_keys_elem_encodings: Vec<StringEncoding>,
    pub redacted_keys_key_encoding: Option<Sz>,
    pub custom_encoding: LenEncoding,
    pub custom_key_encoding: StringEncoding,
}

/// What an `SdPayloadEncoding` stands for.
pub struct SdPayloadEncodingView {
    pub len_encoding: LenEncoding,
    pub orig_deser_order: Seq<usize>,
    pub iss_encoding: StringEncodingView,
    pub iss_key_encoding: Option<Sz>,
    pub sub_encoding: StringEncodingView,
    pub sub_key_encoding: Option<Sz>,
    pub aud_encoding: StringEncodingView,
    pub aud_key_encoding: Option<Sz>,
    pub exp_key_encoding: Option<Sz>,
    pub nbf_key_encoding: Option<Sz>,
    pub iat_key_encoding: Option<Sz>,
    pub cnonce_encoding: StringEncodingView,
    pub cnonce_key_encoding: Option<Sz>,
    pub cnf_encoding: LenEncoding,
    pub cnf_key_encoding: Option<Sz>,
    pub sd_hash_encoding: StringEncodingView,
    pub sd_hash_key_encoding: Option<Sz>,
    pub sd_alg_key_encoding: Option<Sz>,
    pub redacted_keys_encoding: LenEncoding,
    pub redacted_keys_elem_encodings: Seq<StringEncodingView>,
    pub redacted_keys_key_encoding: Option<Sz>,
    pub custom_encoding: LenEncoding,
    pub custom_key_encoding: StringEncodingView,
}

impl View for SdPayloadEncoding {
    type V = SdPayloadEncodingView;

    open spec fn view(&self) -> SdPayloadEncodingView {
        SdPayloadEncodingView {
            len_encoding: self.len_encoding,
            orig_deser_order: self.orig_deser_order@,
            iss_encoding: self.iss_encoding@,
            iss_key_encoding: self.iss_key_encoding,
            sub_encoding: self.sub_encoding@,
            sub_key_encoding: self.sub_key_encoding,
            aud_encoding: self.aud_encoding@,
            aud_key_encoding: self.aud_key_encoding,
            exp_key_encoding: self.exp_key_encoding,
            nbf_key_encoding: self.nbf_key_encoding,
            iat_key_encoding: self.iat_key_encoding,
            cnonce_encoding: self.cnonce_encoding@,
            cnonce_key_encoding: self.cnonce_key_encoding,
            cnf_encoding: self.cnf_encoding,
            cnf_key_encoding: self.cnf_key_encoding,
            sd_hash_encoding: self.sd_hash_encoding@,
            sd_hash_key_encoding: self.sd_hash_key_encoding,
            sd_alg_key_encoding: self.sd_alg_key_encoding,
            redacted_keys_encoding: self.redacted_keys_encoding,
            redacted_keys_elem_encodings: encoding_views(self.redacted_keys_elem_encodings@),
            redacted_keys_key_encoding: self.redacted_keys_key_encoding,
            custom_encoding: self.custom_encoding,
            custom_key_encoding: self.custom_key_encoding@,
        }
    }
}

impl SdPayloadEncodingView {
    /// The wire form of claims that are written in the shortest form, in the
    /// order of the fields.
    pub open spec fn plain() -> SdPayloadEncodingView {
        SdPayloadEncodingView {
            len_encoding: LenEncoding::Canonical,
            orig_deser_order: Seq::empty(),
            iss_encoding: StringEncodingView::Canonical,
            iss_key_encoding: None,
            sub_encoding: StringEncodingView::Canonical,
            sub_key_encoding: None,
            aud_encoding: StringEncodingView::Canonical,
            aud_key_encoding: None,
            exp_key_encoding: None,
            nbf_key_encoding: None,
            iat_key_encoding: None,
            cnonce_encoding: StringEncodingView::Canonical,
            cnonce_key_encoding: None,
            cnf_encoding: LenEncoding::Canonical,
            cnf_key_encoding: None,
            sd_hash_encoding: StringEncodingView::Canonical,
            sd_hash_key_encoding: None,
            sd_alg_key_encoding: None,
            redacted_keys_encoding: LenEncoding::Canonical,
            redacted_keys_elem_encodings: Seq::empty(),
            redacted_keys_key_encoding: None,
            custom_encoding: LenEncoding::Canonical,
            custom_key_encoding: StringEncodingView::Canonical,
        }
    }
}

impl Default for SdPayloadEncoding {
    fn default() -> (r: Self)
        ensures
            r@ == SdPayloadEncodingView::plain(),
    {
        let r = SdPayloadEncoding {
            len_encoding: LenEncoding::Canonical,
            orig_deser_order: Vec::new(),
            iss_encoding: StringEncoding::Canonical,
            iss_key_encoding: None,
            sub_encoding: StringEncoding::Canonical,
            sub_key_encoding: None,
            aud_encoding: StringEncoding::Canonical,
            aud_key_encoding: None,
            exp_key_encoding: None,
            nbf_key_encoding: None,
            iat_key_encoding: None,
            cnonce_encoding: StringEncoding::Canonical,
            cnonce_key_encoding: None,
            cnf_encoding: LenEncoding::Canonical,
            cnf_key_encoding: None,
            sd_hash_encoding: StringEncoding::Canonical,
            sd_hash_key_encoding: None,
            sd_alg_key_encoding: None,
            redacted_keys_encoding: LenEncoding::Canonical,
            redacted_keys_elem_encodings: Vec::new(),
            redacted_keys_key_encoding: None,
            custom_encoding: LenEncoding::Canonical,
            custom_key_encoding: StringEncoding::Canonical,
        };
        assert(r@.redacted_keys_elem_encodings =~= Seq::empty());
        r
    }
}

/// The claims of a token.
#[derive(Debug)]
pub struct SdPayload {
    pub iss: Option<String>,
    pub sub: Option<String>,
    pub aud: String,
    pub exp: Option<Int>,
    pub nbf: Option<Int>,
    pub iat: Int,
    pub cnonce: Option<Vec<u8>>,
    pub cnf: Option<OrderedHashMap>,
    pub sd_hash: Option<Vec<u8>>,
    pub sd_alg: Option<Int>,
    pub redacted_keys: Option<Vec<Vec<u8>>>,
    pub custom: OrderedHashMap,
    pub encodings: Option<SdPayloadEncoding>,
}

/// What an `SdPayload` stands for.
pub struct SdPayloadView {
    pub iss: Option<Seq<char>>,
    pub sub: Option<Seq<char>>,
    pub aud: Seq<char>,
    pub exp: Option<Int>,
    pub nbf: Option<Int>,
    pub iat: Int,
    pub cnonce: Option<Seq<u8>>,
    pub cnf: Option<Seq<EntryView>>,
    pub sd_hash: Option<Seq<u8>>,
    pub sd_alg: Option<Int>,
    pub redacted_keys: Option<Seq<Seq<u8>>>,
    pub custom: Seq<EntryView>,
    pub encodings: Option<SdPayloadEncodingView>,
}

impl View for SdPayload {
    type V = SdPayloadView;

    open spec fn view(&self) -> SdPayloadView {
        SdPayloadView {
            iss: match self.iss {
                Some(v) => Some(v@),
                None => None,
            },
            sub: match self.sub {
                Some(v) => Some(v@),
                None => None,
            },
            aud: self.aud@,
            exp: self.exp,
            nbf: self.nbf,
            iat: self.iat,
            cnonce: match self.cnonce {
                Some(v) => Some(v@),
                None => None,
            },
            cnf: match self.cnf {
                Some(v) => Some(v@),
                None => None,
            },
            sd_hash: match self.sd_hash {
                Some(v) => Some(v@),
                None => None,
            },
            sd_alg: self.sd_alg,
            redacted_keys: match self.redacted_keys {
                Some(v) => Some(digest_views(v@)),
                None => None,
            },
            custom: self.custom@,
            encodings: match self.encodings {
                Some(e) => Some(e@),
                None => None,
            },
        }
    }
}

/// What has been found of the claims while the entries are read.
pub struct PayloadScan {
    pub iss: Option<Seq<char>>,
    pub sub: Option<Seq<char>>,
    pub aud: Option<Seq<char>>,
    pub exp: Option<Int>,
    pub nbf: Option<Int>,
    pub iat: Option<Int>,
    pub cnonce: Option<Seq<u8>>,
    pub cnf: Option<Seq<EntryView>>,
    pub sd_hash: Option<Seq<u8>>,
    pub sd_alg: Option<Int>,
    pub redacted_keys: Option<Seq<Seq<u8>>>,
    pub custom: Option<Seq<EntryView>>,
    pub encodings: SdPayloadEncodingView,
    /// The length that the head of the map declared.
    pub len: LenSz,
    /// How many entries have been claimed of a definite length.
    pub claimed: u64,
}

impl PayloadScan {
    /// Nothing found yet, in a map whose head declared `len` and of whose
    /// entries `claimed` are claimed.
    pub open spec fn start(len: LenSz, claimed: u64) -> PayloadScan {
        PayloadScan {
            iss: None,
            sub: None,
            aud: None,
            exp: None,
            nbf: None,
            iat: None,
            cnonce: None,
            cnf: None,
            sd_hash: None,
            sd_alg: None,
            redacted_keys: None,
            custom: None,
            encodings: SdPayloadEncodingView {
                len_encoding: LenEncoding::of(len),
                ..SdPayloadEncodingView::plain()
            },
            len,
            claimed,
        }
    }

    /// What has been found after the entries whose states are `acc`.
    pub open spec fn after(start: PayloadScan, acc: Seq<PayloadScan>) -> PayloadScan {
        if acc.len() == 0 {
            start
        } else {
            acc.last()
        }
    }

    /// The claims that were found, or why the map holds none: a field that
    /// must be there is missing, or a definite length declares more entries
    /// than the map holds.
    pub open spec fn finished(self) -> Result<SdPayloadView, FailureView> {
        match self.aud {
            Some(aud) => match self.iat {
                Some(iat) => match self.custom {
                    Some(custom) => match close(self.len, self.claimed) {
                        Ok(_) => Ok(
                            SdPayloadView {
                                iss: self.iss,
                                sub: self.sub,
                                aud,
                                exp: self.exp,
                                nbf: self.nbf,
                                iat,
                                cnonce: self.cnonce,
                                cnf: self.cnf,
                                sd_hash: self.sd_hash,
                                sd_alg: self.sd_alg,
                                redacted_keys: self.redacted_keys,
                                custom,
                                encodings: Some(self.encodings),
                            },
                        ),
                        Err(f) => Err(f),
                    },
                    None => Err(FailureView::MandatoryFieldMissing(KeyView::Str("custom"@))),
                },
                None => Err(FailureView::MandatoryFieldMissing(KeyView::Uint(6))),
            },
            None => Err(FailureView::MandatoryFieldMissing(KeyView::Uint(3))),
        }
    }

    /// The state after the issuer is read from the start of `s`, before the
    /// error is given its place.
    pub open spec fn after_iss(self, key_enc: Sz, s: Seq<u8>) -> Result<(PayloadScan, nat), ErrorView> {
        match claim(self.len, self.claimed, 1) {
            Ok(claimed) => match parse_text(s) {
                Some((iss, iss_encoding, n)) => Ok(
                    (
                        PayloadScan {
                            iss: Some(iss),
                            encodings: SdPayloadEncodingView {
                                iss_encoding,
                                iss_key_encoding: Some(key_enc),
                                orig_deser_order: self.encodings.orig_deser_order.push(0),
                                ..self.encodings
                            },
                            claimed,
                            ..self
                        },
                        n,
                    ),
                ),
                None => Err(cbor_error()),
            },
            Err(f) => Err(bare(f)),
        }
    }

    /// The state after the subject is read from the start of `s`, before the
    /// error is given its place.
    pub open spec fn after_sub(self, key_enc: Sz, s: Seq<u8>) -> Result<(PayloadScan, nat), ErrorView> {
        match claim(self.len, self.claimed, 1) {
            Ok(claimed) => match parse_text(s) {
                Some((sub, sub_encoding, n)) => Ok(
                    (
                        PayloadScan {
                            sub: Some(sub),
                            encodings: SdPayloadEncodingView {
                                sub_encoding,
                                sub_key_encoding: Some(key_enc),
                                orig_deser_order: self.encodings.orig_deser_order.push(1),
                                ..self.encodings
                            },
                            claimed,
                            ..self
                        },
                        n,
                    ),
                ),
                None => Err(cbor_error()),
            },
            Err(f) => Err(bare(f)),
        }
    }

    /// The state after the audience is read from the start of `s`, before the
    /// error is given its place.
    pub open spec fn after_aud(self, key_enc: Sz, s: Seq<u8>) -> Result<(PayloadScan, nat), ErrorView> {
        match claim(self.len, self.claimed, 1) {
            Ok(claimed) => match parse_text(s) {
                Some((aud, aud_encoding, n)) => Ok(
                    (
                        PayloadScan {
                            aud: Some(aud),
                            encodings: SdPayloadEncodingView {
                                aud_encoding,
                                aud_key_encoding: Some(key_enc),
                                orig_deser_order: self.encodings.orig_deser_order.push(2),
                                ..self.encodings
                            },
                            claimed,
                            ..self
                        },
                        n,
                    ),
                ),
                None => Err(cbor_error()),
            },
            Err(f) => Err(bare(f)),
        }
    }

    /// The state after the expiry time is read from the start of `s`, before the
    /// error is given its place.
    pub open spec fn after_exp(self, key_enc: Sz, s: Seq<u8>) -> Result<(PayloadScan, nat), ErrorView> {
        match claim(self.len, self.claimed, 1) {
            Ok(claimed) => match Int::parse(s) {
                Ok((exp, n)) => Ok(
                    (
                        PayloadScan {
                            exp: Some(exp),
                            encodings: SdPayloadEncodingView {
                                exp_key_encoding: Some(key_enc),
                                orig_deser_order: self.encodings.orig_deser_order.push(3),
                                ..self.encodings
                            },
                            claimed,
                            ..self
                        },
                        n,
                    ),
                ),
                Err(e) => Err(e),
            },
            Err(f) => Err(bare(f)),
        }
    }

    /// The state after the time before which the token is not valid is read from the start of `s`, before the
    /// error is given its place.
    pub open spec fn after_nbf(self, key_enc: Sz, s: Seq<u8>) -> Result<(PayloadScan, nat), ErrorView> {
        match claim(self.len, self.claimed, 1) {
            Ok(claimed) => match Int::parse(s) {
                Ok((nbf, n)) => Ok(
                    (
                        PayloadScan {
                            nbf: Some(nbf),
                            encodings: SdPayloadEncodingView {
                                nbf_key_encoding: Some(key_enc),
                                orig_deser_order: self.encodings.orig_deser_order.push(4),
                                ..self.encodings
                            },
                            claimed,
                            ..self
                        },
                        n,
                    ),
                ),
                Err(e) => Err(e),
            },
            Err(f) => Err(bare(f)),
        }
    }

    /// The state after the time of issue is read from the start of `s`, before the
    /// error is given its place.
    pub open spec fn after_iat(self, key_enc: Sz, s: Seq<u8>) -> Result<(PayloadScan, nat), ErrorView> {
        match claim(self.len, self.claimed, 1) {
            Ok(claimed) => match Int::parse(s) {
                Ok((iat, n)) => Ok(
                    (
                        PayloadScan {
                            iat: Some(iat),
                            encodings: SdPayloadEncodingView {
                                iat_key_encoding: Some(key_enc),
                                orig_deser_order: self.encodings.orig_deser_order.push(5),
                                ..self.encodings
                            },
                            claimed,
                            ..self
                        },
                        n,
                    ),
                ),
                Err(e) => Err(e),
            },
            Err(f) => Err(bare(f)),
        }
    }

    /// The state after the client nonce is read from the start of `s`, before the
    /// error is given its place.
    pub open spec fn after_cnonce(self, key_enc: Sz, s: Seq<u8>) -> Result<(PayloadScan, nat), ErrorView> {
        match claim(self.len, self.claimed, 1) {
            Ok(claimed) => match parse_bytes(s) {
                Some((cnonce, cnonce_encoding, n)) => Ok(
                    (
                        PayloadScan {
                            cnonce: Some(cnonce),
                            encodings: SdPayloadEncodingView {
                                cnonce_encoding,
                                cnonce_key_encoding: Some(key_enc),
                                orig_deser_order: self.encodings.orig_deser_order.push(6),
                                ..self.encodings
                            },
                            claimed,
                            ..self
                        },
                        n,
                    ),
                ),
                None => Err(cbor_error()),
            },
            Err(f) => Err(bare(f)),
        }
    }

    /// The state after the confirmation is read from the start of `s`, before the
    /// error is given its place.
    pub open spec fn after_cnf(self, key_enc: Sz, s: Seq<u8>) -> Result<(PayloadScan, nat), ErrorView> {
        match claim(self.len, self.claimed, 1) {
            Ok(claimed) => match parse_table(s) {
                Ok(((cnf, cnf_encoding), n)) => Ok(
                    (
                        PayloadScan {
                            cnf: Some(cnf),
                            encodings: SdPayloadEncodingView {
                                cnf_encoding,
                                cnf_key_encoding: Some(key_enc),
                                orig_deser_order: self.encodings.orig_deser_order.push(7),
                                ..self.encodings
                            },
                            claimed,
                            ..self
                        },
                        n,
                    ),
                ),
                Err(e) => Err(e),
            },
            Err(f) => Err(bare(f)),
        }
    }

    /// The state after the hash of the disclosures is read from the start of `s`, before the
    /// error is given its place.
    pub open spec fn after_sd_hash(self, key_enc: Sz, s: Seq<u8>) -> Result<(PayloadScan, nat), ErrorView> {
        match claim(self.len, self.claimed, 1) {
            Ok(claimed) => match parse_bytes(s) {
                Some((sd_hash, sd_hash_encoding, n)) => Ok(
                    (
                        PayloadScan {
                            sd_hash: Some(sd_hash),
                            encodings: SdPayloadEncodingView {
                                sd_hash_encoding,
                                sd_hash_key_encoding: Some(key_enc),
                                orig_deser_order: self.encodings.orig_deser_order.push(8),
                                ..self.encodings
                            },
                            claimed,
                            ..self
                        },
                        n,
                    ),
                ),
                None => Err(cbor_error()),
            },
            Err(f) => Err(bare(f)),
        }
    }

    /// The state after the hash algorithm is read from the start of `s`, before the
    /// error is given its place.
    pub open spec fn after_sd_alg(self, key_enc: Sz, s: Seq<u8>) -> Result<(PayloadScan, nat), ErrorView> {
        match claim(self.len, self.claimed, 1) {
            Ok(claimed) => match Int::parse(s) {
                Ok((sd_alg, n)) => Ok(
                    (
                        PayloadScan {
                            sd_alg: Some(sd_alg),
                            encodings: SdPayloadEncodingView {
                                sd_alg_key_encoding: Some(key_enc),
                                orig_deser_order: self.encodings.orig_deser_order.push(9),
                                ..self.encodings
                            },
                            claimed,
                            ..self
                        },
                        n,
                    ),
                ),
                Err(e) => Err(e),
            },
            Err(f) => Err(bare(f)),
        }
    }

    /// The state after the digests of the redacted claims is read from the start of `s`, before the
    /// error is given its place.
    pub open spec fn after_redacted_keys(self, key_enc: Sz, s: Seq<u8>) -> Result<(PayloadScan, nat), ErrorView> {
        match claim(self.len, self.claimed, 1) {
            Ok(claimed) => match parse_digests(s) {
                Ok(((items, redacted_keys_encoding), n)) => Ok(
                    (
                        PayloadScan {
                            redacted_keys: Some(digest_bytes(items)),
                            encodings: SdPayloadEncodingView {
                                redacted_keys_encoding,
                                redacted_keys_elem_encodings: digest_encodings(items),
                                redacted_keys_key_encoding: Some(key_enc),
                                orig_deser_order: self.encodings.orig_deser_order.push(10),
                                ..self.encodings
                            },
                            claimed,
                            ..self
                        },
                        n,
                    ),
                ),
                Err(e) => Err(e),
            },
            Err(f) => Err(bare(f)),
        }
    }

    /// The state after the value of the integer key `key`, whose head had
    /// the width `key_enc`, is read from the start of `s`.
    pub open spec fn after_uint_key(self, key: u64, key_enc: Sz, s: Seq<u8>) -> Result<
        (PayloadScan, nat),
        ErrorView,
    > {
        if key == 1 {
            if self.iss is Some {
                Err(bare(FailureView::DuplicateKey(KeyView::Uint(1))))
            } else {
                annotated_result(self.after_iss(key_enc, s), "iss"@)
            }
        } else if key == 2 {
            if self.sub is Some {
                Err(bare(FailureView::DuplicateKey(KeyView::Uint(2))))
            } else {
                annotated_result(self.after_sub(key_enc, s), "sub"@)
            }
        } else if key == 3 {
            if self.aud is Some {
                Err(bare(FailureView::DuplicateKey(KeyView::Uint(3))))
            } else {
                annotated_result(self.after_aud(key_enc, s), "aud"@)
            }
        } else if key == 4 {
            if self.exp is Some {
                Err(bare(FailureView::DuplicateKey(KeyView::Uint(4))))
            } else {
                annotated_result(self.after_exp(key_enc, s), "exp"@)
            }
        } else if key == 5 {
            if self.nbf is Some {
                Err(bare(FailureView::DuplicateKey(KeyView::Uint(5))))
            } else {
                annotated_result(self.after_nbf(key_enc, s), "nbf"@)
            }
        } else if key == 6 {
            if self.iat is Some {
                Err(bare(FailureView::DuplicateKey(KeyView::Uint(6))))
            } else {
                annotated_result(self.after_iat(key_enc, s), "iat"@)
            }
        } else if key == 8 {
            if self.cnf is Some {
                Err(bare(FailureView::DuplicateKey(KeyView::Uint(8))))
            } else {
                annotated_result(self.after_cnf(key_enc, s), "cnf"@)
            }
        } else if key == 39 {
            if self.cnonce is Some {
                Err(bare(FailureView::DuplicateKey(KeyView::Uint(39))))
            } else {
                annotated_result(self.after_cnonce(key_enc, s), "cnonce"@)
            }
        } else if key == 1113 {
            if self.sd_hash is Some {
                Err(bare(FailureView::DuplicateKey(KeyView::Uint(1113))))
            } else {
                annotated_result(self.after_sd_hash(key_enc, s), "sd_hash"@)
            }
        } else if key == 1114 {
            if self.sd_alg is Some {
                Err(bare(FailureView::DuplicateKey(KeyView::Uint(1114))))
            } else {
                annotated_result(self.after_sd_alg(key_enc, s), "sd_alg"@)
            }
        } else if key == 1115 {
            if self.redacted_keys is Some {
                Err(bare(FailureView::DuplicateKey(KeyView::Uint(1115))))
            } else {
                annotated_result(self.after_redacted_keys(key_enc, s), "redacted_keys"@)
            }
        } else {
            Err(bare(FailureView::UnknownKey(KeyView::Uint(key))))
        }
    }

    /// The state after the value of the text key `key`, which was written
    /// the way `key_enc` says, is read from the start of `s`.
    pub open spec fn after_text_key(self, key: Seq<char>, key_enc: StringEncodingView, s: Seq<u8>)
        -> Result<(PayloadScan, nat), ErrorView> {
        if key == "custom"@ {
            if self.custom is Some {
                Err(bare(FailureView::DuplicateKey(KeyView::Str("custom"@))))
            } else {
                match claim(self.len, self.claimed, 1) {
                    Ok(claimed) => match annotated_result(parse_table(s), "custom"@) {
                        Ok(((custom, custom_encoding), n)) => Ok(
                            (
                                PayloadScan {
                                    custom: Some(custom),
                                    encodings: SdPayloadEncodingView {
                                        custom_encoding,
                                        custom_key_encoding: key_enc,
                                        orig_deser_order: self.encodings.orig_deser_order.push(11),
                                        ..self.encodings
                                    },
                                    claimed,
                                    ..self
                                },
                                n,
                            ),
                        ),
                        Err(e) => Err(e),
                    },
                    Err(f) => Err(bare(f)),
                }
            }
        } else {
            Err(bare(FailureView::UnknownKey(KeyView::Str(key))))
        }
    }

    /// The state after the entry at the start of `s` is read: a key, which
    /// is an unsigned integer or a text, and the value that belongs under
    /// it.
    #[verifier::opaque]
    pub open spec fn after_entry(self, s: Seq<u8>) -> Result<(PayloadScan, nat), ErrorView> {
        if s.len() == 0 {
            Err(cbor_error())
        } else if type_of(s[0]) == Type::UnsignedInteger {
            match parse_arg(MAJOR_UINT, s) {
                Some((key, key_enc)) => shifted(
                    self.after_uint_key(key, key_enc, s.skip(1 + width(key_enc) as int)),
                    1 + width(key_enc),
                ),
                None => Err(cbor_error()),
            }
        } else if type_of(s[0]) == Type::Text {
            match parse_text(s) {
                Some((key, key_enc, k)) => shifted(
                    self.after_text_key(key, key_enc, s.skip(k as int)),
                    k,
                ),
                None => Err(cbor_error()),
            }
        } else {
            Err(bare(FailureView::UnexpectedKeyType(type_of(s[0]))))
        }
    }
}

/// How one entry of the claims is read, after the entries that led from
/// the state `start` to the states `acc`.
pub open spec fn payload_reader(start: PayloadScan) -> spec_fn(Seq<PayloadScan>, Seq<u8>) -> Result<
    (PayloadScan, nat),
    ErrorView,
> {
    |acc: Seq<PayloadScan>, s: Seq<u8>| PayloadScan::after(start, acc).after_entry(s)
}

/// The numbers of all fields, in their order.
pub open spec fn all_fields() -> Seq<usize> {
    Seq::new(12, |i: int| i as usize)
}

impl SdPayloadView {
    /// How the length of the map is written.
    pub open spec fn len_encoding(self) -> LenEncoding {
        match self.encodings {
            Some(e) => e.len_encoding,
            None => LenEncoding::Canonical,
        }
    }

    /// The wire form that the fields are written in.
    pub open spec fn form(self) -> SdPayloadEncodingView {
        match self.encodings {
            Some(e) => e,
            None => SdPayloadEncodingView::plain(),
        }
    }

    /// The number of entries of the map.
    pub open spec fn count(self) -> nat {
        3 + one_if(self.iss is Some) + one_if(self.sub is Some) + one_if(self.exp is Some) + one_if(self.nbf is Some)
            + one_if(self.cnonce is Some) + one_if(self.cnf is Some) + one_if(self.sd_hash is Some) + one_if(self.sd_alg is Some) + one_if(self.redacted_keys is Some)
    }

    /// The order in which the fields are written: the order in which they
    /// were read where one is recorded for as many fields as are there, the
    /// order of the fields otherwise. The fields are numbered from 0 to 11:
    /// issuer, subject, audience, expiry, not-before, time of issue, client
    /// nonce, confirmation, hash of the disclosures, hash algorithm, redacted
    /// claims, extension entries.
    pub open spec fn order(self) -> Seq<usize> {
        match self.encodings {
            Some(e) => if e.orig_deser_order.len() == self.count() {
                e.orig_deser_order
            } else {
                all_fields()
            },
            None => all_fields(),
        }
    }

    /// Whether every number in the order that the fields are written in is
    /// the number of a field.
    pub open spec fn well_formed(self) -> bool {
        forall|i: int| 0 <= i < self.order().len() ==> #[trigger] self.order()[i] < 12
    }

    /// Whether the field with the number `index` can be written as it
    /// stands.
    pub open spec fn field_encodable(self, index: usize) -> bool {
        if index == 0 {
            self.iss matches Some(v) ==> text_encodable(v, self.form().iss_encoding)
        } else if index == 1 {
            self.sub matches Some(v) ==> text_encodable(v, self.form().sub_encoding)
        } else if index == 2 {
            text_encodable(self.aud, self.form().aud_encoding)
        } else if index == 6 {
            self.cnonce matches Some(v) ==> bytes_encodable(v, self.form().cnonce_encoding)
        } else if index == 7 {
            self.cnf matches Some(v) ==> entries_encodable(v)
        } else if index == 8 {
            self.sd_hash matches Some(v) ==> bytes_encodable(v, self.form().sd_hash_encoding)
        } else if index == 10 {
            self.redacted_keys matches Some(v) ==> digests_encodable(v, self.form().redacted_keys_elem_encodings)
        } else if index == 11 {
            text_encodable("custom"@, self.form().custom_key_encoding) && entries_encodable(
                self.custom,
            )
        } else {
            true
        }
    }

    /// The bytes that the field with the number `index` is written as: its
    /// key and its value, or nothing for a field that is missing.
    pub open spec fn field_wire(self, index: usize) -> Seq<u8> {
        if index == 0 {
            match self.iss {
                Some(v) => head(MAJOR_UINT, 1, fitting(1, self.form().iss_key_encoding)) + text_wire(v, self.form().iss_encoding),
                None => Seq::empty(),
            }
        } else if index == 1 {
            match self.sub {
                Some(v) => head(MAJOR_UINT, 2, fitting(2, self.form().sub_key_encoding)) + text_wire(v, self.form().sub_encoding),
                None => Seq::empty(),
            }
        } else if index == 2 {
            head(MAJOR_UINT, 3, fitting(3, self.form().aud_key_encoding)) + text_wire(self.aud, self.form().aud_encoding)
        } else if index == 3 {
            match self.exp {
                Some(v) => head(MAJOR_UINT, 4, fitting(4, self.form().exp_key_encoding)) + v.wire(),
                None => Seq::empty(),
            }
        } else if index == 4 {
            match self.nbf {
                Some(v) => head(MAJOR_UINT, 5, fitting(5, self.form().nbf_key_encoding)) + v.wire(),
                None => Seq::empty(),
            }
        } else if index == 5 {
            head(MAJOR_UINT, 6, fitting(6, self.form().iat_key_encoding)) + self.iat.wire()
        } else if index == 6 {
            match self.cnonce {
                Some(v) => head(MAJOR_UINT, 39, fitting(39, self.form().cnonce_key_encoding)) + bytes_wire(v, self.form().cnonce_encoding),
                None => Seq::empty(),
            }
        } else if index == 7 {
            match self.cnf {
                Some(v) => head(MAJOR_UINT, 8, fitting(8, self.form().cnf_key_encoding)) + table_wire(v, self.form().cnf_encoding),
                None => Seq::empty(),
            }
        } else if index == 8 {
            match self.sd_hash {
                Some(v) => head(MAJOR_UINT, 1113, fitting(1113, self.form().sd_hash_key_encoding)) + bytes_wire(v, self.form().sd_hash_encoding),
                None => Seq::empty(),
            }
        } else if index == 9 {
            match self.sd_alg {
                Some(v) => head(MAJOR_UINT, 1114, fitting(1114, self.form().sd_alg_key_encoding)) + v.wire(),
                None => Seq::empty(),
            }
        } else if index == 10 {
            match self.redacted_keys {
                Some(v) => head(MAJOR_UINT, 1115, fitting(1115, self.form().redacted_keys_key_encoding)) + digests_wire(
                    v,
                    self.form().redacted_keys_elem_encodings,
                    self.form().redacted_keys_encoding,
                ),
                None => Seq::empty(),
            }
        } else if index == 11 {
            text_wire("custom"@, self.form().custom_key_encoding) + table_wire(
                self.custom,
                self.form().custom_encoding,
            )
        } else {
            Seq::empty()
        }
    }

    /// The fields with the given numbers, one after the other.
    pub open spec fn fields_wire(self, order: Seq<usize>) -> Seq<u8>
        decreases order.len(),
    {
        if order.len() == 0 {
            Seq::empty()
        } else {
            self.fields_wire(order.drop_last()) + self.field_wire(order.last())
        }
    }

    /// Whether the claims can be written as they stand.
    pub open spec fn encodable(self) -> bool {
        forall|i: int|
            0 <= i < self.order().len() ==> self.field_encodable(#[trigger] self.order()[i])
    }

    /// The bytes that the claims are written as.
    #[verifier::opaque]
    pub open spec fn wire(self) -> Seq<u8> {
        len_head(MAJOR_MAP, self.len_encoding().head_for(self.count() as u64)) + self.fields_wire(
            self.order(),
        ) + self.len_encoding().ending()
    }

    /// The entries of the map at the start of `s`, read from the state
    /// `start`, and the claims that they make.
    pub open spec fn parse_fields(s: Seq<u8>, start: PayloadScan) -> Result<
        (SdPayloadView, nat),
        ErrorView,
    > {
        match parse_items(payload_reader(start), start.len, Seq::empty(), s) {
            Ok((acc, n)) => match PayloadScan::after(start, acc).finished() {
                Ok(v) => Ok((v, n)),
                Err(f) => Err(bare(f)),
            },
            Err(e) => Err(e),
        }
    }

    /// The claims at the start of `s` and the bytes that they take, or why
    /// there are none.
    #[verifier::opaque]
    pub open spec fn parse(s: Seq<u8>) -> Result<(SdPayloadView, nat), ErrorView> {
        match parse_len(MAJOR_MAP, s) {
            Some(len) => shifted(
                annotated_result(
                    Self::parse_fields(
                        s.skip(1 + len_width(len) as int),
                        PayloadScan::start(len, 0),
                    ),
                    "SdPayload"@,
                ),
                1 + len_width(len),
            ),
            None => Err(cbor_error()),
        }
    }
}

/// What has been found of the claims while the entries are read.
struct PayloadBuilder {
    iss: Option<String>,
    sub: Option<String>,
    aud: Option<String>,
    exp: Option<Int>,
    nbf: Option<Int>,
    iat: Option<Int>,
    cnonce: Option<Vec<u8>>,
    cnf: Option<OrderedHashMap>,
    sd_hash: Option<Vec<u8>>,
    sd_alg: Option<Int>,
    redacted_keys: Option<Vec<Vec<u8>>>,
    custom: Option<OrderedHashMap>,
    encodings: SdPayloadEncoding,
    read_len: CBORReadLen,
}

impl View for PayloadBuilder {
    type V = PayloadScan;

    closed spec fn view(&self) -> PayloadScan {
        PayloadScan {
            iss: match self.iss {
                Some(v) => Some(v@),
                None => None,
            },
            sub: match self.sub {
                Some(v) => Some(v@),
                None => None,
            },
            aud: match self.aud {
                Some(v) => Some(v@),
                None => None,
            },
            exp: self.exp,
            nbf: self.nbf,
            iat: self.iat,
            cnonce: match self.cnonce {
                Some(v) => Some(v@),
                None => None,
            },
            cnf: match self.cnf {
                Some(v) => Some(v@),
                None => None,
            },
            sd_hash: match self.sd_hash {
                Some(v) => Some(v@),
                None => None,
            },
            sd_alg: self.sd_alg,
            redacted_keys: match self.redacted_keys {
                Some(v) => Some(digest_views(v@)),
                None => None,
            },
            custom: match self.custom {
                Some(c) => Some(c@),
                None => None,
            },
            encodings: self.encodings@,
            len: self.read_len.declared(),
            claimed: self.read_len.claimed(),
        }
    }
}

impl PayloadBuilder {
    fn new(read_len: CBORReadLen) -> (r: Self)
        ensures
            r@ == PayloadScan::start(read_len.declared(), read_len.claimed()),
    {
        let len_encoding = LenEncoding::from_len_sz(read_len.len());
        let r = PayloadBuilder {
            iss: None,
            sub: None,
            aud: None,
            exp: None,
            nbf: None,
            iat: None,
            cnonce: None,
            cnf: None,
            sd_hash: None,
            sd_alg: None,
            redacted_keys: None,
            custom: None,
            encodings: SdPayloadEncoding {
                len_encoding: len_encoding,
                orig_deser_order: Vec::new(),
                iss_encoding: StringEncoding::Canonical,
                iss_key_encoding: None,
                sub_encoding: StringEncoding::Canonical,
                sub_key_encoding: None,
                aud_encoding: StringEncoding::Canonical,
                aud_key_encoding: None,
                exp_key_encoding: None,
                nbf_key_encoding: None,
                iat_key_encoding: None,
                cnonce_encoding: StringEncoding::Canonical,
                cnonce_key_encoding: None,
                cnf_encoding: LenEncoding::Canonical,
                cnf_key_encoding: None,
                sd_hash_encoding: StringEncoding::Canonical,
                sd_hash_key_encoding: None,
                sd_alg_key_encoding: None,
                redacted_keys_encoding: LenEncoding::Canonical,
                redacted_keys_elem_encodings: Vec::new(),
                redacted_keys_key_encoding: None,
                custom_encoding: LenEncoding::Canonical,
                custom_key_encoding: StringEncoding::Canonical,
            },
            read_len,
        };
        assert(r@.encodings.redacted_keys_elem_encodings =~= Seq::empty());
        r
    }

    fn finish(self) -> (r: Result<SdPayload, DeserializeError>)
        ensures
            match self@.finished() {
                Ok(v) => r matches Ok(x) && x@ == v,
                Err(f) => r matches Err(e) && e@ == bare(f),
            },
    {
        let aud = match self.aud {
            Some(x) => x,
            None => {
                return Err(
                    DeserializeError::from_failure(
                        DeserializeFailure::MandatoryFieldMissing(Key::Uint(3)),
                    ),
                );
            },
        };
        let iat = match self.iat {
            Some(x) => x,
            None => {
                return Err(
                    DeserializeError::from_failure(
                        DeserializeFailure::MandatoryFieldMissing(Key::Uint(6)),
                    ),
                );
            },
        };
        let custom = match self.custom {
            Some(x) => x,
            None => {
                return Err(
                    DeserializeError::from_failure(
                        DeserializeFailure::MandatoryFieldMissing(
                            Key::Str(String::from_str("custom")),
                        ),
                    ),
                );
            },
        };
        match self.read_len.finish() {
            Ok(_) => {},
            Err(f) => {
                return Err(DeserializeError::from_failure(f));
            },
        }
        Ok(
            SdPayload {
                iss: self.iss,
                sub: self.sub,
                aud,
                exp: self.exp,
                nbf: self.nbf,
                iat,
                cnonce: self.cnonce,
                cnf: self.cnf,
                sd_hash: self.sd_hash,
                sd_alg: self.sd_alg,
                redacted_keys: self.redacted_keys,
                custom,
                encodings: Some(self.encodings),
            },
        )
    }

    fn read_iss(&mut self, raw: &mut Reader, key_enc: Sz) -> (r: Result<(), DeserializeError>)
        ensures
            final(raw).bytes() == old(raw).bytes(),
            match old(self)@.after_iss(key_enc, old(raw).rest()) {
                Ok((next, n)) => r is Ok && final(self)@ == next && old(raw).advanced(
                    final(raw),
                    n,
                ),
                Err(e) => r matches Err(x) && x@ == e,
            },
    {
        match self.read_len.read_elems(1) {
            Ok(_) => {},
            Err(f) => {
                return Err(DeserializeError::from_failure(f));
            },
        }
        match read_text_enc(raw) {
            Ok((iss, iss_encoding)) => {
                self.iss = Some(iss);
                self.encodings.iss_encoding = iss_encoding;
                self.encodings.iss_key_encoding = Some(key_enc);
                self.encodings.orig_deser_order.push(0);
                Ok(())
            },
            Err(e) => Err(DeserializeError::from_cbor(e)),
        }
    }

    fn read_sub(&mut self, raw: &mut Reader, key_enc: Sz) -> (r: Result<(), DeserializeError>)
        ensures
            final(raw).bytes() == old(raw).bytes(),
            match old(self)@.after_sub(key_enc, old(raw).rest()) {
                Ok((next, n)) => r is Ok && final(self)@ == next && old(raw).advanced(
                    final(raw),
                    n,
                ),
                Err(e) => r matches Err(x) && x@ == e,
            },
    {
        match self.read_len.read_elems(1) {
            Ok(_) => {},
            Err(f) => {
                return Err(DeserializeError::from_failure(f));
            },
        }
        match read_text_enc(raw) {
            Ok((sub, sub_encoding)) => {
                self.sub = Some(sub);
                self.encodings.sub_encoding = sub_encoding;
                self.encodings.sub_key_encoding = Some(key_enc);
                self.encodings.orig_deser_order.push(1);
                Ok(())
            },
            Err(e) => Err(DeserializeError::from_cbor(e)),
        }
    }

    fn read_aud(&mut self, raw: &mut Reader, key_enc: Sz) -> (r: Result<(), DeserializeError>)
        ensures
            final(raw).bytes() == old(raw).bytes(),
            match old(self)@.after_aud(key_enc, old(raw).rest()) {
                Ok((next, n)) => r is Ok && final(self)@ == next && old(raw).advanced(
                    final(raw),
                    n,
                ),
                Err(e) => r matches Err(x) && x@ == e,
            },
    {
        match self.read_len.read_elems(1) {
            Ok(_) => {},
            Err(f) => {
                return Err(DeserializeError::from_failure(f));
            },
        }
        match read_text_enc(raw) {
            Ok((aud, aud_encoding)) => {
                self.aud = Some(aud);
                self.encodings.aud_encoding = aud_encoding;
                self.encodings.aud_key_encoding = Some(key_enc);
                self.encodings.orig_deser_order.push(2);
                Ok(())
            },
            Err(e) => Err(DeserializeError::from_cbor(e)),
        }
    }

    fn read_exp(&mut self, raw: &mut Reader, key_enc: Sz) -> (r: Result<(), DeserializeError>)
        ensures
            final(raw).bytes() == old(raw).bytes(),
            match old(self)@.after_exp(key_enc, old(raw).rest()) {
                Ok((next, n)) => r is Ok && final(self)@ == next && old(raw).advanced(
                    final(raw),
                    n,
                ),
                Err(e) => r matches Err(x) && x@ == e,
            },
    {
        match self.read_len.read_elems(1) {
            Ok(_) => {},
            Err(f) => {
                return Err(DeserializeError::from_failure(f));
            },
        }
        match Int::deserialize(raw) {
            Ok(exp) => {
                self.exp = Some(exp);
                self.encodings.exp_key_encoding = Some(key_enc);
                self.encodings.orig_deser_order.push(3);
                Ok(())
            },
            Err(e) => Err(e),
        }
    }

    fn read_nbf(&mut self, raw: &mut Reader, key_enc: Sz) -> (r: Result<(), DeserializeError>)
        ensures
            final(raw).bytes() == old(raw).bytes(),
            match old(self)@.after_nbf(key_enc, old(raw).rest()) {
                Ok((next, n)) => r is Ok && final(self)@ == next && old(raw).advanced(
                    final(raw),
                    n,
                ),
                Err(e) => r matches Err(x) && x@ == e,
            },
    {
        match self.read_len.read_elems(1) {
            Ok(_) => {},
            Err(f) => {
                return Err(DeserializeError::from_failure(f));
            },
        }
        match Int::deserialize(raw) {
            Ok(nbf) => {
                self.nbf = Some(nbf);
                self.encodings.nbf_key_encoding = Some(key_enc);
                self.encodings.orig_deser_order.push(4);
                Ok(())
            },
            Err(e) => Err(e),
        }
    }

    fn read_iat(&mut self, raw: &mut Reader, key_enc: Sz) -> (r: Result<(), DeserializeError>)
        ensures
            final(raw).bytes() == old(raw).bytes(),
            match old(self)@.after_iat(key_enc, old(raw).rest()) {
                Ok((next, n)) => r is Ok && final(self)@ == next && old(raw).advanced(
                    final(raw),
                    n,
                ),
                Err(e) => r matches Err(x) && x@ == e,
            },
    {
        match self.read_len.read_elems(1) {
            Ok(_) => {},
            Err(f) => {
                return Err(DeserializeError::from_failure(f));
            },
        }
        match Int::deserialize(raw) {
            Ok(iat) => {
                self.iat = Some(iat);
                self.encodings.iat_key_encoding = Some(key_enc);
                self.encodings.orig_deser_order.push(5);
                Ok(())
            },
            Err(e) => Err(e),
        }
    }

    fn read_cnonce(&mut self, raw: &mut Reader, key_enc: Sz) -> (r: Result<(), DeserializeError>)
        ensures
            final(raw).bytes() == old(raw).bytes(),
            match old(self)@.after_cnonce(key_enc, old(raw).rest()) {
                Ok((next, n)) => r is Ok && final(self)@ == next && old(raw).advanced(
                    final(raw),
                    n,
                ),
                Err(e) => r matches Err(x) && x@ == e,
            },
    {
        match self.read_len.read_elems(1) {
            Ok(_) => {},
            Err(f) => {
                return Err(DeserializeError::from_failure(f));
            },
        }
        match read_bytes_enc(raw) {
            Ok((cnonce, cnonce_encoding)) => {
                self.cnonce = Some(cnonce);
                self.encodings.cnonce_encoding = cnonce_encoding;
                self.encodings.cnonce_key_encoding = Some(key_enc);
                self.encodings.orig_deser_order.push(6);
                Ok(())
            },
            Err(e) => Err(DeserializeError::from_cbor(e)),
        }
    }

    fn read_cnf(&mut self, raw: &mut Reader, key_enc: Sz) -> (r: Result<(), DeserializeError>)
        ensures
            final(raw).bytes() == old(raw).bytes(),
            match old(self)@.after_cnf(key_enc, old(raw).rest()) {
                Ok((next, n)) => r is Ok && final(self)@ == next && old(raw).advanced(
                    final(raw),
                    n,
                ),
                Err(e) => r matches Err(x) && x@ == e,
            },
    {
        match self.read_len.read_elems(1) {
            Ok(_) => {},
            Err(f) => {
                return Err(DeserializeError::from_failure(f));
            },
        }
        match deserialize_table(raw) {
            Ok((cnf, cnf_encoding)) => {
                self.cnf = Some(cnf);
                self.encodings.cnf_encoding = cnf_encoding;
                self.encodings.cnf_key_encoding = Some(key_enc);
                self.encodings.orig_deser_order.push(7);
                Ok(())
            },
            Err(e) => Err(e),
        }
    }

    fn read_sd_hash(&mut self, raw: &mut Reader, key_enc: Sz) -> (r: Result<(), DeserializeError>)
        ensures
            final(raw).bytes() == old(raw).bytes(),
            match old(self)@.after_sd_hash(key_enc, old(raw).rest()) {
                Ok((next, n)) => r is Ok && final(self)@ == next && old(raw).advanced(
                    final(raw),
                    n,
                ),
                Err(e) => r matches Err(x) && x@ == e,
            },
    {
        match self.read_len.read_elems(1) {
            Ok(_) => {},
            Err(f) => {
                return Err(DeserializeError::from_failure(f));
            },
        }
        match read_bytes_enc(raw) {
            Ok((sd_hash, sd_hash_encoding)) => {
                self.sd_hash = Some(sd_hash);
                self.encodings.sd_hash_encoding = sd_hash_encoding;
                self.encodings.sd_hash_key_encoding = Some(key_enc);
                self.encodings.orig_deser_order.push(8);
                Ok(())
            },
            Err(e) => Err(DeserializeError::from_cbor(e)),
        }
    }

    fn read_sd_alg(&mut self, raw: &mut Reader, key_enc: Sz) -> (r: Result<(), DeserializeError>)
        ensures
            final(raw).bytes() == old(raw).bytes(),
            match old(self)@.after_sd_alg(key_enc, old(raw).rest()) {
                Ok((next, n)) => r is Ok && final(self)@ == next && old(raw).advanced(
                    final(raw),
                    n,
                ),
                Err(e) => r matches Err(x) && x@ == e,
            },
    {
        match self.read_len.read_elems(1) {
            Ok(_) => {},
            Err(f) => {
                return Err(DeserializeError::from_failure(f));
            },
        }
        match Int::deserialize(raw) {
            Ok(sd_alg) => {
                self.sd_alg = Some(sd_alg);
                self.encodings.sd_alg_key_encoding = Some(key_enc);
                self.encodings.orig_deser_order.push(9);
                Ok(())
            },
            Err(e) => Err(e),
        }
    }

    fn read_redacted_keys(&mut self, raw: &mut Reader, key_enc: Sz) -> (r: Result<(), DeserializeError>)
        ensures
            final(raw).bytes() == old(raw).bytes(),
            match old(self)@.after_redacted_keys(key_enc, old(raw).rest()) {
                Ok((next, n)) => r is Ok && final(self)@ == next && old(raw).advanced(
                    final(raw),
                    n,
                ),
                Err(e) => r matches Err(x) && x@ == e,
            },
    {
        match self.read_len.read_elems(1) {
            Ok(_) => {},
            Err(f) => {
                return Err(DeserializeError::from_failure(f));
            },
        }
        match deserialize_digests(raw) {
            Ok((redacted_keys, redacted_keys_encoding, redacted_keys_elem_encodings)) => {
                self.redacted_keys = Some(redacted_keys);
                self.encodings.redacted_keys_encoding = redacted_keys_encoding;
                self.encodings.redacted_keys_elem_encodings = redacted_keys_elem_encodings;
                self.encodings.redacted_keys_key_encoding = Some(key_enc);
                self.encodings.orig_deser_order.push(10);
                Ok(())
            },
            Err(e) => Err(e),
        }
    }

    fn read_uint_key(&mut self, raw: &mut Reader, key: u64, key_enc: Sz) -> (r: Result<
        (),
        DeserializeError,
    >)
        ensures
            final(raw).bytes() == old(raw).bytes(),
            match old(self)@.after_uint_key(key, key_enc, old(raw).rest()) {
                Ok((next, n)) => r is Ok && final(self)@ == next && old(raw).advanced(
                    final(raw),
                    n,
                ),
                Err(e) => r matches Err(x) && x@ == e,
            },
    {
        if key == KEY_ISS {
            if self.iss.is_some() {
                return Err(
                    DeserializeError::from_failure(DeserializeFailure::DuplicateKey(Key::Uint(1))),
                );
            }
            match self.read_iss(raw, key_enc) {
                Ok(_) => Ok(()),
                Err(e) => Err(e.annotate("iss")),
            }
        } else if key == KEY_SUB {
            if self.sub.is_some() {
                return Err(
                    DeserializeError::from_failure(DeserializeFailure::DuplicateKey(Key::Uint(2))),
                );
            }
            match self.read_sub(raw, key_enc) {
                Ok(_) => Ok(()),
                Err(e) => Err(e.annotate("sub")),
            }
        } else if key == KEY_AUD {
            if self.aud.is_some() {
                return Err(
                    DeserializeError::from_failure(DeserializeFailure::DuplicateKey(Key::Uint(3))),
                );
            }
            match self.read_aud(raw, key_enc) {
                Ok(_) => Ok(()),
                Err(e) => Err(e.annotate("aud")),
            }
        } else if key == KEY_EXP {
            if self.exp.is_some() {
                return Err(
                    DeserializeError::from_failure(DeserializeFailure::DuplicateKey(Key::Uint(4))),
                );
            }
            match self.read_exp(raw, key_enc) {
                Ok(_) => Ok(()),
                Err(e) => Err(e.annotate("exp")),
            }
        } else if key == KEY_NBF {
            if self.nbf.is_some() {
                return Err(
                    DeserializeError::from_failure(DeserializeFailure::DuplicateKey(Key::Uint(5))),
                );
            }
            match self.read_nbf(raw, key_enc) {
                Ok(_) => Ok(()),
                Err(e) => Err(e.annotate("nbf")),
            }
        } else if key == KEY_IAT {
            if self.iat.is_some() {
                return Err(
                    DeserializeError::from_failure(DeserializeFailure::DuplicateKey(Key::Uint(6))),
                );
            }
            match self.read_iat(raw, key_enc) {
                Ok(_) => Ok(()),
                Err(e) => Err(e.annotate("iat")),
            }
        } else if key == KEY_CNF {
            if self.cnf.is_some() {
                return Err(
                    DeserializeError::from_failure(DeserializeFailure::DuplicateKey(Key::Uint(8))),
                );
            }
            match self.read_cnf(raw, key_enc) {
                Ok(_) => Ok(()),
                Err(e) => Err(e.annotate("cnf")),
            }
        } else if key == KEY_CNONCE {
            if self.cnonce.is_some() {
                return Err(
                    DeserializeError::from_failure(DeserializeFailure::DuplicateKey(Key::Uint(39))),
                );
            }
            match self.read_cnonce(raw, key_enc) {
                Ok(_) => Ok(()),
                Err(e) => Err(e.annotate("cnonce")),
            }
        } else if key == KEY_SD_HASH {
            if self.sd_hash.is_some() {
                return Err(
                    DeserializeError::from_failure(DeserializeFailure::DuplicateKey(Key::Uint(1113))),
                );
            }
            match self.read_sd_hash(raw, key_enc) {
                Ok(_) => Ok(()),
                Err(e) => Err(e.annotate("sd_hash")),
            }
        } else if key == KEY_SD_ALG {
            if self.sd_alg.is_some() {
                return Err(
                    DeserializeError::from_failure(DeserializeFailure::DuplicateKey(Key::Uint(1114))),
                );
            }
            match self.read_sd_alg(raw, key_enc) {
                Ok(_) => Ok(()),
                Err(e) => Err(e.annotate("sd_alg")),
            }
        } else if key == KEY_REDACTED_KEYS {
            if self.redacted_keys.is_some() {
                return Err(
                    DeserializeError::from_failure(DeserializeFailure::DuplicateKey(Key::Uint(1115))),
                );
            }
            match self.read_redacted_keys(raw, key_enc) {
                Ok(_) => Ok(()),
                Err(e) => Err(e.annotate("redacted_keys")),
            }
        } else {
            Err(DeserializeError::from_failure(DeserializeFailure::UnknownKey(Key::Uint(key))))
        }
    }

    fn read_text_key(&mut self, raw: &mut Reader, key: String, key_enc: StringEncoding) -> (r:
        Result<(), DeserializeError>)
        ensures
            final(raw).bytes() == old(raw).bytes(),
            match old(self)@.after_text_key(key@, key_enc@, old(raw).rest()) {
                Ok((next, n)) => r is Ok && final(self)@ == next && old(raw).advanced(
                    final(raw),
                    n,
                ),
                Err(e) => r matches Err(x) && x@ == e,
            },
    {
        if key == String::from_str("custom") {
            if self.custom.is_some() {
                return Err(
                    DeserializeError::from_failure(DeserializeFailure::DuplicateKey(Key::Str(key))),
                );
            }
            match self.read_len.read_elems(1) {
                Ok(_) => {},
                Err(f) => {
                    return Err(DeserializeError::from_failure(f));
                },
            }
            match deserialize_table(raw) {
                Ok((custom, custom_encoding)) => {
                    self.custom = Some(custom);
                    self.encodings.custom_encoding = custom_encoding;
                    self.encodings.custom_key_encoding = key_enc;
                    self.encodings.orig_deser_order.push(11);
                    Ok(())
                },
                Err(e) => Err(e.annotate("custom")),
            }
        } else {
            Err(DeserializeError::from_failure(DeserializeFailure::UnknownKey(Key::Str(key))))
        }
    }

    fn read_entry(&mut self, raw: &mut Reader) -> (r: Result<(), DeserializeError>)
        ensures
            final(raw).bytes() == old(raw).bytes(),
            match old(self)@.after_entry(old(raw).rest()) {
                Ok((next, n)) => {
                    &&& r is Ok
                    &&& final(self)@ == next
                    &&& old(raw).advanced(final(raw), n)
                    &&& 0 < n <= old(raw).rest().len()
                },
                Err(e) => r matches Err(x) && x@ == e,
            },
    {
        reveal(PayloadScan::after_entry);
        reveal(parse_text);
        let at = raw.position();
        let kind = match raw.cbor_type() {
            Ok(kind) => kind,
            Err(e) => {
                return Err(DeserializeError::from_cbor(e));
            },
        };
        let r = match kind {
            Type::UnsignedInteger => match raw.unsigned_integer_sz() {
                Ok((key, key_enc)) => self.read_uint_key(raw, key, key_enc),
                Err(e) => Err(DeserializeError::from_cbor(e)),
            },
            Type::Text => match read_text_enc(raw) {
                Ok((key, key_enc)) => self.read_text_key(raw, key, key_enc),
                Err(e) => Err(DeserializeError::from_cbor(e)),
            },
            other_type => Err(
                DeserializeError::from_failure(DeserializeFailure::UnexpectedKeyType(other_type)),
            ),
        };
        let after = raw.position();
        r
    }
}

fn one(present: bool) -> (r: usize)
    ensures
        r == one_if(present),
{
    if present {
        1
    } else {
        0
    }
}

impl SdPayload {
    /// Claims with the fields that must be there, to be written in the
    /// shortest form.
    pub fn new(aud: String, iat: Int, custom: OrderedHashMap) -> (r: Self)
        ensures
            r@ == (SdPayloadView {
                iss: None,
                sub: None,
                aud: aud@,
                exp: None,
                nbf: None,
                iat,
                cnonce: None,
                cnf: None,
                sd_hash: None,
                sd_alg: None,
                redacted_keys: None,
                custom: custom@,
                encodings: None,
            }),
    {
        SdPayload {
            iss: None,
            sub: None,
            aud,
            exp: None,
            nbf: None,
            iat,
            cnonce: None,
            cnf: None,
            sd_hash: None,
            sd_alg: None,
            redacted_keys: None,
            custom,
            encodings: None,
        }
    }

    /// The number of entries of the map.
    pub(crate) fn count(&self) -> (r: usize)
        ensures
            r == self@.count(),
    {
        let iss = one(self.iss.is_some());
        assert(iss == one_if(self@.iss is Some));
        let sub = one(self.sub.is_some());
        assert(sub == one_if(self@.sub is Some));
        let exp = one(self.exp.is_some());
        assert(exp == one_if(self@.exp is Some));
        let nbf = one(self.nbf.is_some());
        assert(nbf == one_if(self@.nbf is Some));
        let cnonce = one(self.cnonce.is_some());
        assert(cnonce == one_if(self@.cnonce is Some));
        let cnf = one(self.cnf.is_some());
        assert(cnf == one_if(self@.cnf is Some));
        let sd_hash = one(self.sd_hash.is_some());
        assert(sd_hash == one_if(self@.sd_hash is Some));
        let sd_alg = one(self.sd_alg.is_some());
        assert(sd_alg == one_if(self@.sd_alg is Some));
        let redacted_keys = one(self.redacted_keys.is_some());
        assert(redacted_keys == one_if(self@.redacted_keys is Some));
        3 + iss + sub + exp + nbf + cnonce
            + cnf + sd_hash + sd_alg + redacted_keys
    }

    fn write_iss(&self, form: &SdPayloadEncoding, out: &mut Vec<u8>) -> (r: Result<
        (),
        cbor_event::Error,
    >)
        requires
            form@ == self@.form(),
        ensures
            r is Ok <==> self@.field_encodable(0),
            r is Ok ==> final(out)@ == old(out)@ + self@.field_wire(0),
    {
        let field = match &self.iss {
            Some(field) => field,
            None => {
                assert(out@ =~= old(out)@ + self@.field_wire(0));
                return Ok(());
            },
        };
        let _ = write_unsigned_integer(out, KEY_ISS, fit_sz(KEY_ISS, form.iss_key_encoding));
        let r = write_text_as(out, field.as_str(), &form.iss_encoding);
        assert(r is Ok ==> final(out)@ =~= old(out)@ + self@.field_wire(0));
        r
    }

    fn write_sub(&self, form: &SdPayloadEncoding, out: &mut Vec<u8>) -> (r: Result<
        (),
        cbor_event::Error,
    >)
        requires
            form@ == self@.form(),
        ensures
            r is Ok <==> self@.field_encodable(1),
            r is Ok ==> final(out)@ == old(out)@ + self@.field_wire(1),
    {
        let field = match &self.sub {
            Some(field) => field,
            None => {
                assert(out@ =~= old(out)@ + self@.field_wire(1));
                return Ok(());
            },
        };
        let _ = write_unsigned_integer(out, KEY_SUB, fit_sz(KEY_SUB, form.sub_key_encoding));
        let r = write_text_as(out, field.as_str(), &form.sub_encoding);
        assert(r is Ok ==> final(out)@ =~= old(out)@ + self@.field_wire(1));
        r
    }

    fn write_aud(&self, form: &SdPayloadEncoding, out: &mut Vec<u8>) -> (r: Result<
        (),
        cbor_event::Error,
    >)
        requires
            form@ == self@.form(),
        ensures
            r is Ok <==> self@.field_encodable(2),
            r is Ok ==> final(out)@ == old(out)@ + self@.field_wire(2),
    {
        let _ = write_unsigned_integer(out, KEY_AUD, fit_sz(KEY_AUD, form.aud_key_encoding));
        let r = write_text_as(out, self.aud.as_str(), &form.aud_encoding);
        assert(r is Ok ==> final(out)@ =~= old(out)@ + self@.field_wire(2));
        r
    }

    fn write_exp(&self, form: &SdPayloadEncoding, out: &mut Vec<u8>) -> (r: Result<
        (),
        cbor_event::Error,
    >)
        requires
            form@ == self@.form(),
        ensures
            r is Ok <==> self@.field_encodable(3),
            r is Ok ==> final(out)@ == old(out)@ + self@.field_wire(3),
    {
        let field = match &self.exp {
            Some(field) => field,
            None => {
                assert(out@ =~= old(out)@ + self@.field_wire(3));
                return Ok(());
            },
        };
        let _ = write_unsigned_integer(out, KEY_EXP, fit_sz(KEY_EXP, form.exp_key_encoding));
        let r = field.serialize(out);
        assert(r is Ok ==> final(out)@ =~= old(out)@ + self@.field_wire(3));
        r
    }

    fn write_nbf(&self, form: &SdPayloadEncoding, out: &mut Vec<u8>) -> (r: Result<
        (),
        cbor_event::Error,
    >)
        requires
            form@ == self@.form(),
        ensures
            r is Ok <==> self@.field_encodable(4),
            r is Ok ==> final(out)@ == old(out)@ + self@.field_wire(4),
    {
        let field = match &self.nbf {
            Some(field) => field,
            None => {
                assert(out@ =~= old(out)@ + self@.field_wire(4));
                return Ok(());
            },
        };
        let _ = write_unsigned_integer(out, KEY_NBF, fit_sz(KEY_NBF, form.nbf_key_encoding));
        let r = field.serialize(out);
        assert(r is Ok ==> final(out)@ =~= old(out)@ + self@.field_wire(4));
        r
    }

    fn write_iat(&self, form: &SdPayloadEncoding, out: &mut Vec<u8>) -> (r: Result<
        (),
        cbor_event::Error,
    >)
        requires
            form@ == self@.form(),
        ensures
            r is Ok <==> self@.field_encodable(5),
            r is Ok ==> final(out)@ == old(out)@ + self@.field_wire(5),
    {
        let _ = write_unsigned_integer(out, KEY_IAT, fit_sz(KEY_IAT, form.iat_key_encoding));
        let r = self.iat.serialize(out);
        assert(r is Ok ==> final(out)@ =~= old(out)@ + self@.field_wire(5));
        r
    }

    fn write_cnonce(&self, form: &SdPayloadEncoding, out: &mut Vec<u8>) -> (r: Result<
        (),
        cbor_event::Error,
    >)
        requires
            form@ == self@.form(),
        ensures
            r is Ok <==> self@.field_encodable(6),
            r is Ok ==> final(out)@ == old(out)@ + self@.field_wire(6),
    {
        let field = match &self.cnonce {
            Some(field) => field,
            None => {
                assert(out@ =~= old(out)@ + self@.field_wire(6));
                return Ok(());
            },
        };
        let _ = write_unsigned_integer(out, KEY_CNONCE, fit_sz(KEY_CNONCE, form.cnonce_key_encoding));
        let r = write_bytes_as(out, field, &form.cnonce_encoding);
        assert(r is Ok ==> final(out)@ =~= old(out)@ + self@.field_wire(6));
        r
    }

    fn write_cnf(&self, form: &SdPayloadEncoding, out: &mut Vec<u8>) -> (r: Result<
        (),
        cbor_event::Error,
    >)
        requires
            form@ == self@.form(),
        ensures
            r is Ok <==> self@.field_encodable(7),
            r is Ok ==> final(out)@ == old(out)@ + self@.field_wire(7),
    {
        let field = match &self.cnf {
            Some(field) => field,
            None => {
                assert(out@ =~= old(out)@ + self@.field_wire(7));
                return Ok(());
            },
        };
        let _ = write_unsigned_integer(out, KEY_CNF, fit_sz(KEY_CNF, form.cnf_key_encoding));
        let r = serialize_table(field, form.cnf_encoding, out);
        assert(r is Ok ==> final(out)@ =~= old(out)@ + self@.field_wire(7));
        r
    }

    fn write_sd_hash(&self, form: &SdPayloadEncoding, out: &mut Vec<u8>) -> (r: Result<
        (),
        cbor_event::Error,
    >)
        requires
            form@ == self@.form(),
        ensures
            r is Ok <==> self@.field_encodable(8),
            r is Ok ==> final(out)@ == old(out)@ + self@.field_wire(8),
    {
        let field = match &self.sd_hash {
            Some(field) => field,
            None => {
                assert(out@ =~= old(out)@ + self@.field_wire(8));
                return Ok(());
            },
        };
        let _ = write_unsigned_integer(out, KEY_SD_HASH, fit_sz(KEY_SD_HASH, form.sd_hash_key_encoding));
        let r = write_bytes_as(out, field, &form.sd_hash_encoding);
        assert(r is Ok ==> final(out)@ =~= old(out)@ + self@.field_wire(8));
        r
    }

    fn write_sd_alg(&self, form: &SdPayloadEncoding, out: &mut Vec<u8>) -> (r: Result<
        (),
        cbor_event::Error,
    >)
        requires
            form@ == self@.form(),
        ensures
            r is Ok <==> self@.field_encodable(9),
            r is Ok ==> final(out)@ == old(out)@ + self@.field_wire(9),
    {
        let field = match &self.sd_alg {
            Some(field) => field,
            None => {
                assert(out@ =~= old(out)@ + self@.field_wire(9));
                return Ok(());
            },
        };
        let _ = write_unsigned_integer(out, KEY_SD_ALG, fit_sz(KEY_SD_ALG, form.sd_alg_key_encoding));
        let r = field.serialize(out);
        assert(r is Ok ==> final(out)@ =~= old(out)@ + self@.field_wire(9));
        r
    }

    fn write_redacted_keys(&self, form: &SdPayloadEncoding, out: &mut Vec<u8>) -> (r: Result<
        (),
        cbor_event::Error,
    >)
        requires
            form@ == self@.form(),
        ensures
            r is Ok <==> self@.field_encodable(10),
            r is Ok ==> final(out)@ == old(out)@ + self@.field_wire(10),
    {
        let field = match &self.redacted_keys {
            Some(field) => field,
            None => {
                assert(out@ =~= old(out)@ + self@.field_wire(10));
                return Ok(());
            },
        };
        let _ = write_unsigned_integer(out, KEY_REDACTED_KEYS, fit_sz(KEY_REDACTED_KEYS, form.redacted_keys_key_encoding));
        let r = serialize_digests(
            field,
            &form.redacted_keys_elem_encodings,
            form.redacted_keys_encoding,
            out,
        );
        assert(r is Ok ==> final(out)@ =~= old(out)@ + self@.field_wire(10));
        r
    }

    fn write_custom(&self, form: &SdPayloadEncoding, out: &mut Vec<u8>) -> (r: Result<
        (),
        cbor_event::Error,
    >)
        requires
            form@ == self@.form(),
        ensures
            r is Ok <==> self@.field_encodable(11),
            r is Ok ==> final(out)@ == old(out)@ + self@.field_wire(11),
    {
        match write_text_as(out, "custom", &form.custom_key_encoding) {
            Ok(_) => {},
            Err(e) => {
                return Err(e);
            },
        }
        let r = serialize_table(&self.custom, form.custom_encoding, out);
        assert(r is Ok ==> final(out)@ =~= old(out)@ + self@.field_wire(11));
        r
    }

    fn write_field(&self, index: usize, form: &SdPayloadEncoding, out: &mut Vec<u8>) -> (r: Result<
        (),
        cbor_event::Error,
    >)
        requires
            index < 12,
            form@ == self@.form(),
        ensures
            r is Ok <==> self@.field_encodable(index),
            r is Ok ==> final(out)@ == old(out)@ + self@.field_wire(index),
    {
        if index == 0 {
            self.write_iss(form, out)
        } else if index == 1 {
            self.write_sub(form, out)
        } else if index == 2 {
            self.write_aud(form, out)
        } else if index == 3 {
            self.write_exp(form, out)
        } else if index == 4 {
            self.write_nbf(form, out)
        } else if index == 5 {
            self.write_iat(form, out)
        } else if index == 6 {
            self.write_cnonce(form, out)
        } else if index == 7 {
            self.write_cnf(form, out)
        } else if index == 8 {
            self.write_sd_hash(form, out)
        } else if index == 9 {
            self.write_sd_alg(form, out)
        } else if index == 10 {
            self.write_redacted_keys(form, out)
        } else {
            self.write_custom(form, out)
        }
    }

    /// Writes the fields in their order.
    fn write_fields(&self, form: &SdPayloadEncoding, count: usize, out: &mut Vec<u8>) -> (r: Result<
        (),
        cbor_event::Error,
    >)
        requires
            self@.well_formed(),
            form@ == self@.form(),
            count == self@.count(),
        ensures
            r is Ok <==> self@.encodable(),
            r is Ok ==> final(out)@ == old(out)@ + self@.fields_wire(self@.order()),
    {
        let ghost order = self@.order();
        let recorded = match &self.encodings {
            Some(e) => e.orig_deser_order.len() == count,
            None => false,
        };
        let steps: usize = if recorded {
            count
        } else {
            FIELDS
        };
        let mut i: usize = 0;
        assert(out@ =~= old(out)@ + self@.fields_wire(order.take(0)));
        while i < steps
            invariant
                i <= steps,
                order == self@.order(),
                order.len() == steps,
                count == self@.count(),
                form@ == self@.form(),
                recorded == (self@.encodings matches Some(e) && e.orig_deser_order.len() == count),
                self@.well_formed(),
                out@ == old(out)@ + self@.fields_wire(order.take(i as int)),
                forall|j: int| 0 <= j < i ==> self@.field_encodable(#[trigger] order[j]),
            decreases steps - i,
        {
            let index = match &self.encodings {
                Some(e) => if recorded {
                    e.orig_deser_order[i]
                } else {
                    i
                },
                None => i,
            };
            assert(index == order[i as int]);
            match self.write_field(index, form, out) {
                Ok(_) => {},
                Err(e) => {
                    return Err(e);
                },
            }
            proof {
                let next = order.take(i + 1);
                assert(next.drop_last() =~= order.take(i as int));
                assert(next.last() == order[i as int]);
                assert(out@ =~= old(out)@ + self@.fields_wire(next));
            }
            i = i + 1;
        }
        assert(order.take(steps as int) =~= order);
        Ok(())
    }

    /// Writes the claims. Fails where a part of them cannot be written the
    /// way its descriptor says. Every number in a recorded order must be the
    /// number of a field.
    pub fn serialize(&self, out: &mut Vec<u8>) -> (r: Result<(), cbor_event::Error>)
        requires
            self@.well_formed(),
        ensures
            r is Ok <==> self@.encodable(),
            r is Ok ==> final(out)@ == old(out)@ + self@.wire(),
    {
        reveal(SdPayloadView::wire);
        let plain = SdPayloadEncoding::default();
        let form = match &self.encodings {
            Some(e) => e,
            None => &plain,
        };
        let count = self.count();
        let _ = write_map(out, form.len_encoding.to_len_sz(count as u64));
        match self.write_fields(form, count, out) {
            Ok(_) => {},
            Err(e) => {
                return Err(e);
            },
        }
        let r = form.len_encoding.end(out);
        assert(final(out)@ =~= old(out)@ + self@.wire());
        r
    }

    fn deserialize_fields(raw: &mut Reader, read_len: CBORReadLen) -> (r: Result<
        SdPayload,
        DeserializeError,
    >)
        ensures
            decoded(
                *old(raw),
                *final(raw),
                r,
                SdPayloadView::parse_fields(
                    old(raw).rest(),
                    PayloadScan::start(read_len.declared(), read_len.claimed()),
                ),
            ),
    {
        let _ = raw.position();
        let len = read_len.len();
        let ghost claimed = read_len.claimed();
        let ghost start = PayloadScan::start(len, claimed);
        let ghost body = raw.rest();
        let ghost whole = parse_items(payload_reader(start), len, Seq::empty(), body);
        let mut st = PayloadBuilder::new(read_len);
        let mut read: usize = 0;
        let ghost mut acc: Seq<PayloadScan> = Seq::empty();
        let ghost mut used: nat = 0;
        loop
            invariant
                raw.bytes() == old(raw).bytes(),
                old(raw).advanced(raw, used),
                body == old(raw).rest(),
                start == PayloadScan::start(len, claimed),
                len == read_len.declared(),
                claimed == read_len.claimed(),
                whole == parse_items(payload_reader(start), len, Seq::empty(), body),
                whole == shifted(parse_items(payload_reader(start), len, acc, raw.rest()), used),
                acc.len() == read,
                read <= used,
                st@ == PayloadScan::after(start, acc),
            decreases raw.bytes().len() - raw.offset(),
        {
            let at = raw.position();
            if !more_items(len, read) {
                return st.finish();
            }
            match next_item(raw, len, read) {
                Ok(Next::Item) => {},
                Ok(Next::End) => {
                    return st.finish();
                },
                Err(e) => {
                    return Err(e);
                },
            }
            match st.read_entry(raw) {
                Ok(_) => {},
                Err(e) => {
                    return Err(e);
                },
            }
            let after = raw.position();
            read = read + 1;
            proof {
                acc = acc.push(st@);
                used = used + (after - at) as nat;
            }
        }
    }

    /// Reads the claims.
    pub fn deserialize(raw: &mut Reader) -> (r: Result<SdPayload, DeserializeError>)
        ensures
            decoded(*old(raw), *final(raw), r, SdPayloadView::parse(old(raw).rest())),
    {
        reveal(SdPayloadView::parse);
        let len = match raw.map_sz() {
            Ok(len) => len,
            Err(e) => {
                return Err(DeserializeError::from_cbor(e));
            },
        };
        let read_len = CBORReadLen::new(len);
        match Self::deserialize_fields(raw, read_len) {
            Ok(v) => Ok(v),
            Err(e) => Err(e.annotate("SdPayload")),
        }
    }
}

} // verus!
