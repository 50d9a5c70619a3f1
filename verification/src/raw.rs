//! The primitive CBOR reader and writer of the `cbor_event` crate, one
//! function for each call that the codecs make. Nothing here is proved: each
//! contract says what the crate's source shows of the call, over the wire
//! model. A reader works on a cursor over the bytes that are left; a writer
//! appends to the output.

use crate::wire::{
    chunks_total, form_of, head, head_arg, len_head, lengths_fit, parse_arg, parse_len,
    parse_special, parse_string, shortest, string_encodable, string_wire, type_of, widest, BREAK,
    MAJOR_ARRAY, MAJOR_BYTES, MAJOR_MAP, MAJOR_NINT, MAJOR_TAG, MAJOR_TEXT, MAJOR_UINT,
};
use cbor_event::de::Deserializer;
use cbor_event::se::Serializer;
use cbor_event::{LenSz, Special, StringLenSz, Sz, Type};
use std::io::Cursor;
use vstd::prelude::*;
use vstd::utf8::{decode_utf8, encode_utf8};

verus! {

#[verifier::external_type_specification]
pub struct ExSz(Sz);

#[verifier::external_type_specification]
pub struct ExLenSz(LenSz);

#[verifier::external_type_specification]
pub struct ExStringLenSz(StringLenSz);

#[verifier::external_type_specification]
pub struct ExType(Type);

#[verifier::external_type_specification]
#[verifier::external_body]
pub struct ExError(cbor_event::Error);

/// `Sz::canonical`: the shortest width that can carry `len`.
pub assume_specification[ Sz::canonical ](len: u64) -> (sz: Sz)
    ensures
        sz == shortest(len),
;

/// `Deserializer::cbor_type` on a cursor over `data`: the major type of the
/// first byte, an error where there is none. Nothing is consumed.
#[verifier::external_body]
pub(crate) fn peek_type(data: &[u8]) -> (r: Result<Type, cbor_event::Error>)
    ensures
        match r {
            Ok(t) => data@.len() != 0 && t == type_of(data@[0]),
            Err(_) => data@.len() == 0,
        },
{
    Deserializer::from(Cursor::new(data)).cbor_type()
}

/// `Deserializer::cbor_len_sz` on a cursor over `data`: the argument of the
/// head at the start, whatever its major type. Nothing is consumed.
#[verifier::external_body]
pub(crate) fn peek_len(data: &[u8]) -> (r: Result<LenSz, cbor_event::Error>)
    ensures
        match head_arg(data@) {
            Some(len) => r matches Ok(x) && x == len,
            None => r is Err,
        },
{
    Deserializer::from(Cursor::new(data)).cbor_len_sz()
}

/// `Deserializer::unsigned_integer_sz` on a cursor over `data`: the value and
/// the width of the unsigned integer at the start, an error where there is
/// none.
#[verifier::external_body]
pub(crate) fn read_unsigned_integer(data: &[u8]) -> (r: Result<(u64, Sz), cbor_event::Error>)
    ensures
        match parse_arg(MAJOR_UINT, data@) {
            Some(v) => r matches Ok(x) && x == v,
            None => r is Err,
        },
{
    Deserializer::from(Cursor::new(data)).unsigned_integer_sz()
}

/// `Deserializer::negative_integer_sz` on a cursor over `data`: minus one
/// minus the argument of the negative integer at the start, with the width,
/// an error where there is none.
#[verifier::external_body]
pub(crate) fn read_negative_integer(data: &[u8]) -> (r: Result<(i128, Sz), cbor_event::Error>)
    ensures
        match parse_arg(MAJOR_NINT, data@) {
            Some((v, sz)) => r matches Ok(x) && x.0 == -1 - v && x.1 == sz,
            None => r is Err,
        },
{
    Deserializer::from(Cursor::new(data)).negative_integer_sz()
}

/// `Deserializer::tag_sz` on a cursor over `data`: the number and the width
/// of the tag at the start, an error where there is none.
#[verifier::external_body]
pub(crate) fn read_tag(data: &[u8]) -> (r: Result<(u64, Sz), cbor_event::Error>)
    ensures
        match parse_arg(MAJOR_TAG, data@) {
            Some(v) => r matches Ok(x) && x == v,
            None => r is Err,
        },
{
    Deserializer::from(Cursor::new(data)).tag_sz()
}

/// `Deserializer::array_sz` on a cursor over `data`: the declared length of
/// the array that starts there, an error where none does.
#[verifier::external_body]
pub(crate) fn read_array(data: &[u8]) -> (r: Result<LenSz, cbor_event::Error>)
    ensures
        match parse_len(MAJOR_ARRAY, data@) {
            Some(len) => r matches Ok(x) && x == len,
            None => r is Err,
        },
{
    Deserializer::from(Cursor::new(data)).array_sz()
}

/// `Deserializer::map_sz` on a cursor over `data`: the declared length of the
/// map that starts there, an error where none does.
#[verifier::external_body]
pub(crate) fn read_map(data: &[u8]) -> (r: Result<LenSz, cbor_event::Error>)
    ensures
        match parse_len(MAJOR_MAP, data@) {
            Some(len) => r matches Ok(x) && x == len,
            None => r is Err,
        },
{
    Deserializer::from(Cursor::new(data)).map_sz()
}

/// `Deserializer::special` on a cursor over `data`: whether the item at the
/// start is the break marker, an error where no item of that major type
/// stands there in full.
#[verifier::external_body]
pub(crate) fn read_special(data: &[u8]) -> (r: Result<bool, cbor_event::Error>)
    ensures
        match parse_special(data@) {
            Some(b) => r matches Ok(x) && x == b,
            None => r is Err,
        },
{
    match Deserializer::from(Cursor::new(data)).special() {
        Ok(Special::Break) => Ok(true),
        Ok(_) => Ok(false),
        Err(e) => Err(e),
    }
}

/// `Deserializer::bytes_sz` on a cursor over `data`: the content and the
/// layout of the byte string at the start, an error where there is none. The
/// crate allocates what a head declares before it reads, so the declared
/// lengths must lie within `data`.
#[verifier::external_body]
pub(crate) fn read_bytes(data: &[u8]) -> (r: Result<(Vec<u8>, StringLenSz), cbor_event::Error>)
    requires
        lengths_fit(MAJOR_BYTES, data@),
    ensures
        match parse_string(MAJOR_BYTES, data@) {
            Some(item) => r matches Ok(x) && x.0@ == item.data && form_of(x.1) == item.form,
            None => r is Err,
        },
{
    Deserializer::from(Cursor::new(data)).bytes_sz()
}

/// `Deserializer::text_sz` on a cursor over `data`: the text and the layout of
/// the text string at the start, an error where there is none or a chunk is
/// not UTF-8. The declared lengths must lie within `data`, as for
/// `read_bytes`.
#[verifier::external_body]
pub(crate) fn read_text(data: &[u8]) -> (r: Result<(String, StringLenSz), cbor_event::Error>)
    requires
        lengths_fit(MAJOR_TEXT, data@),
    ensures
        match parse_string(MAJOR_TEXT, data@) {
            Some(item) => r matches Ok(x) && x.0@ == decode_utf8(item.data) && form_of(x.1)
                == item.form,
            None => r is Err,
        },
{
    Deserializer::from(Cursor::new(data)).text_sz()
}

/// The error `cbor_event::Error::NotEnough`, for a string whose head declares
/// more than the input holds.
#[verifier::external_body]
pub(crate) fn not_enough(available: usize, needed: usize) -> cbor_event::Error {
    cbor_event::Error::NotEnough(available, needed)
}

/// The error `cbor_event::Error::InvalidIndefiniteString`, for chunk lengths
/// that cannot be summed.
#[verifier::external_body]
pub(crate) fn invalid_indefinite_string() -> cbor_event::Error {
    cbor_event::Error::InvalidIndefiniteString
}

/// `Serializer::write_unsigned_integer_sz`: appends the head of an unsigned
/// integer, or fails and writes nothing where `value` does not fit the width.
#[verifier::external_body]
pub(crate) fn write_unsigned_integer(out: &mut Vec<u8>, value: u64, sz: Sz) -> (r: Result<
    (),
    cbor_event::Error,
>)
    ensures
        value <= widest(sz) ==> r is Ok && final(out)@ == old(out)@ + head(MAJOR_UINT, value, sz),
        value > widest(sz) ==> r is Err && final(out)@ == old(out)@,
{
    let mut se = Serializer::new(std::mem::take(out));
    let r = se.write_unsigned_integer_sz(value, sz).and(Ok(()));
    *out = se.finalize();
    r
}

/// `Serializer::write_negative_integer_sz`: appends the head of the negative
/// integer `value`, whose argument is minus one minus `value`, or fails and
/// writes nothing where that does not fit the width.
#[verifier::external_body]
pub(crate) fn write_negative_integer(out: &mut Vec<u8>, value: i128, sz: Sz) -> (r: Result<
    (),
    cbor_event::Error,
>)
    requires
        -0x1_0000_0000_0000_0000 <= value <= -1,
    ensures
        -1 - value <= widest(sz) ==> r is Ok && final(out)@ == old(out)@ + head(
            MAJOR_NINT,
            (-1 - value) as u64,
            sz,
        ),
        -1 - value > widest(sz) ==> r is Err && final(out)@ == old(out)@,
{
    let mut se = Serializer::new(std::mem::take(out));
    let r = se.write_negative_integer_sz(value, sz).and(Ok(()));
    *out = se.finalize();
    r
}

/// `Serializer::write_tag_sz`: appends the head of a tag, or fails and writes
/// nothing where `tag` does not fit the width.
#[verifier::external_body]
pub(crate) fn write_tag(out: &mut Vec<u8>, tag: u64, sz: Sz) -> (r: Result<(), cbor_event::Error>)
    ensures
        tag <= widest(sz) ==> r is Ok && final(out)@ == old(out)@ + head(MAJOR_TAG, tag, sz),
        tag > widest(sz) ==> r is Err && final(out)@ == old(out)@,
{
    let mut se = Serializer::new(std::mem::take(out));
    let r = se.write_tag_sz(tag, sz).and(Ok(()));
    *out = se.finalize();
    r
}

/// Whether a container head can be written: a definite length must fit its
/// width.
pub open spec fn len_encodable(len: LenSz) -> bool {
    match len {
        LenSz::Len(n, sz) => n <= widest(sz),
        LenSz::Indefinite => true,
    }
}

/// `Serializer::write_array_sz`: appends the head of an array, or fails and
/// writes nothing where a definite length does not fit its width.
#[verifier::external_body]
pub(crate) fn write_array(out: &mut Vec<u8>, len: LenSz) -> (r: Result<(), cbor_event::Error>)
    ensures
        len_encodable(len) ==> r is Ok && final(out)@ == old(out)@ + len_head(MAJOR_ARRAY, len),
        !len_encodable(len) ==> r is Err && final(out)@ == old(out)@,
{
    let mut se = Serializer::new(std::mem::take(out));
    let r = se.write_array_sz(len).and(Ok(()));
    *out = se.finalize();
    r
}

/// `Serializer::write_map_sz`: appends the head of a map, or fails and writes
/// nothing where a definite length does not fit its width.
#[verifier::external_body]
pub(crate) fn write_map(out: &mut Vec<u8>, len: LenSz) -> (r: Result<(), cbor_event::Error>)
    ensures
        len_encodable(len) ==> r is Ok && final(out)@ == old(out)@ + len_head(MAJOR_MAP, len),
        !len_encodable(len) ==> r is Err && final(out)@ == old(out)@,
{
    let mut se = Serializer::new(std::mem::take(out));
    let r = se.write_map_sz(len).and(Ok(()));
    *out = se.finalize();
    r
}

/// `Serializer::write_special` with `Special::Break`: appends the break
/// marker.
#[verifier::external_body]
pub(crate) fn write_break(out: &mut Vec<u8>) -> (r: Result<(), cbor_event::Error>)
    ensures
        r is Ok,
        final(out)@ == old(out)@.push(BREAK),
{
    let mut se = Serializer::new(std::mem::take(out));
    let r = se.write_special(Special::Break).and(Ok(()));
    *out = se.finalize();
    r
}

/// `Serializer::write_bytes_sz`: appends a byte string in the given layout,
/// or fails where the content cannot be laid out so. The crate sums the chunk
/// lengths in 64 bits, so the sum must fit.
#[verifier::external_body]
pub(crate) fn write_bytes(out: &mut Vec<u8>, bytes: &[u8], sz: StringLenSz) -> (r: Result<
    (),
    cbor_event::Error,
>)
    requires
        sz matches StringLenSz::Indefinite(lens) ==> chunks_total(lens@) <= u64::MAX,
    ensures
        string_encodable(MAJOR_BYTES, bytes@, form_of(sz)) ==> r is Ok && final(out)@ == old(out)@
            + string_wire(MAJOR_BYTES, bytes@, form_of(sz)),
        !string_encodable(MAJOR_BYTES, bytes@, form_of(sz)) ==> r is Err,
{
    let mut se = Serializer::new(std::mem::take(out));
    let r = se.write_bytes_sz(bytes, sz).and(Ok(()));
    *out = se.finalize();
    r
}

/// `Serializer::write_text_sz`: appends a text string in the given layout, or
/// fails where the UTF-8 bytes of the text cannot be laid out so. The sum of
/// the chunk lengths must fit 64 bits, as for `write_bytes`.
#[verifier::external_body]
pub(crate) fn write_text(out: &mut Vec<u8>, text: &str, sz: StringLenSz) -> (r: Result<
    (),
    cbor_event::Error,
>)
    requires
        sz matches StringLenSz::Indefinite(lens) ==> chunks_total(lens@) <= u64::MAX,
    ensures
        string_encodable(MAJOR_TEXT, encode_utf8(text@), form_of(sz)) ==> r is Ok && final(out)@
            == old(out)@ + string_wire(MAJOR_TEXT, encode_utf8(text@), form_of(sz)),
        !string_encodable(MAJOR_TEXT, encode_utf8(text@), form_of(sz)) ==> r is Err,
{
    let mut se = Serializer::new(std::mem::take(out));
    let r = se.write_text_sz(text, sz).and(Ok(()));
    *out = se.finalize();
    r
}

} // verus!
