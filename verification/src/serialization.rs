//! How lengths and strings were written: the descriptors that a decoded
//! value keeps so that it can be written the same way again, the tracker
//! that holds a container to its declared length, and the string readers and
//! writers that go by the descriptors.

use crate::error::{
    bare, cbor_error, DeserializeError, DeserializeFailure, ErrorView, FailureView,
};
use crate::raw::{invalid_indefinite_string, write_break, write_bytes, write_text};
use crate::reader::{decoded_plain, Reader};
use crate::wire::{
    chunks_encodable, chunks_total, form_of, parse_special, parse_string, shortest,
    string_encodable, string_wire, type_of, widest, StringForm, BREAK, MAJOR_BYTES, MAJOR_TEXT,
};
use cbor_event::{LenSz, StringLenSz, Sz, Type};
use vstd::prelude::*;
use vstd::utf8::{decode_utf8, encode_utf8};

verus! {

broadcast use {vstd::seq_lib::lemma_seq_skip_of_skip, vstd::seq_lib::lemma_seq_skip_nothing};

/// The largest argument that a head of the given width can carry.
pub fn sz_max(sz: Sz) -> (r: u64)
    ensures
        r == widest(sz),
{
    match sz {
        Sz::Inline => 23u64,
        Sz::One => 0xffu64,
        Sz::Two => 0xffffu64,
        Sz::Four => 0xffff_ffffu64,
        Sz::Eight => 0xffff_ffff_ffff_ffffu64,
    }
}

/// The width to write `len` with: the one asked for where `len` fits it,
/// the shortest otherwise.
pub open spec fn fitting(len: u64, sz: Option<Sz>) -> Sz {
    match sz {
        Some(sz) => if len <= widest(sz) {
            sz
        } else {
            shortest(len)
        },
        None => shortest(len),
    }
}

/// The width to write `len` with: the one asked for where `len` fits it,
/// the shortest otherwise.
pub fn fit_sz(len: u64, sz: Option<Sz>) -> (r: Sz)
    ensures
        r == fitting(len, sz),
        len <= widest(r),
{
    match sz {
        Some(sz) => {
            if len <= sz_max(sz) {
                sz
            } else {
                Sz::canonical(len)
            }
        },
        None => Sz::canonical(len),
    }
}

/// How the length of an array or map was written.
#[derive(Debug, PartialEq, Eq, Copy, Clone)]
pub enum LenEncoding {
    /// In the shortest form.
    Canonical,
    /// With a head of this width, which is not the shortest.
    Definite(Sz),
    /// Not at all: the container ends with a break marker.
    Indefinite,
}

impl Default for LenEncoding {
    fn default() -> (r: Self)
        ensures
            r == LenEncoding::Canonical,
    {
        LenEncoding::Canonical
    }
}

impl LenEncoding {
    /// The descriptor of a length as it was read.
    pub open spec fn of(len_sz: LenSz) -> LenEncoding {
        match len_sz {
            LenSz::Len(len, sz) => if shortest(len) == sz {
                LenEncoding::Canonical
            } else {
                LenEncoding::Definite(sz)
            },
            LenSz::Indefinite => LenEncoding::Indefinite,
        }
    }

    /// The descriptor of a length as it was read.
    pub fn from_len_sz(len_sz: LenSz) -> (r: Self)
        ensures
            r == Self::of(len_sz),
    {
        match len_sz {
            LenSz::Len(len, sz) => {
                if same_width(Sz::canonical(len), sz) {
                    LenEncoding::Canonical
                } else {
                    LenEncoding::Definite(sz)
                }
            },
            LenSz::Indefinite => LenEncoding::Indefinite,
        }
    }

    /// The head to write for a container of `len` elements.
    pub open spec fn head_for(self, len: u64) -> LenSz {
        match self {
            LenEncoding::Canonical => LenSz::Len(len, shortest(len)),
            LenEncoding::Definite(sz) => LenSz::Len(len, fitting(len, Some(sz))),
            LenEncoding::Indefinite => LenSz::Indefinite,
        }
    }

    /// The head to write for a container of `len` elements: the recorded
    /// width where `len` still fits it, the shortest form otherwise.
    pub fn to_len_sz(&self, len: u64) -> (r: LenSz)
        ensures
            r == self.head_for(len),
            r matches LenSz::Len(n, sz) ==> n <= widest(sz),
    {
        match self {
            LenEncoding::Canonical => LenSz::Len(len, Sz::canonical(len)),
            LenEncoding::Definite(sz) => {
                if sz_max(*sz) >= len {
                    LenSz::Len(len, *sz)
                } else {
                    LenSz::Len(len, Sz::canonical(len))
                }
            },
            LenEncoding::Indefinite => LenSz::Indefinite,
        }
    }

    /// What ends a container that was written so: a break marker for an
    /// indefinite length, nothing otherwise.
    pub open spec fn ending(self) -> Seq<u8> {
        match self {
            LenEncoding::Indefinite => seq![BREAK],
            _ => Seq::empty(),
        }
    }

    /// Writes what ends the container.
    pub fn end(&self, out: &mut Vec<u8>) -> (r: Result<(), cbor_event::Error>)
        ensures
            r is Ok,
            final(out)@ == old(out)@ + self.ending(),
    {
        match self {
            LenEncoding::Indefinite => {
                let r = write_break(out);
                assert(final(out)@ =~= old(out)@ + self.ending());
                r
            },
            _ => {
                assert(out@ =~= old(out)@ + self.ending());
                Ok(())
            },
        }
    }
}

/// Whether two widths are the same.
pub fn same_width(a: Sz, b: Sz) -> (r: bool)
    ensures
        r == (a == b),
{
    match (a, b) {
        (Sz::Inline, Sz::Inline) => true,
        (Sz::One, Sz::One) => true,
        (Sz::Two, Sz::Two) => true,
        (Sz::Four, Sz::Four) => true,
        (Sz::Eight, Sz::Eight) => true,
        _ => false,
    }
}

/// How the length of a byte or text string was written.
#[derive(Debug, PartialEq, Eq)]
pub enum StringEncoding {
    /// In the shortest form.
    Canonical,
    /// As an indefinite-length string of chunks with these lengths and widths.
    Indefinite(Vec<(u64, Sz)>),
    /// With a head of this width.
    Definite(Sz),
}

/// What a `StringEncoding` stands for.
pub enum StringEncodingView {
    Canonical,
    Indefinite(Seq<(u64, Sz)>),
    Definite(Sz),
}

impl View for StringEncoding {
    type V = StringEncodingView;

    open spec fn view(&self) -> StringEncodingView {
        match self {
            StringEncoding::Canonical => StringEncodingView::Canonical,
            StringEncoding::Indefinite(lens) => StringEncodingView::Indefinite(lens@),
            StringEncoding::Definite(sz) => StringEncodingView::Definite(*sz),
        }
    }
}

impl Default for StringEncoding {
    fn default() -> (r: Self)
        ensures
            r@ == StringEncodingView::Canonical,
    {
        StringEncoding::Canonical
    }
}

impl StringEncodingView {
    /// The descriptor of a layout as it was read.
    pub open spec fn of(form: StringForm) -> StringEncodingView {
        match form {
            StringForm::Definite(sz) => StringEncodingView::Definite(sz),
            StringForm::Chunked(lens) => StringEncodingView::Indefinite(lens),
        }
    }

    /// The layout to write a string of `len` bytes in.
    pub open spec fn form_for(self, len: u64) -> StringForm {
        match self {
            StringEncodingView::Canonical => StringForm::Definite(shortest(len)),
            StringEncodingView::Definite(sz) => StringForm::Definite(fitting(len, Some(sz))),
            StringEncodingView::Indefinite(lens) => StringForm::Chunked(lens),
        }
    }
}

/// A copy of the chunk list.
fn copy_chunks(lens: &Vec<(u64, Sz)>) -> (r: Vec<(u64, Sz)>)
    ensures
        r@ == lens@,
{
    let mut copy: Vec<(u64, Sz)> = Vec::new();
    let mut i: usize = 0;
    while i < lens.len()
        invariant
            i <= lens.len(),
            copy@ == lens@.take(i as int),
        decreases lens.len() - i,
    {
        let (n, sz) = lens[i];
        copy.push((n, sz));
        i = i + 1;
        assert(copy@ =~= lens@.take(i as int));
    }
    assert(lens@.take(i as int) =~= lens@);
    copy
}

impl Clone for StringEncoding {
    fn clone(&self) -> (r: Self)
        ensures
            r@ == self@,
    {
        match self {
            StringEncoding::Canonical => StringEncoding::Canonical,
            StringEncoding::Indefinite(lens) => StringEncoding::Indefinite(copy_chunks(lens)),
            StringEncoding::Definite(sz) => StringEncoding::Definite(*sz),
        }
    }
}

impl StringEncoding {
    /// The descriptor of a layout as it was read.
    pub fn from_str_len_sz(len_sz: StringLenSz) -> (r: Self)
        ensures
            r@ == StringEncodingView::of(form_of(len_sz)),
    {
        match len_sz {
            StringLenSz::Len(sz) => StringEncoding::Definite(sz),
            StringLenSz::Indefinite(lens) => StringEncoding::Indefinite(lens),
        }
    }

    /// The layout to write a string of `len` bytes in: the recorded width
    /// where `len` still fits it and the shortest form otherwise, or the
    /// recorded chunks.
    pub fn to_str_len_sz(&self, len: u64) -> (r: StringLenSz)
        ensures
            form_of(r) == self@.form_for(len),
    {
        match self {
            StringEncoding::Canonical => StringLenSz::Len(Sz::canonical(len)),
            StringEncoding::Definite(sz) => {
                if sz_max(*sz) >= len {
                    StringLenSz::Len(*sz)
                } else {
                    StringLenSz::Len(Sz::canonical(len))
                }
            },
            StringEncoding::Indefinite(lens) => StringLenSz::Indefinite(copy_chunks(lens)),
        }
    }
}

/// Where chunks can be cut from `data`, their lengths add up to its length.
pub proof fn lemma_encodable_chunks_total(major: u8, data: Seq<u8>, lens: Seq<(u64, Sz)>)
    requires
        chunks_encodable(major, data, lens),
    ensures
        chunks_total(lens) == data.len(),
    decreases lens.len(),
{
    if lens.len() != 0 {
        lemma_encodable_chunks_total(major, data.skip(lens[0].0 as int), lens.skip(1));
    }
}

/// The sum of the chunk lengths, where it fits 64 bits.
fn chunk_sum(lens: &Vec<(u64, Sz)>) -> (r: Option<u64>)
    ensures
        match r {
            Some(total) => total == chunks_total(lens@),
            None => chunks_total(lens@) > u64::MAX,
        },
{
    let mut total: u64 = 0;
    let mut i: usize = 0;
    assert(lens@.skip(0) =~= lens@);
    while i < lens.len()
        invariant
            i <= lens.len(),
            chunks_total(lens@) == total + chunks_total(lens@.skip(i as int)),
        decreases lens.len() - i,
    {
        let (n, _) = lens[i];
        assert(lens@.skip(i as int).skip(1) =~= lens@.skip(i + 1));
        if n > u64::MAX - total {
            return None;
        }
        total = total + n;
        i = i + 1;
    }
    Some(total)
}

/// Whether the chunk lengths of a layout can be summed in 64 bits.
fn summable(form: &StringLenSz) -> (r: bool)
    ensures
        r == (form matches StringLenSz::Indefinite(lens) ==> chunks_total(lens@) <= u64::MAX),
{
    match form {
        StringLenSz::Len(_) => true,
        StringLenSz::Indefinite(lens) => chunk_sum(lens).is_some(),
    }
}

/// Whether a byte string can be written the way the descriptor says.
#[verifier::opaque]
pub open spec fn bytes_encodable(data: Seq<u8>, enc: StringEncodingView) -> bool {
    string_encodable(MAJOR_BYTES, data, enc.form_for(data.len() as u64))
}

/// The bytes of a byte string written the way the descriptor says.
#[verifier::opaque]
pub open spec fn bytes_wire(data: Seq<u8>, enc: StringEncodingView) -> Seq<u8> {
    string_wire(MAJOR_BYTES, data, enc.form_for(data.len() as u64))
}

/// Whether a text string can be written the way the descriptor says.
#[verifier::opaque]
pub open spec fn text_encodable(text: Seq<char>, enc: StringEncodingView) -> bool {
    string_encodable(MAJOR_TEXT, encode_utf8(text), enc.form_for(encode_utf8(text).len() as u64))
}

/// The bytes of a text string written the way the descriptor says.
#[verifier::opaque]
pub open spec fn text_wire(text: Seq<char>, enc: StringEncodingView) -> Seq<u8> {
    string_wire(MAJOR_TEXT, encode_utf8(text), enc.form_for(encode_utf8(text).len() as u64))
}

/// Writes a byte string the way the descriptor says. Fails where the
/// recorded chunks do not add up to the content.
pub fn write_bytes_as(out: &mut Vec<u8>, bytes: &Vec<u8>, enc: &StringEncoding) -> (r: Result<
    (),
    cbor_event::Error,
>)
    ensures
        r is Ok <==> bytes_encodable(bytes@, enc@),
        r is Ok ==> final(out)@ == old(out)@ + bytes_wire(bytes@, enc@),
{
    reveal(bytes_encodable);
    reveal(bytes_wire);
    let form = enc.to_str_len_sz(bytes.len() as u64);
    if !summable(&form) {
        proof {
            if bytes_encodable(bytes@, enc@) {
                lemma_encodable_chunks_total(MAJOR_BYTES, bytes@, form_of(form)->Chunked_0);
            }
        }
        return Err(invalid_indefinite_string());
    }
    write_bytes(out, bytes.as_slice(), form)
}

/// Writes a text string the way the descriptor says. Fails where the
/// recorded chunks do not add up to the text or cut a character in two.
pub fn write_text_as(out: &mut Vec<u8>, text: &str, enc: &StringEncoding) -> (r: Result<
    (),
    cbor_event::Error,
>)
    ensures
        r is Ok <==> text_encodable(text@, enc@),
        r is Ok ==> final(out)@ == old(out)@ + text_wire(text@, enc@),
{
    reveal(text_encodable);
    reveal(text_wire);
    let form = enc.to_str_len_sz(text.as_bytes().len() as u64);
    if !summable(&form) {
        proof {
            if text_encodable(text@, enc@) {
                lemma_encodable_chunks_total(
                    MAJOR_TEXT,
                    encode_utf8(text@),
                    form_of(form)->Chunked_0,
                );
            }
        }
        return Err(invalid_indefinite_string());
    }
    write_text(out, text, form)
}

/// The byte string at the start of `s` with its descriptor, and the bytes
/// that it takes.
#[verifier::opaque]
pub open spec fn parse_bytes(s: Seq<u8>) -> Option<(Seq<u8>, StringEncodingView, nat)> {
    match parse_string(MAJOR_BYTES, s) {
        Some(item) => Some((item.data, StringEncodingView::of(item.form), item.consumed)),
        None => None,
    }
}

/// The text string at the start of `s` with its descriptor, and the bytes
/// that it takes.
#[verifier::opaque]
pub open spec fn parse_text(s: Seq<u8>) -> Option<(Seq<char>, StringEncodingView, nat)> {
    match parse_string(MAJOR_TEXT, s) {
        Some(item) => Some(
            (decode_utf8(item.data), StringEncodingView::of(item.form), item.consumed),
        ),
        None => None,
    }
}

/// Reads a byte string and the descriptor of how it was written.
pub fn read_bytes_enc(raw: &mut Reader) -> (r: Result<(Vec<u8>, StringEncoding), cbor_event::Error>)
    ensures
        match parse_bytes(old(raw).rest()) {
            Some((data, enc, n)) => r matches Ok(x) && x.0@ == data && x.1@ == enc && old(
                raw,
            ).advanced(final(raw), n),
            None => r is Err && old(raw).unmoved(final(raw)),
        },
{
    reveal(parse_bytes);
    match raw.bytes_sz() {
        Ok((bytes, form)) => Ok((bytes, StringEncoding::from_str_len_sz(form))),
        Err(e) => Err(e),
    }
}

/// Reads a text string and the descriptor of how it was written.
pub fn read_text_enc(raw: &mut Reader) -> (r: Result<(String, StringEncoding), cbor_event::Error>)
    ensures
        match parse_text(old(raw).rest()) {
            Some((text, enc, n)) => r matches Ok(x) && x.0@ == text && x.1@ == enc && old(
                raw,
            ).advanced(final(raw), n),
            None => r is Err && old(raw).unmoved(final(raw)),
        },
{
    reveal(parse_text);
    match raw.text_sz() {
        Ok((text, form)) => Ok((text, StringEncoding::from_str_len_sz(form))),
        Err(e) => Err(e),
    }
}

/// What a definite-length container must hold: `Ok` where the declared
/// length is `count` or the length is indefinite, the mismatch otherwise.
/// A declared length below `count` is found when the elements are claimed, a
/// length above it when the container is closed.
pub open spec fn exact_len(len: LenSz, count: u64) -> Result<(), FailureView> {
    match len {
        LenSz::Len(n, _) => if n < count {
            Err(FailureView::DefiniteLenMismatch(n, None))
        } else if n > count {
            Err(FailureView::DefiniteLenMismatch(n, Some(count)))
        } else {
            Ok(())
        },
        LenSz::Indefinite => Ok(()),
    }
}

/// What ends an array of fixed size at the start of `s`: nothing after a
/// definite length, the break marker after an indefinite one.
#[verifier::opaque]
pub open spec fn parse_closing(s: Seq<u8>, len: LenSz) -> Result<((), nat), ErrorView> {
    match len {
        LenSz::Len(_, _) => Ok(((), 0)),
        LenSz::Indefinite => match parse_special(s) {
            Some(true) => Ok(((), 1)),
            Some(false) => Err(bare(FailureView::EndingBreakMissing)),
            None => Err(cbor_error()),
        },
    }
}

/// Reads what ends an array of fixed size.
pub fn read_closing(raw: &mut Reader, len: LenSz) -> (r: Result<(), DeserializeError>)
    ensures
        decoded_plain(*old(raw), *final(raw), r, parse_closing(old(raw).rest(), len)),
{
    reveal(parse_closing);
    match len {
        LenSz::Len(_, _) => {
            let _ = raw.position();
            assert(raw.rest().skip(0) =~= raw.rest());
            Ok(())
        },
        LenSz::Indefinite => match raw.special_is_break() {
            Ok(true) => Ok(()),
            Ok(false) => Err(DeserializeError::from_failure(DeserializeFailure::EndingBreakMissing)),
            Err(e) => Err(DeserializeError::from_cbor(e)),
        },
    }
}

/// A result whose count of bytes is raised by `k`: what was found after `k`
/// bytes, seen from before them.
pub open spec fn shifted<T>(r: Result<(T, nat), ErrorView>, k: nat) -> Result<(T, nat), ErrorView> {
    match r {
        Ok((v, n)) => Ok((v, n + k)),
        Err(e) => Err(e),
    }
}

/// The failure where the input ends where an item of a container is
/// expected after `count` items: the mismatch for a definite length, which
/// the container then does not hold, the reader's error otherwise.
pub open spec fn ended<T>(len: LenSz, count: nat) -> Result<T, ErrorView> {
    match len {
        LenSz::Len(n, _) => Err(bare(FailureView::DefiniteLenMismatch(n, Some(count as u64)))),
        LenSz::Indefinite => Err(cbor_error()),
    }
}

/// The items of a container whose head declared `len`, from the start of
/// `s`, after the items `acc` that were read before. A definite-length
/// container holds as many items as it declares; a break marker among them
/// is an error, and so is the end of the input. An indefinite-length container holds items up to a break
/// marker. `item` reads one item, which takes at least one byte, and may
/// look at the items before it.
pub open spec fn parse_items<T>(
    item: spec_fn(Seq<T>, Seq<u8>) -> Result<(T, nat), ErrorView>,
    len: LenSz,
    acc: Seq<T>,
    s: Seq<u8>,
) -> Result<(Seq<T>, nat), ErrorView>
    decreases s.len(),
{
    if len matches LenSz::Len(n, _) && acc.len() >= n {
        Ok((acc, 0))
    } else if s.len() == 0 {
        ended(len, acc.len())
    } else if type_of(s[0]) == Type::Special {
        match len {
            LenSz::Len(_, _) => Err(bare(FailureView::BreakInDefiniteLen)),
            LenSz::Indefinite => match parse_special(s) {
                Some(true) => Ok((acc, 1)),
                Some(false) => Err(bare(FailureView::EndingBreakMissing)),
                None => Err(cbor_error()),
            },
        }
    } else {
        match item(acc, s) {
            Ok((v, used)) => if 0 < used <= s.len() {
                shifted(parse_items(item, len, acc.push(v), s.skip(used as int)), used)
            } else {
                Err(cbor_error())
            },
            Err(e) => Err(e),
        }
    }
}

/// Whether a container whose head declared `len` holds more after `count`
/// items: the first part of what `parse_items` decides.
pub fn more_items(len: LenSz, count: usize) -> (r: bool)
    ensures
        r == !(len matches LenSz::Len(n, _) && count >= n),
{
    match len {
        LenSz::Len(n, _) => (count as u64) < n,
        LenSz::Indefinite => true,
    }
}

/// What stands where the next item of a container is expected.
pub enum Next {
    /// An item.
    Item,
    /// The break marker that ends an indefinite-length container; it has
    /// been read.
    End,
}

/// Looks at what stands where the next item of a container is expected
/// after `count` items, and reads the break marker if it is one: the second
/// part of what `parse_items` decides.
pub fn next_item(raw: &mut Reader, len: LenSz, count: usize) -> (r: Result<Next, DeserializeError>)
    ensures
        final(raw).bytes() == old(raw).bytes(),
        ({
            let s = old(raw).rest();
            if s.len() == 0 {
                r matches Err(e) && Err::<Next, ErrorView>(e@) == ended::<Next>(len, count as nat)
            } else if type_of(s[0]) == Type::Special {
                match len {
                    LenSz::Len(_, _) => r matches Err(e) && e@ == bare(
                        FailureView::BreakInDefiniteLen,
                    ),
                    LenSz::Indefinite => match parse_special(s) {
                        Some(true) => r matches Ok(Next::End) && old(raw).advanced(final(raw), 1),
                        Some(false) => r matches Err(e) && e@ == bare(
                            FailureView::EndingBreakMissing,
                        ),
                        None => r matches Err(e) && e@ == cbor_error(),
                    },
                }
            } else {
                r matches Ok(Next::Item) && old(raw).unmoved(final(raw))
            }
        }),
{
    if raw.is_at_end() {
        if let LenSz::Len(n, _) = len {
            return Err(
                DeserializeError::from_failure(
                    DeserializeFailure::DefiniteLenMismatch(n, Some(count as u64)),
                ),
            );
        }
    }
    let kind = match raw.cbor_type() {
        Ok(kind) => kind,
        Err(e) => {
            return Err(DeserializeError::from_cbor(e));
        },
    };
    match kind {
        Type::Special => match len {
            LenSz::Len(_, _) => Err(
                DeserializeError::from_failure(DeserializeFailure::BreakInDefiniteLen),
            ),
            LenSz::Indefinite => match raw.special_is_break() {
                Ok(true) => Ok(Next::End),
                Ok(false) => Err(
                    DeserializeError::from_failure(DeserializeFailure::EndingBreakMissing),
                ),
                Err(e) => Err(DeserializeError::from_cbor(e)),
            },
        },
        _ => Ok(Next::Item),
    }
}

/// Whether the input `s` ends where the element after the first `read`
/// elements of an array is expected: the mismatch where the array declared a
/// definite length, which it then does not hold.
pub open spec fn cut_short(len: LenSz, read: u64, s: Seq<u8>) -> Option<FailureView> {
    match len {
        LenSz::Len(n, _) => if s.len() == 0 {
            Some(FailureView::DefiniteLenMismatch(n, Some(read)))
        } else {
            None
        },
        LenSz::Indefinite => None,
    }
}

/// What is found where an element of an array of fixed size is expected
/// after the first `read` elements: the mismatch where the input ends inside
/// a definite length, what reading the element gives otherwise.
pub open spec fn element<T>(
    len: LenSz,
    read: u64,
    s: Seq<u8>,
    found: Result<(T, nat), ErrorView>,
) -> Result<(T, nat), ErrorView> {
    match cut_short(len, read, s) {
        Some(f) => Err(bare(f)),
        None => found,
    }
}

/// Fails where the input ends where the element after the first `read`
/// elements of a definite-length array is expected.
pub fn check_element(raw: &Reader, len: LenSz, read: u64) -> (r: Result<(), DeserializeError>)
    ensures
        match cut_short(len, read, raw.rest()) {
            Some(f) => r matches Err(e) && e@ == bare(f),
            None => r is Ok,
        },
{
    match len {
        LenSz::Len(n, _) => if raw.is_at_end() {
            Err(DeserializeError::from_failure(DeserializeFailure::DefiniteLenMismatch(n, Some(read))))
        } else {
            Ok(())
        },
        LenSz::Indefinite => Ok(()),
    }
}

/// The failure for a byte string of `len` bytes whose value takes only
/// `taken` of them: a byte string that holds a value holds nothing after it.
pub open spec fn leftover(len: nat, taken: nat) -> FailureView {
    FailureView::DefiniteLenMismatch(len as u64, Some(taken as u64))
}

/// What a byte string of `len` bytes holds, from what reading a value from
/// its start gave: the value where it takes all the bytes.
pub open spec fn filling<T>(len: nat, found: Result<(T, nat), ErrorView>) -> Result<T, ErrorView> {
    match found {
        Ok((v, taken)) => if taken == len {
            Ok(v)
        } else {
            Err(bare(leftover(len, taken)))
        },
        Err(e) => Err(e),
    }
}

/// Fails unless the cursor over the `len` bytes of a byte string has read
/// all of them.
pub fn check_filled(inner: &Reader, len: usize) -> (r: Result<(), DeserializeError>)
    ensures
        if inner.offset() == len {
            r is Ok
        } else {
            r matches Err(e) && e@ == bare(leftover(len as nat, inner.offset()))
        },
{
    let taken = inner.position();
    if taken == len {
        Ok(())
    } else {
        Err(
            DeserializeError::from_failure(
                DeserializeFailure::DefiniteLenMismatch(len as u64, Some(taken as u64)),
            ),
        )
    }
}

/// Holds an array of fixed size to `count` elements.
pub fn check_len(len: LenSz, count: usize) -> (r: Result<(), DeserializeFailure>)
    ensures
        match exact_len(len, count as u64) {
            Ok(_) => r is Ok,
            Err(f) => r matches Err(e) && e@ == f,
        },
{
    let mut read_len = CBORReadLen::new(len);
    match read_len.read_elems(count) {
        Ok(_) => {},
        Err(e) => {
            return Err(e);
        },
    }
    read_len.finish()
}

/// The count of claimed elements after `count` more are claimed in a
/// container whose head declared `len`, or the mismatch where a definite
/// length declares fewer. Nothing is counted for an indefinite length.
pub open spec fn claim(len: LenSz, claimed: u64, count: nat) -> Result<u64, FailureView> {
    match len {
        LenSz::Len(n, _) => if claimed + count <= n {
            Ok((claimed + count) as u64)
        } else {
            Err(FailureView::DefiniteLenMismatch(n, None))
        },
        LenSz::Indefinite => Ok(claimed),
    }
}

/// Whether a container whose head declared `len` may end after `claimed`
/// elements: the mismatch where a definite length declares another number.
pub open spec fn close(len: LenSz, claimed: u64) -> Result<(), FailureView> {
    match len {
        LenSz::Len(n, _) => if claimed == n {
            Ok(())
        } else {
            Err(FailureView::DefiniteLenMismatch(n, Some(claimed)))
        },
        LenSz::Indefinite => Ok(()),
    }
}

/// Holds a container to its declared length: elements are claimed as they
/// are read, and a definite-length container may hold neither fewer nor more
/// than it declares.
pub struct CBORReadLen {
    deser_len: LenSz,
    read: u64,
}

impl CBORReadLen {
    /// The declared length.
    pub closed spec fn declared(&self) -> LenSz {
        self.deser_len
    }

    /// How many elements have been claimed.
    pub closed spec fn claimed(&self) -> u64 {
        self.read
    }

    /// A tracker for a container of the declared length, with nothing
    /// claimed.
    pub fn new(len: LenSz) -> (r: Self)
        ensures
            r.declared() == len,
            r.claimed() == 0,
    {
        CBORReadLen { deser_len: len, read: 0 }
    }

    /// The declared length.
    pub fn len(&self) -> (r: LenSz)
        ensures
            r == self.declared(),
    {
        self.deser_len
    }

    /// How many elements have been claimed.
    pub fn read(&self) -> (r: u64)
        ensures
            r == self.claimed(),
    {
        self.read
    }

    /// Claims `count` more elements. Fails as soon as more are claimed than
    /// a definite length declares; the count then stays at what it has
    /// reached, or at the largest number where it no longer fits. Nothing is
    /// counted for an indefinite length.
    pub fn read_elems(&mut self, count: usize) -> (r: Result<(), DeserializeFailure>)
        ensures
            final(self).declared() == old(self).declared(),
            match old(self).declared() {
                LenSz::Len(n, _) => {
                    &&& final(self).claimed() == if old(self).claimed() + count <= u64::MAX {
                        (old(self).claimed() + count) as u64
                    } else {
                        u64::MAX
                    }
                    &&& if old(self).claimed() + count <= n {
                        r is Ok
                    } else {
                        r matches Err(e) && e@ == FailureView::DefiniteLenMismatch(n, None)
                    }
                },
                LenSz::Indefinite => r is Ok && final(self).claimed() == old(self).claimed(),
            },
    {
        match self.deser_len {
            LenSz::Len(n, _) => {
                let count64 = count as u64;
                if count64 > u64::MAX - self.read {
                    self.read = u64::MAX;
                    Err(DeserializeFailure::DefiniteLenMismatch(n, None))
                } else {
                    self.read = self.read + count64;
                    if self.read > n {
                        Err(DeserializeFailure::DefiniteLenMismatch(n, None))
                    } else {
                        Ok(())
                    }
                }
            },
            LenSz::Indefinite => Ok(()),
        }
    }

    /// Closes the container. Fails unless as many elements were claimed as a
    /// definite length declares.
    pub fn finish(&self) -> (r: Result<(), DeserializeFailure>)
        ensures
            match self.declared() {
                LenSz::Len(n, _) => if self.claimed() == n {
                    r is Ok
                } else {
                    r matches Err(e) && e@ == FailureView::DefiniteLenMismatch(
                        n,
                        Some(self.claimed()),
                    )
                },
                LenSz::Indefinite => r is Ok,
            },
    {
        match self.deser_len {
            LenSz::Len(n, _) => {
                if self.read == n {
                    Ok(())
                } else {
                    Err(DeserializeFailure::DefiniteLenMismatch(n, Some(self.read)))
                }
            },
            LenSz::Indefinite => Ok(()),
        }
    }
}

} // verus!
