//! The laws of the codec for single values: what is written reads back as
//! the same value, and what is read is written back as the same bytes.

use crate::anyy::Anyy;
use crate::cbor_encodings::AnyyEncoding;
use crate::error::ErrorView;
use crate::int_or_text::IntOrTextView;
use crate::integer::Int;
use crate::serialization::{
    bytes_encodable, bytes_wire, fitting, parse_bytes, parse_closing, parse_text, text_encodable,
    text_wire, LenEncoding, StringEncodingView,
};
use crate::wire::{
    content_ok, head, len_head, len_width, parse_arg, parse_len, parse_string, shortest,
    string_encodable, type_of, widest, width, StringForm, MAJOR_ARRAY, MAJOR_BYTES, MAJOR_NINT,
    MAJOR_TEXT, MAJOR_UINT,
};
use crate::wire_lemmas::{
    lemma_break_parses, lemma_break_written_back, lemma_bytes_are_content, lemma_head_parses,
    lemma_head_written_back, lemma_len_head_parses, lemma_string_parses, lemma_string_written_back,
    lemma_text_is_content, lemma_type_of_major, len_fits,
};
use cbor_event::{LenSz, Sz, Type};
use vstd::prelude::*;
use vstd::utf8::encode_utf8;

verus! {

broadcast use {vstd::seq_lib::lemma_seq_skip_of_skip, vstd::seq_lib::lemma_seq_skip_nothing};

impl LenEncoding {
    /// The descriptor that a length written this way is read with.
    pub open spec fn settled(self, len: u64) -> LenEncoding {
        LenEncoding::of(self.head_for(len))
    }
}

impl StringEncodingView {
    /// The descriptor that a string of `len` bytes written this way is read
    /// with.
    pub open spec fn settled(self, len: u64) -> StringEncodingView {
        StringEncodingView::of(self.form_for(len))
    }
}

/// The width that a number is written with can carry it, and is the recorded
/// width where that can carry it.
pub proof fn lemma_fitting(v: u64, sz: Option<Sz>)
    ensures
        v <= widest(fitting(v, sz)),
        sz matches Some(w) ==> (v <= widest(w) ==> fitting(v, sz) == w),
        sz is None ==> fitting(v, sz) == shortest(v),
{
}

/// The head that a descriptor writes for a length can be written, and a
/// length is written back with the head it was read with.
pub proof fn lemma_len_descriptor(enc: LenEncoding, len: LenSz, n: u64)
    ensures
        len_fits(enc.head_for(n)),
        enc.settled(n).head_for(n) == enc.head_for(n),
        (len matches LenSz::Len(m, sz) ==> (m == n && n <= widest(sz))) ==> LenEncoding::of(
            len,
        ).head_for(n) == len,
{
}

/// A string is written back in the layout it was read in.
pub proof fn lemma_string_descriptor(major: u8, data: Seq<u8>, form: StringForm)
    requires
        string_encodable(major, data, form),
        form is Definite ==> data.len() <= u64::MAX,
    ensures
        StringEncodingView::of(form).form_for(data.len() as u64) == form,
{
}

/// A descriptor lays a string out the way the descriptor that it is read
/// with lays it out.
pub proof fn lemma_string_settles(enc: StringEncodingView, len: u64)
    ensures
        enc.settled(len).form_for(len) == enc.form_for(len),
        enc.form_for(len) matches StringForm::Definite(sz) ==> len <= widest(sz),
{
}

/// The number of UTF-8 bytes of a text.
#[verifier::opaque]
pub open spec fn utf8_len(text: Seq<char>) -> nat {
    encode_utf8(text).len()
}

/// Whether the length of a string can be written the way the descriptor
/// says: a definite length must fit 64 bits.
pub open spec fn len_writable(len: nat, enc: StringEncodingView) -> bool {
    enc is Indefinite || len <= u64::MAX
}

/// A byte string is written the same way with a descriptor and with the
/// descriptor that it is read with.
pub proof fn lemma_bytes_settle(data: Seq<u8>, enc: StringEncodingView)
    ensures
        bytes_wire(data, enc.settled(data.len() as u64)) == bytes_wire(data, enc),
        bytes_encodable(data, enc.settled(data.len() as u64)) == bytes_encodable(data, enc),
        len_writable(data.len(), enc.settled(data.len() as u64)) == len_writable(
            data.len(),
            enc,
        ),
{
    reveal(bytes_wire);
    reveal(bytes_encodable);
    lemma_string_settles(enc, data.len() as u64);
}

/// A text is written the same way with a descriptor and with the descriptor
/// that it is read with.
pub proof fn lemma_text_settles(text: Seq<char>, enc: StringEncodingView)
    ensures
        text_wire(text, enc.settled(utf8_len(text) as u64)) == text_wire(text, enc),
        text_encodable(text, enc.settled(utf8_len(text) as u64)) == text_encodable(
            text,
            enc,
        ),
        len_writable(utf8_len(text), enc.settled(utf8_len(text) as u64))
            == len_writable(utf8_len(text), enc),
{
    reveal(utf8_len);
    reveal(text_wire);
    reveal(text_encodable);
    lemma_string_settles(enc, utf8_len(text) as u64);
}

/// A byte string that is written reads back: the same bytes, with the
/// descriptor that the layout settles to.
pub proof fn lemma_bytes_read_back(data: Seq<u8>, enc: StringEncodingView, rest: Seq<u8>)
    requires
        len_writable(data.len(), enc),
        bytes_encodable(data, enc),
    ensures
        parse_bytes(bytes_wire(data, enc) + rest) == Some(
            (data, enc.settled(data.len() as u64), bytes_wire(data, enc).len()),
        ),
        (bytes_wire(data, enc) + rest).skip(bytes_wire(data, enc).len() as int) == rest,
        bytes_wire(data, enc).len() >= 1,
        type_of((bytes_wire(data, enc) + rest)[0]) == Type::Bytes,
{
    reveal(parse_bytes);
    reveal(bytes_wire);
    reveal(bytes_encodable);
    lemma_bytes_are_content(data);
    lemma_string_parses(MAJOR_BYTES, data, enc.form_for(data.len() as u64), rest);
    lemma_type_of_major((bytes_wire(data, enc) + rest)[0]);
}

/// A byte string that is read is written back as the bytes it was read
/// from.
pub proof fn lemma_bytes_written_back(s: Seq<u8>)
    requires
        parse_bytes(s) is Some,
    ensures
        ({
            let (data, enc, n) = parse_bytes(s)->0;
            &&& 1 <= n <= s.len()
            &&& len_writable(data.len(), enc)
            &&& bytes_encodable(data, enc)
            &&& enc.settled(data.len() as u64) == enc
            &&& bytes_wire(data, enc) == s.subrange(0, n as int)
        }),
{
    reveal(parse_bytes);
    reveal(bytes_wire);
    reveal(bytes_encodable);
    lemma_string_written_back(MAJOR_BYTES, s);
    let item = parse_string(MAJOR_BYTES, s)->0;
    lemma_string_descriptor(MAJOR_BYTES, item.data, item.form);
}

/// A text that is written reads back: the same text, with the descriptor
/// that the layout settles to.
pub proof fn lemma_text_reads_back(text: Seq<char>, enc: StringEncodingView, rest: Seq<u8>)
    requires
        len_writable(utf8_len(text), enc),
        text_encodable(text, enc),
    ensures
        parse_text(text_wire(text, enc) + rest) == Some(
            (text, enc.settled(utf8_len(text) as u64), text_wire(text, enc).len()),
        ),
        (text_wire(text, enc) + rest).skip(text_wire(text, enc).len() as int) == rest,
        text_wire(text, enc).len() >= 1,
        type_of((text_wire(text, enc) + rest)[0]) == Type::Text,
{
    reveal(parse_text);
    reveal(text_wire);
    reveal(text_encodable);
    reveal(utf8_len);
    let data = encode_utf8(text);
    lemma_text_is_content(text);
    lemma_string_parses(MAJOR_TEXT, data, enc.form_for(data.len() as u64), rest);
    vstd::utf8::encode_utf8_decode_utf8(text);
    lemma_type_of_major((text_wire(text, enc) + rest)[0]);
}

/// A text that is read is written back as the bytes it was read from.
pub proof fn lemma_text_written_back(s: Seq<u8>)
    requires
        parse_text(s) is Some,
    ensures
        ({
            let (text, enc, n) = parse_text(s)->0;
            &&& 1 <= n <= s.len()
            &&& len_writable(utf8_len(text), enc)
            &&& text_encodable(text, enc)
            &&& enc.settled(utf8_len(text) as u64) == enc
            &&& text_wire(text, enc) == s.subrange(0, n as int)
        }),
{
    reveal(parse_text);
    reveal(text_wire);
    reveal(text_encodable);
    reveal(utf8_len);
    lemma_string_written_back(MAJOR_TEXT, s);
    let item = parse_string(MAJOR_TEXT, s)->0;
    assert(vstd::utf8::valid_utf8(item.data)) by {
        reveal(content_ok);
    }
    vstd::utf8::decode_utf8_encode_utf8(item.data);
    lemma_string_descriptor(MAJOR_TEXT, item.data, item.form);
}

impl Int {
    /// The integer as it is read after it was written: with the width that
    /// it was written with.
    pub open spec fn settled(self) -> Int {
        match self {
            Int::Uint { value, encoding } => Int::Uint {
                value,
                encoding: Some(fitting(value, encoding)),
            },
            Int::Nint { value, encoding } => Int::Nint {
                value,
                encoding: Some(fitting(value, encoding)),
            },
        }
    }

    /// Whether the integer is written in the shortest form.
    pub open spec fn shortest_form(self) -> bool {
        match self {
            Int::Uint { value, encoding } => fitting(value, encoding) == shortest(value),
            Int::Nint { value, encoding } => fitting(value, encoding) == shortest(value),
        }
    }

    /// Round trip: an integer that is written reads back as the same number,
    /// with the width that it was written with, whatever follows it.
    pub proof fn lemma_reads_back(self, rest: Seq<u8>)
        ensures
            Int::parse(self.wire() + rest) == Ok::<(Int, nat), ErrorView>(
                (self.settled(), self.wire().len()),
            ),
            self.settled().bare() == self.bare(),
            self.settled().number() == self.number(),
            self.settled().wire() == self.wire(),
            (self.wire() + rest).skip(self.wire().len() as int) == rest,
            self.wire().len() >= 1,
            type_of((self.wire() + rest)[0]) == Type::UnsignedInteger || type_of(
                (self.wire() + rest)[0],
            ) == Type::NegativeInteger,
    {
        reveal(Int::parse);
        reveal(Int::wire);
        let s = self.wire() + rest;
        match self {
            Int::Uint { value, encoding } => {
                lemma_head_parses(MAJOR_UINT, value, fitting(value, encoding), rest);
            },
            Int::Nint { value, encoding } => {
                lemma_head_parses(MAJOR_NINT, value, fitting(value, encoding), rest);
            },
        }
        lemma_type_of_major(s[0]);
    }

    /// Byte preservation: an integer that is read is written back as the
    /// bytes it was read from.
    pub proof fn lemma_written_back(s: Seq<u8>)
        requires
            Int::parse(s) is Ok,
        ensures
            ({
                let (i, n) = Int::parse(s)->Ok_0;
                &&& 1 <= n <= s.len()
                &&& i.settled() == i
                &&& i.wire() == s.subrange(0, n as int)
            }),
    {
        reveal(Int::parse);
        reveal(Int::wire);
        lemma_type_of_major(s[0]);
        if type_of(s[0]) == Type::UnsignedInteger {
            lemma_head_written_back(MAJOR_UINT, s);
        } else {
            lemma_head_written_back(MAJOR_NINT, s);
        }
    }

    /// Canonical form: an integer without a recorded width is written with
    /// the shortest head that can carry it, and no head that can carry it is
    /// shorter.
    pub proof fn lemma_fresh_is_shortest(self, sz: Sz)
        requires
            self.bare() == self,
        ensures
            self.shortest_form(),
            self.settled().shortest_form(),
            match self {
                Int::Uint { value, .. } => value <= widest(sz) ==> self.wire().len() <= head(
                    MAJOR_UINT,
                    value,
                    sz,
                ).len(),
                Int::Nint { value, .. } => value <= widest(sz) ==> self.wire().len() <= head(
                    MAJOR_NINT,
                    value,
                    sz,
                ).len(),
            },
    {
        reveal(Int::wire);
        match self {
            Int::Uint { value, .. } => {
                crate::wire_lemmas::lemma_head_len(MAJOR_UINT, value, sz);
                crate::wire_lemmas::lemma_head_len(MAJOR_UINT, value, shortest(value));
            },
            Int::Nint { value, .. } => {
                crate::wire_lemmas::lemma_head_len(MAJOR_NINT, value, sz);
                crate::wire_lemmas::lemma_head_len(MAJOR_NINT, value, shortest(value));
            },
        }
    }
}

/// What ends an array of fixed size reads as its ending.
pub proof fn lemma_closing_reads_back(enc: LenEncoding, n: u64, rest: Seq<u8>)
    ensures
        parse_closing(enc.ending() + rest, enc.head_for(n)) == Ok::<((), nat), ErrorView>(
            ((), enc.ending().len()),
        ),
        (enc.ending() + rest).skip(enc.ending().len() as int) == rest,
{
    reveal(parse_closing);
    let s = enc.ending() + rest;
    assert(s.skip(enc.ending().len() as int) =~= rest);
    if enc == LenEncoding::Indefinite {
        lemma_break_parses(rest);
    }
}

/// What is read as the ending of an array of fixed size is its ending.
pub proof fn lemma_closing_written_back(s: Seq<u8>, len: LenSz)
    requires
        parse_closing(s, len) is Ok,
    ensures
        ({
            let (_, n) = parse_closing(s, len)->Ok_0;
            &&& n <= s.len()
            &&& s.subrange(0, n as int) == LenEncoding::of(len).ending()
        }),
{
    reveal(parse_closing);
    match len {
        LenSz::Len(_, _) => {
            assert(s.subrange(0, 0) =~= LenEncoding::of(len).ending());
        },
        LenSz::Indefinite => {
            lemma_break_written_back(s);
        },
    }
}

impl Anyy {
    /// The value as it is read after it was written: with the wire form
    /// that it was written in.
    pub open spec fn settled(self) -> Anyy {
        Anyy {
            encodings: Some(
                AnyyEncoding {
                    len_encoding: self.len_encoding().settled(1),
                    index_0_encoding: Some(self.index_0_width()),
                },
            ),
        }
    }

    /// Round trip: a value that is written reads back, with the wire form
    /// that it was written in, whatever follows it.
    pub proof fn lemma_reads_back(self, rest: Seq<u8>)
        ensures
            Anyy::parse(self.wire() + rest) == Ok::<(Anyy, nat), ErrorView>(
                (self.settled(), self.wire().len()),
            ),
            self.settled().wire() == self.wire(),
            (self.wire() + rest).skip(self.wire().len() as int) == rest,
            self.wire().len() >= 1,
            type_of((self.wire() + rest)[0]) == Type::Array,
    {
        reveal(Anyy::parse);
        reveal(Anyy::wire);
        let enc = self.len_encoding();
        let len = enc.head_for(1);
        let w = self.index_0_width();
        let s = self.wire() + rest;
        let zero = head(MAJOR_UINT, 0, w);
        let after_zero = enc.ending() + rest;
        let after_head = zero + after_zero;
        assert(s =~= len_head(MAJOR_ARRAY, len) + after_head);
        lemma_len_head_parses(MAJOR_ARRAY, len, after_head);
        lemma_type_of_major(s[0]);
        lemma_head_parses(MAJOR_UINT, 0, w, after_zero);
        lemma_closing_reads_back(enc, 1, rest);
        assert(s.skip(self.wire().len() as int) =~= rest);
        assert(self.settled().wire() =~= self.wire());
    }

    /// Byte preservation: a value that is read is written back as the bytes
    /// it was read from.
    pub proof fn lemma_written_back(s: Seq<u8>)
        requires
            Anyy::parse(s) is Ok,
        ensures
            ({
                let (v, n) = Anyy::parse(s)->Ok_0;
                &&& 1 <= n <= s.len()
                &&& v.settled() == v
                &&& v.wire() == s.subrange(0, n as int)
            }),
    {
        reveal(Anyy::parse);
        reveal(Anyy::wire);
        let (v, n) = Anyy::parse(s)->Ok_0;
        let len = parse_len(MAJOR_ARRAY, s)->0;
        let start = 1 + len_width(len);
        lemma_head_written_back(MAJOR_ARRAY, s);
        let body = s.skip(start as int);
        lemma_head_written_back(MAJOR_UINT, body);
        let (_, w) = parse_arg(MAJOR_UINT, body)->0;
        let a = 1 + width(w);
        lemma_closing_written_back(body.skip(a as int), len);
        let (_, c) = parse_closing(body.skip(a as int), len)->Ok_0;
        assert(n == start + a + c);
        assert(s.subrange(0, n as int) =~= s.subrange(0, start as int) + body.subrange(0, a as int)
            + body.skip(a as int).subrange(0, c as int));
        assert(v.wire() =~= s.subrange(0, n as int));
    }
}

impl IntOrTextView {
    /// The value as it is read after it was written.
    pub open spec fn settled(self) -> IntOrTextView {
        match self {
            IntOrTextView::Int(i) => IntOrTextView::Int(i.settled()),
            IntOrTextView::Text { text, text_encoding } => IntOrTextView::Text {
                text,
                text_encoding: text_encoding.settled(utf8_len(text) as u64),
            },
        }
    }

    /// Whether the value is one that reads back after it was written: a text
    /// that can be written. An integer is written as an integer, which does
    /// not read as an index or a key.
    pub open spec fn reads_back(self) -> bool {
        match self {
            IntOrTextView::Int(_) => false,
            IntOrTextView::Text { text, text_encoding } => {
                &&& len_writable(utf8_len(text), text_encoding)
                &&& text_encodable(text, text_encoding)
            },
        }
    }

    /// Round trip: a text that is written as an index or a key reads back
    /// as the same text, whatever follows it.
    pub proof fn lemma_reads_back(self, name: Seq<char>, rest: Seq<u8>)
        requires
            self.reads_back(),
        ensures
            IntOrTextView::parse(name, self.wire() + rest) == Ok::<
                (IntOrTextView, nat),
                ErrorView,
            >((self.settled(), self.wire().len())),
            self.settled().identity() == self.identity(),
            self.settled().reads_back(),
            self.settled().wire() == self.wire(),
            (self.wire() + rest).skip(self.wire().len() as int) == rest,
            self.wire().len() >= 1,
            type_of((self.wire() + rest)[0]) == Type::Text,
    {
        reveal(IntOrTextView::parse);
        reveal(IntOrTextView::wire);
        reveal(IntOrTextView::encodable);
        reveal(utf8_len);
        match self {
            IntOrTextView::Int(_) => {},
            IntOrTextView::Text { text, text_encoding } => {
                lemma_text_reads_back(text, text_encoding, rest);
                lemma_text_settles(text, text_encoding);
                lemma_string_settles(text_encoding, utf8_len(text) as u64);
            },
        }
    }

    /// An integer that is written as an index or a key does not read back.
    pub proof fn lemma_int_does_not_read_back(i: Int, name: Seq<char>, rest: Seq<u8>)
        ensures
            IntOrTextView::parse(name, IntOrTextView::Int(i).wire() + rest) is Err,
    {
        reveal(IntOrTextView::parse);
        reveal(IntOrTextView::wire);
        reveal(Int::parse);
        i.lemma_reads_back(rest);
    }

    /// Byte preservation: an index or a key that is read is written back as
    /// the bytes it was read from.
    pub proof fn lemma_written_back(name: Seq<char>, s: Seq<u8>)
        requires
            IntOrTextView::parse(name, s) is Ok,
        ensures
            ({
                let (v, n) = IntOrTextView::parse(name, s)->Ok_0;
                &&& 1 <= n <= s.len()
                &&& v.reads_back()
                &&& v.encodable()
                &&& v.settled() == v
                &&& v.wire() == s.subrange(0, n as int)
            }),
    {
        reveal(IntOrTextView::parse);
        reveal(IntOrTextView::wire);
        reveal(IntOrTextView::encodable);
        reveal(utf8_len);
        reveal(Int::parse);
        lemma_type_of_major(s[0]);
        if type_of(s[0]) == Type::Text {
            lemma_text_written_back(s);
        }
    }
}

} // verus!
