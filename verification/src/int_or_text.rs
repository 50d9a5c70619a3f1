//! Values that are an integer or a text: the index of a salted claim, and the
//! key of an extension entry.
//!
//! On the wire the two are told apart by the major type of the next item. A
//! text is read as a text. An array or a map is handed to the integer
//! decoder, which refuses it; any other major type matches no variant. So a
//! text is the only form that decodes.

use crate::error::{
    annotated_result, cbor_error, located, DeserializeError, DeserializeFailure, ErrorView,
    FailureView,
};
use crate::integer::Int;
use crate::reader::{decoded, Reader};
use crate::serialization::{
    parse_text, read_text_enc, text_encodable, text_wire, write_text_as, StringEncoding,
    StringEncodingView,
};
use crate::wire::type_of;
use cbor_event::Type;
use vstd::prelude::*;

verus! {

broadcast use {vstd::seq_lib::lemma_seq_skip_of_skip, vstd::seq_lib::lemma_seq_skip_nothing};

/// An integer or a text.
#[derive(Debug)]
pub enum IntOrText {
    Int(Int),
    Text { text: String, text_encoding: StringEncoding },
}

/// The key of an extension entry: an integer or a text.
#[derive(Debug)]
pub enum Keyy {
    Int(Int),
    Text { text: String, text_encoding: StringEncoding },
}

/// What an `IntOrText` or a `Keyy` stands for.
pub enum IntOrTextView {
    Int(Int),
    Text { text: Seq<char>, text_encoding: StringEncodingView },
}

/// What a key is, whatever the width it was written with: a number or a
/// text.
pub enum KeyIdentity {
    Number(int),
    Text(Seq<char>),
}

impl IntOrTextView {
    /// The value without its wire form.
    pub open spec fn identity(self) -> KeyIdentity {
        match self {
            IntOrTextView::Int(i) => KeyIdentity::Number(i.number()),
            IntOrTextView::Text { text, .. } => KeyIdentity::Text(text),
        }
    }

    /// Whether the value can be written as it stands.
    #[verifier::opaque]
    pub open spec fn encodable(self) -> bool {
        match self {
            IntOrTextView::Int(_) => true,
            IntOrTextView::Text { text, text_encoding } => text_encodable(text, text_encoding),
        }
    }

    /// The bytes that the value is written as.
    #[verifier::opaque]
    pub open spec fn wire(self) -> Seq<u8> {
        match self {
            IntOrTextView::Int(i) => i.wire(),
            IntOrTextView::Text { text, text_encoding } => text_wire(text, text_encoding),
        }
    }

    /// The value at the start of `s`, before the error is given its place.
    /// `name` is the name of the type that is read.
    pub open spec fn parse_inner(name: Seq<char>, s: Seq<u8>) -> Result<
        (IntOrTextView, nat),
        ErrorView,
    > {
        if s.len() == 0 {
            Err(cbor_error())
        } else if type_of(s[0]) == Type::Array || type_of(s[0]) == Type::Map {
            match Int::parse(s) {
                Ok((i, n)) => Ok((IntOrTextView::Int(i), n)),
                Err(e) => Err(e),
            }
        } else if type_of(s[0]) == Type::Text {
            match parse_text(s) {
                Some((text, text_encoding, n)) => Ok(
                    (IntOrTextView::Text { text, text_encoding }, n),
                ),
                None => Err(cbor_error()),
            }
        } else {
            Err(located(name, FailureView::NoVariantMatched))
        }
    }

    /// The value at the start of `s` and the bytes that it takes, or why
    /// there is none.
    #[verifier::opaque]
    pub open spec fn parse(name: Seq<char>, s: Seq<u8>) -> Result<(IntOrTextView, nat), ErrorView> {
        annotated_result(Self::parse_inner(name, s), name)
    }
}

impl View for IntOrText {
    type V = IntOrTextView;

    open spec fn view(&self) -> IntOrTextView {
        match self {
            IntOrText::Int(i) => IntOrTextView::Int(*i),
            IntOrText::Text { text, text_encoding } => IntOrTextView::Text {
                text: text@,
                text_encoding: text_encoding@,
            },
        }
    }
}

impl View for Keyy {
    type V = IntOrTextView;

    open spec fn view(&self) -> IntOrTextView {
        match self {
            Keyy::Int(i) => IntOrTextView::Int(*i),
            Keyy::Text { text, text_encoding } => IntOrTextView::Text {
                text: text@,
                text_encoding: text_encoding@,
            },
        }
    }
}

impl Clone for IntOrText {
    fn clone(&self) -> (r: Self)
        ensures
            r@ == self@,
    {
        match self {
            IntOrText::Int(i) => IntOrText::Int(*i),
            IntOrText::Text { text, text_encoding } => IntOrText::Text {
                text: text.clone(),
                text_encoding: text_encoding.clone(),
            },
        }
    }
}

impl Clone for Keyy {
    fn clone(&self) -> (r: Self)
        ensures
            r@ == self@,
    {
        match self {
            Keyy::Int(i) => Keyy::Int(*i),
            Keyy::Text { text, text_encoding } => Keyy::Text {
                text: text.clone(),
                text_encoding: text_encoding.clone(),
            },
        }
    }
}

impl IntOrText {
    /// The name of the type in the place of an error.
    pub open spec fn name() -> Seq<char> {
        "IntOrText"@
    }

    /// An integer.
    pub fn new_int(number: Int) -> (r: Self)
        ensures
            r@ == IntOrTextView::Int(number),
    {
        IntOrText::Int(number)
    }

    /// A text, to be written in the shortest form.
    pub fn new_text(text: String) -> (r: Self)
        ensures
            r@ == (IntOrTextView::Text {
                text: text@,
                text_encoding: StringEncodingView::Canonical,
            }),
    {
        IntOrText::Text { text, text_encoding: StringEncoding::Canonical }
    }

    /// Writes the value. Fails where a text cannot be written the way its
    /// descriptor says.
    pub fn serialize(&self, out: &mut Vec<u8>) -> (r: Result<(), cbor_event::Error>)
        ensures
            r is Ok <==> self@.encodable(),
            r is Ok ==> final(out)@ == old(out)@ + self@.wire(),
    {
        reveal(IntOrTextView::encodable);
        reveal(IntOrTextView::wire);
        match self {
            IntOrText::Int(number) => number.serialize(out),
            IntOrText::Text { text, text_encoding } => write_text_as(
                out,
                text.as_str(),
                text_encoding,
            ),
        }
    }

    fn deserialize_inner(raw: &mut Reader, name: &str) -> (r: Result<IntOrText, DeserializeError>)
        ensures
            decoded(
                *old(raw),
                *final(raw),
                r,
                IntOrTextView::parse_inner(name@, old(raw).rest()),
            ),
    {
        let kind = match raw.cbor_type() {
            Ok(kind) => kind,
            Err(e) => {
                return Err(DeserializeError::from_cbor(e));
            },
        };
        match kind {
            Type::Array | Type::Map => match Int::deserialize(raw) {
                Ok(number) => Ok(IntOrText::Int(number)),
                Err(e) => Err(e),
            },
            Type::Text => match read_text_enc(raw) {
                Ok((text, text_encoding)) => Ok(IntOrText::Text { text, text_encoding }),
                Err(e) => Err(DeserializeError::from_cbor(e)),
            },
            _ => Err(DeserializeError::new(name, DeserializeFailure::NoVariantMatched)),
        }
    }

    fn deserialize_as(raw: &mut Reader, name: &str) -> (r: Result<IntOrText, DeserializeError>)
        ensures
            decoded(*old(raw), *final(raw), r, IntOrTextView::parse(name@, old(raw).rest())),
    {
        reveal(IntOrTextView::parse);
        match Self::deserialize_inner(raw, name) {
            Ok(v) => Ok(v),
            Err(e) => Err(e.annotate(name)),
        }
    }

    /// Reads a value.
    pub fn deserialize(raw: &mut Reader) -> (r: Result<IntOrText, DeserializeError>)
        ensures
            decoded(
                *old(raw),
                *final(raw),
                r,
                IntOrTextView::parse(Self::name(), old(raw).rest()),
            ),
    {
        Self::deserialize_as(raw, "IntOrText")
    }
}

impl Keyy {
    /// The name of the type in the place of an error.
    pub open spec fn name() -> Seq<char> {
        "Keyy"@
    }

    /// An integer key.
    pub fn new_int(number: Int) -> (r: Self)
        ensures
            r@ == IntOrTextView::Int(number),
    {
        Keyy::Int(number)
    }

    /// A text key, to be written in the shortest form.
    pub fn new_text(text: String) -> (r: Self)
        ensures
            r@ == (IntOrTextView::Text {
                text: text@,
                text_encoding: StringEncodingView::Canonical,
            }),
    {
        Keyy::Text { text, text_encoding: StringEncoding::Canonical }
    }

    /// Whether the two keys are the same key, whatever the widths they were
    /// written with.
    pub fn same_key(&self, other: &Keyy) -> (r: bool)
        ensures
            r == (self@.identity() == other@.identity()),
    {
        match (self, other) {
            (Keyy::Int(a), Keyy::Int(b)) => match (a, b) {
                (Int::Uint { value: x, .. }, Int::Uint { value: y, .. }) => *x == *y,
                (Int::Nint { value: x, .. }, Int::Nint { value: y, .. }) => *x == *y,
                _ => false,
            },
            (Keyy::Text { text: a, .. }, Keyy::Text { text: b, .. }) => *a == *b,
            _ => false,
        }
    }

    /// Writes the key. Fails where a text cannot be written the way its
    /// descriptor says.
    pub fn serialize(&self, out: &mut Vec<u8>) -> (r: Result<(), cbor_event::Error>)
        ensures
            r is Ok <==> self@.encodable(),
            r is Ok ==> final(out)@ == old(out)@ + self@.wire(),
    {
        reveal(IntOrTextView::encodable);
        reveal(IntOrTextView::wire);
        match self {
            Keyy::Int(number) => number.serialize(out),
            Keyy::Text { text, text_encoding } => write_text_as(out, text.as_str(), text_encoding),
        }
    }

    /// Reads a key.
    pub fn deserialize(raw: &mut Reader) -> (r: Result<Keyy, DeserializeError>)
        ensures
            decoded(
                *old(raw),
                *final(raw),
                r,
                IntOrTextView::parse(Self::name(), old(raw).rest()),
            ),
    {
        match IntOrText::deserialize_as(raw, "Keyy") {
            Ok(IntOrText::Int(number)) => Ok(Keyy::Int(number)),
            Ok(IntOrText::Text { text, text_encoding }) => Ok(Keyy::Text { text, text_encoding }),
            Err(e) => Err(e),
        }
    }
}

} // verus!
