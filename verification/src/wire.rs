//! The CBOR wire format of single items, as mathematics.
//!
//! Every item starts with a head: an initial byte that packs a major type
//! (the upper three bits) with five bits of additional information, followed
//! by zero, one, two, four or eight bytes that hold the argument in big-endian
//! order. The functions here say which bytes a head or a string consists of
//! and what a reader finds at the start of a byte sequence. The contracts of
//! the primitive readers and writers are stated over them, and so is
//! everything that the codecs prove.

use cbor_event::{LenSz, StringLenSz, Sz, Type};
use vstd::prelude::*;
use vstd::utf8::valid_utf8;

verus! {

/// Major type of unsigned integers.
pub const MAJOR_UINT: u8 = 0;

/// Major type of negative integers.
pub const MAJOR_NINT: u8 = 1;

/// Major type of byte strings.
pub const MAJOR_BYTES: u8 = 2;

/// Major type of text strings.
pub const MAJOR_TEXT: u8 = 3;

/// Major type of arrays.
pub const MAJOR_ARRAY: u8 = 4;

/// Major type of maps.
pub const MAJOR_MAP: u8 = 5;

/// Major type of tags.
pub const MAJOR_TAG: u8 = 6;

/// Major type of simple values, floats and the break marker.
pub const MAJOR_SPECIAL: u8 = 7;

/// The byte that ends an indefinite-length item.
pub const BREAK: u8 = 0xff;

/// The major type that an initial byte carries.
pub open spec fn major_of(b: u8) -> u8 {
    b / 32
}

/// The additional information that an initial byte carries.
pub open spec fn info_of(b: u8) -> u8 {
    b % 32
}

/// The initial byte made of a major type and additional information.
pub open spec fn initial_byte(major: u8, info: u8) -> u8
    recommends
        major < 8,
        info < 32,
{
    (major * 32 + info) as u8
}

/// The major type as the outside crate names it.
pub open spec fn type_of(b: u8) -> Type {
    let m = major_of(b);
    if m == 0 {
        Type::UnsignedInteger
    } else if m == 1 {
        Type::NegativeInteger
    } else if m == 2 {
        Type::Bytes
    } else if m == 3 {
        Type::Text
    } else if m == 4 {
        Type::Array
    } else if m == 5 {
        Type::Map
    } else if m == 6 {
        Type::Tag
    } else {
        Type::Special
    }
}

/// How many argument bytes follow the initial byte.
pub open spec fn width(sz: Sz) -> nat {
    match sz {
        Sz::Inline => 0,
        Sz::One => 1,
        Sz::Two => 2,
        Sz::Four => 4,
        Sz::Eight => 8,
    }
}

/// The largest argument that a head of the given width can carry.
pub open spec fn widest(sz: Sz) -> u64 {
    match sz {
        Sz::Inline => 23,
        Sz::One => 0xff,
        Sz::Two => 0xffff,
        Sz::Four => 0xffff_ffff,
        Sz::Eight => 0xffff_ffff_ffff_ffff,
    }
}

/// The shortest width that can carry `arg`.
pub open spec fn shortest(arg: u64) -> Sz {
    if arg <= 23 {
        Sz::Inline
    } else if arg < 0x100 {
        Sz::One
    } else if arg < 0x1_0000 {
        Sz::Two
    } else if arg < 0x1_0000_0000 {
        Sz::Four
    } else {
        Sz::Eight
    }
}

/// The number that a big-endian byte sequence stands for.
pub open spec fn be_value(s: Seq<u8>) -> nat
    decreases s.len(),
{
    if s.len() == 0 {
        0
    } else {
        be_value(s.drop_last()) * 256 + s.last() as nat
    }
}

/// The `n` low bytes of `v` in big-endian order.
pub open spec fn be_bytes(v: nat, n: nat) -> Seq<u8>
    decreases n,
{
    if n == 0 {
        Seq::empty()
    } else {
        be_bytes(v / 256, (n - 1) as nat).push((v % 256) as u8)
    }
}

/// The additional information of a head of width `sz` with argument `arg`.
pub open spec fn info_for(arg: u64, sz: Sz) -> u8 {
    match sz {
        Sz::Inline => arg as u8,
        Sz::One => 24,
        Sz::Two => 25,
        Sz::Four => 26,
        Sz::Eight => 27,
    }
}

/// The bytes of a head with a definite argument.
pub open spec fn head(major: u8, arg: u64, sz: Sz) -> Seq<u8>
    recommends
        major < 8,
        arg <= widest(sz),
{
    seq![initial_byte(major, info_for(arg, sz))] + be_bytes(arg as nat, width(sz))
}

/// The head of a container or string: definite with its length, or the one
/// byte that opens an indefinite-length item.
pub open spec fn len_head(major: u8, len: LenSz) -> Seq<u8> {
    match len {
        LenSz::Len(n, sz) => head(major, n, sz),
        LenSz::Indefinite => seq![initial_byte(major, 31)],
    }
}

/// How many argument bytes follow the initial byte of such a head.
pub open spec fn len_width(len: LenSz) -> nat {
    match len {
        LenSz::Len(_, sz) => width(sz),
        LenSz::Indefinite => 0,
    }
}

/// The argument of the head at the start of `s`, whatever its major type.
/// `None` where `s` is empty, the additional information is reserved (28 to
/// 30), or the argument bytes are cut short.
pub open spec fn head_arg(s: Seq<u8>) -> Option<LenSz> {
    if s.len() == 0 {
        None
    } else {
        let info = info_of(s[0]);
        if info < 24 {
            Some(LenSz::Len(info as u64, Sz::Inline))
        } else if info == 31 {
            Some(LenSz::Indefinite)
        } else if info > 27 {
            None
        } else {
            let sz = if info == 24 {
                Sz::One
            } else if info == 25 {
                Sz::Two
            } else if info == 26 {
                Sz::Four
            } else {
                Sz::Eight
            };
            if s.len() >= 1 + width(sz) {
                Some(LenSz::Len(be_value(s.subrange(1, 1 + width(sz) as int)) as u64, sz))
            } else {
                None
            }
        }
    }
}

/// The head of a container of major type `major` at the start of `s`.
pub open spec fn parse_len(major: u8, s: Seq<u8>) -> Option<LenSz> {
    if s.len() > 0 && major_of(s[0]) == major {
        head_arg(s)
    } else {
        None
    }
}

/// The head of major type `major` with a definite argument at the start of
/// `s`: the argument and its width.
pub open spec fn parse_arg(major: u8, s: Seq<u8>) -> Option<(u64, Sz)> {
    match parse_len(major, s) {
        Some(LenSz::Len(v, sz)) => Some((v, sz)),
        _ => None,
    }
}

/// What a reader finds where it expects a simple value or the break marker:
/// `Some(true)` for the break, `Some(false)` for any other complete item of
/// that major type, `None` for anything else.
pub open spec fn parse_special(s: Seq<u8>) -> Option<bool> {
    if s.len() == 0 || major_of(s[0]) != MAJOR_SPECIAL {
        None
    } else {
        let info = info_of(s[0]);
        if info == 31 {
            Some(true)
        } else if info == 24 {
            if s.len() >= 2 {
                Some(false)
            } else {
                None
            }
        } else if info == 25 {
            if s.len() >= 3 {
                Some(false)
            } else {
                None
            }
        } else if info == 26 {
            if s.len() >= 5 {
                Some(false)
            } else {
                None
            }
        } else if info == 27 {
            if s.len() >= 9 {
                Some(false)
            } else {
                None
            }
        } else {
            Some(false)
        }
    }
}

/// How a string was laid out on the wire: one definite-length item with a
/// head of some width, or an indefinite-length item made of chunks, each
/// with its length and the width of its head.
pub enum StringForm {
    Definite(Sz),
    Chunked(Seq<(u64, Sz)>),
}

/// The layout that the outside crate's value describes.
pub open spec fn form_of(sz: StringLenSz) -> StringForm {
    match sz {
        StringLenSz::Len(w) => StringForm::Definite(w),
        StringLenSz::Indefinite(lens) => StringForm::Chunked(lens@),
    }
}

/// The sum of the chunk lengths.
pub open spec fn chunks_total(lens: Seq<(u64, Sz)>) -> nat
    decreases lens.len(),
{
    if lens.len() == 0 {
        0
    } else {
        lens[0].0 as nat + chunks_total(lens.skip(1))
    }
}

/// Whether a string's content may stand in an item of major type `major`:
/// any bytes in a byte string, well-formed UTF-8 in a text string.
#[verifier::opaque]
pub open spec fn content_ok(major: u8, data: Seq<u8>) -> bool {
    major == MAJOR_TEXT ==> valid_utf8(data)
}

/// Whether `data` can be cut into chunks of the given lengths, each with a
/// head of the given width and content that may stand alone.
pub open spec fn chunks_encodable(major: u8, data: Seq<u8>, lens: Seq<(u64, Sz)>) -> bool
    decreases lens.len(),
{
    if lens.len() == 0 {
        data.len() == 0
    } else {
        let (n, sz) = lens[0];
        &&& n <= data.len()
        &&& n <= widest(sz)
        &&& content_ok(major, data.subrange(0, n as int))
        &&& chunks_encodable(major, data.skip(n as int), lens.skip(1))
    }
}

/// Whether `data` can be written in the given layout.
pub open spec fn string_encodable(major: u8, data: Seq<u8>, form: StringForm) -> bool {
    match form {
        StringForm::Definite(sz) => data.len() <= widest(sz),
        StringForm::Chunked(lens) => chunks_encodable(major, data, lens),
    }
}

/// The chunks of an indefinite-length string, one after the other.
pub open spec fn chunks_wire(major: u8, data: Seq<u8>, lens: Seq<(u64, Sz)>) -> Seq<u8>
    decreases lens.len(),
{
    if lens.len() == 0 {
        Seq::empty()
    } else {
        let (n, sz) = lens[0];
        head(major, n, sz) + data.subrange(0, n as int) + chunks_wire(
            major,
            data.skip(n as int),
            lens.skip(1),
        )
    }
}

/// The bytes of a string item of major type `major` with content `data` in
/// the given layout.
pub open spec fn string_wire(major: u8, data: Seq<u8>, form: StringForm) -> Seq<u8> {
    match form {
        StringForm::Definite(sz) => head(major, data.len() as u64, sz) + data,
        StringForm::Chunked(lens) => seq![initial_byte(major, 31)] + chunks_wire(
            major,
            data,
            lens,
        ) + seq![BREAK],
    }
}

/// What a reader has found in a string item: the content, the layout, and
/// how many bytes the item takes.
pub struct StringItem {
    pub data: Seq<u8>,
    pub form: StringForm,
    pub consumed: nat,
}

/// The chunks at the start of `s` up to and including the break marker:
/// their joined content, their lengths and widths, and the bytes taken.
pub open spec fn parse_chunks(major: u8, s: Seq<u8>) -> Option<(Seq<u8>, Seq<(u64, Sz)>, nat)>
    decreases s.len(),
{
    if s.len() == 0 {
        None
    } else if s[0] == BREAK {
        Some((Seq::empty(), Seq::empty(), 1))
    } else {
        match parse_arg(major, s) {
            Some((n, sz)) => {
                let start = 1 + width(sz);
                if start + n <= s.len() && content_ok(
                    major,
                    s.subrange(start as int, start + n),
                ) {
                    match parse_chunks(major, s.skip(start + n)) {
                        Some((data, lens, used)) => Some(
                            (
                                s.subrange(start as int, start + n) + data,
                                seq![(n, sz)] + lens,
                                (start + n + used) as nat,
                            ),
                        ),
                        None => None,
                    }
                } else {
                    None
                }
            },
            None => None,
        }
    }
}

/// The string item of major type `major` at the start of `s`.
pub open spec fn parse_string(major: u8, s: Seq<u8>) -> Option<StringItem> {
    match parse_len(major, s) {
        Some(LenSz::Len(n, sz)) => {
            let start = 1 + width(sz);
            if start + n <= s.len() && content_ok(major, s.subrange(start as int, start + n)) {
                Some(
                    StringItem {
                        data: s.subrange(start as int, start + n),
                        form: StringForm::Definite(sz),
                        consumed: (start + n) as nat,
                    },
                )
            } else {
                None
            }
        },
        Some(LenSz::Indefinite) => match parse_chunks(major, s.skip(1)) {
            Some((data, lens, used)) => Some(
                StringItem { data, form: StringForm::Chunked(lens), consumed: 1 + used },
            ),
            None => None,
        },
        None => None,
    }
}

/// Whether every chunk that a reader meets at the start of `s` lies within
/// `s` as far as its head declares. A reader that allocates what a head
/// declares before it reads is safe on such input.
pub open spec fn chunk_lengths_fit(major: u8, s: Seq<u8>) -> bool
    decreases s.len(),
{
    if s.len() == 0 || s[0] == BREAK {
        true
    } else {
        match parse_arg(major, s) {
            Some((n, sz)) => {
                &&& 1 + width(sz) + n <= s.len()
                &&& chunk_lengths_fit(major, s.skip(1 + width(sz) + n))
            },
            None => true,
        }
    }
}

/// Whether the string item at the start of `s`, if there is one, declares
/// no more content than `s` holds.
pub open spec fn lengths_fit(major: u8, s: Seq<u8>) -> bool {
    match parse_len(major, s) {
        Some(LenSz::Len(n, sz)) => 1 + width(sz) + n <= s.len(),
        Some(LenSz::Indefinite) => chunk_lengths_fit(major, s.skip(1)),
        None => true,
    }
}

} // verus!
