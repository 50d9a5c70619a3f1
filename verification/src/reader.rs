//! A cursor over a buffer of CBOR bytes. Each read looks at the bytes that
//! are left, hands them to the primitive reader, and moves on by what the
//! item takes. A read that fails leaves the cursor where it was. The position
//! can be saved and restored, which is what trying one variant after another
//! needs.

use crate::raw::{
    not_enough, peek_len, peek_type, read_array, read_bytes, read_map, read_negative_integer,
    read_special, read_tag, read_text, read_unsigned_integer,
};
use crate::wire::{
    chunk_lengths_fit, form_of, len_width, lengths_fit, parse_arg, parse_chunks, parse_len,
    parse_special, parse_string, type_of, width, BREAK, MAJOR_ARRAY, MAJOR_BYTES, MAJOR_MAP,
    MAJOR_NINT, MAJOR_TAG, MAJOR_TEXT, MAJOR_UINT,
};
use cbor_event::{LenSz, StringLenSz, Sz, Type};
use vstd::prelude::*;
use vstd::slice::slice_subrange;
use vstd::utf8::decode_utf8;

verus! {

/// How many argument bytes follow the initial byte of a head of this width.
pub fn width_of(sz: Sz) -> (w: usize)
    ensures
        w == width(sz),
{
    match sz {
        Sz::Inline => 0,
        Sz::One => 1,
        Sz::Two => 2,
        Sz::Four => 4,
        Sz::Eight => 8,
    }
}

/// A string item whose chunks do not all lie within the input is no string
/// item.
pub proof fn lemma_chunks_that_do_not_fit(major: u8, s: Seq<u8>)
    requires
        !chunk_lengths_fit(major, s),
    ensures
        parse_chunks(major, s) is None,
    decreases s.len(),
{
    if s.len() != 0 && s[0] != BREAK {
        match parse_arg(major, s) {
            Some((n, sz)) => {
                if 1 + width(sz) + n <= s.len() {
                    lemma_chunks_that_do_not_fit(major, s.skip(1 + width(sz) + n));
                }
            },
            None => {},
        }
    }
}

/// A cursor over a buffer of bytes.
pub struct Reader {
    data: Vec<u8>,
    pos: usize,
}

impl Reader {
    #[verifier::type_invariant]
    spec fn within(self) -> bool {
        self.pos <= self.data.len()
    }

    /// The whole buffer.
    pub closed spec fn bytes(&self) -> Seq<u8> {
        self.data@
    }

    /// How many bytes have been read.
    pub closed spec fn offset(&self) -> nat {
        self.pos as nat
    }

    /// The bytes that are left.
    pub open spec fn rest(&self) -> Seq<u8> {
        self.bytes().skip(self.offset() as int)
    }

    /// Whether `next` is this cursor moved on by `n` bytes.
    pub open spec fn advanced(&self, next: &Reader, n: nat) -> bool {
        &&& next.bytes() == self.bytes()
        &&& next.offset() == self.offset() + n
        &&& next.offset() <= next.bytes().len()
        &&& next.rest() == self.rest().skip(n as int)
    }

    /// Whether `next` is this cursor, unmoved.
    pub open spec fn unmoved(&self, next: &Reader) -> bool {
        &&& next.bytes() == self.bytes()
        &&& next.offset() == self.offset()
    }

    /// A cursor at the start of `data`.
    pub fn new(data: Vec<u8>) -> (r: Self)
        ensures
            r.bytes() == data@,
            r.offset() == 0,
    {
        Reader { data, pos: 0 }
    }

    /// The position: how many bytes have been read.
    pub fn position(&self) -> (p: usize)
        ensures
            p == self.offset(),
            p <= self.bytes().len(),
    {
        proof {
            use_type_invariant(self);
        }
        self.pos
    }

    /// Whether no bytes are left.
    pub fn is_at_end(&self) -> (r: bool)
        ensures
            r == (self.rest().len() == 0),
    {
        proof {
            use_type_invariant(self);
        }
        self.pos >= self.data.len()
    }

    /// Moves the cursor to a position within the buffer.
    pub fn seek(&mut self, pos: usize)
        requires
            pos <= old(self).bytes().len(),
        ensures
            final(self).bytes() == old(self).bytes(),
            final(self).offset() == pos,
    {
        self.pos = pos;
    }

    fn rest_slice(&self) -> (s: &[u8])
        ensures
            s@ == self.rest(),
            self.offset() + s@.len() == self.bytes().len(),
    {
        proof {
            use_type_invariant(self);
        }
        slice_subrange(self.data.as_slice(), self.pos, self.data.len())
    }

    fn advance(&mut self, n: usize)
        requires
            old(self).offset() + n <= old(self).bytes().len(),
        ensures
            old(self).advanced(final(self), n as nat),
    {
        let len = self.data.len();
        assert(self.pos + n <= len);
        assert(self.data@.skip(self.pos + n) =~= self.data@.skip(self.pos as int).skip(n as int));
        self.pos = self.pos + n;
    }

    /// The major type of the next item. Nothing is read.
    pub fn cbor_type(&self) -> (r: Result<Type, cbor_event::Error>)
        ensures
            match r {
                Ok(t) => self.rest().len() != 0 && t == type_of(self.rest()[0]),
                Err(_) => self.rest().len() == 0,
            },
    {
        peek_type(self.rest_slice())
    }

    /// Reads an unsigned integer: its value and the width of its head.
    pub fn unsigned_integer_sz(&mut self) -> (r: Result<(u64, Sz), cbor_event::Error>)
        ensures
            match parse_arg(MAJOR_UINT, old(self).rest()) {
                Some(v) => r matches Ok(x) && x == v && old(self).advanced(
                    final(self),
                    1 + width(v.1),
                ),
                None => r is Err && old(self).unmoved(final(self)),
            },
    {
        match read_unsigned_integer(self.rest_slice()) {
            Ok((v, sz)) => {
                self.advance(1 + width_of(sz));
                Ok((v, sz))
            },
            Err(e) => Err(e),
        }
    }

    /// Reads a negative integer: minus one minus its argument, and the width
    /// of its head.
    pub fn negative_integer_sz(&mut self) -> (r: Result<(i128, Sz), cbor_event::Error>)
        ensures
            match parse_arg(MAJOR_NINT, old(self).rest()) {
                Some(v) => r matches Ok(x) && x.0 == -1 - v.0 && x.1 == v.1 && old(self).advanced(
                    final(self),
                    1 + width(v.1),
                ),
                None => r is Err && old(self).unmoved(final(self)),
            },
    {
        match read_negative_integer(self.rest_slice()) {
            Ok((v, sz)) => {
                self.advance(1 + width_of(sz));
                Ok((v, sz))
            },
            Err(e) => Err(e),
        }
    }

    /// Reads a tag: its number and the width of its head.
    pub fn tag_sz(&mut self) -> (r: Result<(u64, Sz), cbor_event::Error>)
        ensures
            match parse_arg(MAJOR_TAG, old(self).rest()) {
                Some(v) => r matches Ok(x) && x == v && old(self).advanced(
                    final(self),
                    1 + width(v.1),
                ),
                None => r is Err && old(self).unmoved(final(self)),
            },
    {
        match read_tag(self.rest_slice()) {
            Ok((v, sz)) => {
                self.advance(1 + width_of(sz));
                Ok((v, sz))
            },
            Err(e) => Err(e),
        }
    }

    /// Reads the head of an array: its declared length.
    pub fn array_sz(&mut self) -> (r: Result<LenSz, cbor_event::Error>)
        ensures
            match parse_len(MAJOR_ARRAY, old(self).rest()) {
                Some(len) => r matches Ok(x) && x == len && old(self).advanced(
                    final(self),
                    1 + len_width(len),
                ),
                None => r is Err && old(self).unmoved(final(self)),
            },
    {
        match read_array(self.rest_slice()) {
            Ok(len) => {
                match len {
                    LenSz::Len(_, sz) => self.advance(1 + width_of(sz)),
                    LenSz::Indefinite => self.advance(1),
                }
                Ok(len)
            },
            Err(e) => Err(e),
        }
    }

    /// Reads the head of a map: its declared length.
    pub fn map_sz(&mut self) -> (r: Result<LenSz, cbor_event::Error>)
        ensures
            match parse_len(MAJOR_MAP, old(self).rest()) {
                Some(len) => r matches Ok(x) && x == len && old(self).advanced(
                    final(self),
                    1 + len_width(len),
                ),
                None => r is Err && old(self).unmoved(final(self)),
            },
    {
        match read_map(self.rest_slice()) {
            Ok(len) => {
                match len {
                    LenSz::Len(_, sz) => self.advance(1 + width_of(sz)),
                    LenSz::Indefinite => self.advance(1),
                }
                Ok(len)
            },
            Err(e) => Err(e),
        }
    }

    /// Reads a simple value or the break marker, and says whether it was the
    /// break. The cursor moves past a break only.
    pub fn special_is_break(&mut self) -> (r: Result<bool, cbor_event::Error>)
        ensures
            match parse_special(old(self).rest()) {
                Some(b) => r matches Ok(x) && x == b && if b {
                    old(self).advanced(final(self), 1)
                } else {
                    old(self).unmoved(final(self))
                },
                None => r is Err && old(self).unmoved(final(self)),
            },
    {
        match read_special(self.rest_slice()) {
            Ok(b) => {
                if b {
                    self.advance(1);
                }
                Ok(b)
            },
            Err(e) => Err(e),
        }
    }

    /// Walks over the string item of the given major type that starts here,
    /// without reading its content: whether its declared lengths lie within
    /// the input, and where it ends if it is one.
    fn string_end(&self, major: u8) -> (r: (bool, usize))
        ensures
            r.0 == lengths_fit(major, self.rest()),
            r.1 <= self.rest().len(),
            parse_string(major, self.rest()) matches Some(item) ==> r.0 && r.1 == item.consumed,
    {
        let s = self.rest_slice();
        if s.len() == 0 || s[0] / 32 != major {
            return (true, 0);
        }
        match peek_len(s) {
            Err(_) => (true, 0),
            Ok(LenSz::Len(n, sz)) => {
                let start = 1 + width_of(sz);
                if n <= (s.len() - start) as u64 {
                    (true, start + n as usize)
                } else {
                    (false, 0)
                }
            },
            Ok(LenSz::Indefinite) => {
                let mut off: usize = 1;
                loop
                    invariant
                        s@ == self.rest(),
                        parse_len(major, s@) == Some(LenSz::Indefinite),
                        1 <= off <= s@.len(),
                        chunk_lengths_fit(major, s@.skip(1)) == chunk_lengths_fit(
                            major,
                            s@.skip(off as int),
                        ),
                        parse_chunks(major, s@.skip(1)) matches Some(t) ==> (parse_chunks(
                            major,
                            s@.skip(off as int),
                        ) matches Some(u) && t.2 == off - 1 + u.2),
                    decreases s@.len() - off,
                {
                    if off >= s.len() {
                        return (true, 0);
                    }
                    if s[off] == BREAK {
                        return (true, off + 1);
                    }
                    let chunk = slice_subrange(s, off, s.len());
                    assert(chunk@ == s@.skip(off as int));
                    if chunk[0] / 32 != major {
                        return (true, 0);
                    }
                    match peek_len(chunk) {
                        Ok(LenSz::Len(n, sz)) => {
                            let start = 1 + width_of(sz);
                            if n <= (chunk.len() - start) as u64 {
                                assert(chunk@.skip(start + n) == s@.skip(off + start + n));
                                off = off + start + n as usize;
                            } else {
                                proof {
                                    assert(!chunk_lengths_fit(major, chunk@));
                                    lemma_chunks_that_do_not_fit(major, s@.skip(1));
                                }
                                return (false, 0);
                            }
                        },
                        _ => {
                            return (true, 0);
                        },
                    }
                }
            },
        }
    }

    /// Reads a byte string: its content and how it was laid out.
    pub fn bytes_sz(&mut self) -> (r: Result<(Vec<u8>, StringLenSz), cbor_event::Error>)
        ensures
            match parse_string(MAJOR_BYTES, old(self).rest()) {
                Some(item) => r matches Ok(x) && x.0@ == item.data && form_of(x.1) == item.form
                    && old(self).advanced(final(self), item.consumed),
                None => r is Err && old(self).unmoved(final(self)),
            },
    {
        let (fits, end) = self.string_end(MAJOR_BYTES);
        if !fits {
            return Err(not_enough(self.data.len() - self.position(), end));
        }
        match read_bytes(self.rest_slice()) {
            Ok(x) => {
                self.advance(end);
                Ok(x)
            },
            Err(e) => Err(e),
        }
    }

    /// Reads a text string: the text and how it was laid out.
    pub fn text_sz(&mut self) -> (r: Result<(String, StringLenSz), cbor_event::Error>)
        ensures
            match parse_string(MAJOR_TEXT, old(self).rest()) {
                Some(item) => r matches Ok(x) && x.0@ == decode_utf8(item.data) && form_of(x.1)
                    == item.form && old(self).advanced(final(self), item.consumed),
                None => r is Err && old(self).unmoved(final(self)),
            },
    {
        let (fits, end) = self.string_end(MAJOR_TEXT);
        if !fits {
            return Err(not_enough(self.data.len() - self.position(), end));
        }
        match read_text(self.rest_slice()) {
            Ok(x) => {
                self.advance(end);
                Ok(x)
            },
            Err(e) => Err(e),
        }
    }
}

/// What a decoder of plain values owes: as `decoded`, for a value that is
/// its own mathematical model.
pub open spec fn decoded_plain<T>(
    before: Reader,
    after: Reader,
    r: Result<T, crate::error::DeserializeError>,
    expected: Result<(T, nat), crate::error::ErrorView>,
) -> bool {
    &&& after.bytes() == before.bytes()
    &&& match expected {
        Ok((v, n)) => r matches Ok(x) && x == v && before.advanced(&after, n),
        Err(e) => r matches Err(x) && x@ == e,
    }
}

/// What a decoder owes: the buffer stays as it is; where the input is an
/// encoding, the value comes back and the cursor has moved past it;
/// where it is none, the error comes back.
pub open spec fn decoded<T: View>(
    before: Reader,
    after: Reader,
    r: Result<T, crate::error::DeserializeError>,
    expected: Result<(T::V, nat), crate::error::ErrorView>,
) -> bool {
    &&& after.bytes() == before.bytes()
    &&& match expected {
        Ok((v, n)) => r matches Ok(x) && x@ == v && before.advanced(&after, n),
        Err(e) => r matches Err(x) && x@ == e,
    }
}

} // verus!
