//! What holds of the wire model: a head that is written is the head that is
//! read, and a head that is read is the head that would be written; the same
//! for strings.

use crate::wire::{
    be_bytes, be_value, chunks_encodable, chunks_wire, content_ok, head, info_for, info_of,
    initial_byte, len_head, len_width, major_of, parse_arg, parse_chunks, parse_len,
    parse_special, parse_string, shortest, string_encodable, string_wire, type_of, widest, width,
    StringForm, StringItem, BREAK, MAJOR_TEXT,
};
use cbor_event::{LenSz, Sz, Type};
use vstd::prelude::*;

verus! {

/// Two to the power of eight times `n`.
pub open spec fn pow256(n: nat) -> nat
    decreases n,
{
    if n == 0 {
        1
    } else {
        256 * pow256((n - 1) as nat)
    }
}

/// The powers that the widths of a head need.
pub proof fn lemma_pow256_values()
    ensures
        pow256(0) == 1,
        pow256(1) == 0x100,
        pow256(2) == 0x1_0000,
        pow256(4) == 0x1_0000_0000,
        pow256(8) == 0x1_0000_0000_0000_0000,
{
    reveal_with_fuel(pow256, 9);
}

/// `n` bytes are `n` bytes.
pub proof fn lemma_be_bytes_len(v: nat, n: nat)
    ensures
        be_bytes(v, n).len() == n,
    decreases n,
{
    if n != 0 {
        lemma_be_bytes_len(v / 256, (n - 1) as nat);
    }
}

/// A number that fits `n` bytes is the number that its `n` bytes stand for.
pub proof fn lemma_be_value_of_bytes(v: nat, n: nat)
    requires
        v < pow256(n),
    ensures
        be_value(be_bytes(v, n)) == v,
    decreases n,
{
    if n != 0 {
        let rest = be_bytes(v / 256, (n - 1) as nat);
        lemma_be_bytes_len(v / 256, (n - 1) as nat);
        lemma_be_value_of_bytes(v / 256, (n - 1) as nat);
        assert(be_bytes(v, n).drop_last() =~= rest);
    }
}

/// The number that bytes stand for fits as many bytes, and its bytes are
/// those bytes.
pub proof fn lemma_be_bytes_of_value(s: Seq<u8>)
    ensures
        be_value(s) < pow256(s.len()),
        be_bytes(be_value(s), s.len()) == s,
    decreases s.len(),
{
    if s.len() != 0 {
        lemma_be_bytes_of_value(s.drop_last());
        let v = be_value(s);
        assert(v / 256 == be_value(s.drop_last()));
        assert(v % 256 == s.last() as nat);
        assert(be_bytes(v, s.len()) =~= s);
    }
}

/// No width that can carry `arg` is shorter than the shortest.
pub proof fn lemma_shortest_is_least(arg: u64, sz: Sz)
    requires
        arg <= widest(sz),
    ensures
        arg <= widest(shortest(arg)),
        width(shortest(arg)) <= width(sz),
{
}

/// The initial byte of a head gives back its major type and its additional
/// information.
pub proof fn lemma_initial_byte(major: u8, info: u8)
    requires
        major < 8,
        info < 32,
    ensures
        major_of(initial_byte(major, info)) == major,
        info_of(initial_byte(major, info)) == info,
{
}

/// A byte is the initial byte of its major type and its additional
/// information.
pub proof fn lemma_byte_is_initial(b: u8)
    ensures
        major_of(b) < 8,
        info_of(b) < 32,
        initial_byte(major_of(b), info_of(b)) == b,
{
}

/// A head has one byte and the bytes of its width.
pub proof fn lemma_head_len(major: u8, arg: u64, sz: Sz)
    ensures
        head(major, arg, sz).len() == 1 + width(sz),
{
    lemma_be_bytes_len(arg as nat, width(sz));
}

/// A head that is written is the head that is read: in front of any bytes,
/// a head whose argument fits its width reads as that argument with that
/// width.
pub proof fn lemma_head_parses(major: u8, arg: u64, sz: Sz, rest: Seq<u8>)
    requires
        major < 8,
        arg <= widest(sz),
    ensures
        parse_len(major, head(major, arg, sz) + rest) == Some(LenSz::Len(arg, sz)),
        parse_arg(major, head(major, arg, sz) + rest) == Some((arg, sz)),
        head(major, arg, sz).len() == 1 + width(sz),
        (head(major, arg, sz) + rest).skip(1 + width(sz) as int) == rest,
        (head(major, arg, sz) + rest)[0] == initial_byte(major, info_for(arg, sz)),
        major_of((head(major, arg, sz) + rest)[0]) == major,
{
    let h = head(major, arg, sz);
    let s = h + rest;
    lemma_head_len(major, arg, sz);
    lemma_be_bytes_len(arg as nat, width(sz));
    lemma_initial_byte(major, info_for(arg, sz));
    lemma_pow256_values();
    assert(s[0] == h[0]);
    assert(s.skip(1 + width(sz) as int) =~= rest);
    if sz != Sz::Inline {
        assert(s.subrange(1, 1 + width(sz) as int) =~= be_bytes(arg as nat, width(sz)));
        lemma_be_value_of_bytes(arg as nat, width(sz));
    }
}

/// The byte that opens an indefinite-length item reads as an indefinite
/// length.
pub proof fn lemma_open_head_parses(major: u8, rest: Seq<u8>)
    requires
        major < 8,
    ensures
        parse_len(major, len_head(major, LenSz::Indefinite) + rest) == Some(LenSz::Indefinite),
        parse_arg(major, len_head(major, LenSz::Indefinite) + rest) is None,
        len_head(major, LenSz::Indefinite).len() == 1,
        (len_head(major, LenSz::Indefinite) + rest).skip(1) == rest,
        major_of((len_head(major, LenSz::Indefinite) + rest)[0]) == major,
{
    let s = len_head(major, LenSz::Indefinite) + rest;
    lemma_initial_byte(major, 31);
    assert(s[0] == initial_byte(major, 31));
    assert(s.skip(1) =~= rest);
}

/// Whether a length can stand in a head: a definite length fits its width.
pub open spec fn len_fits(len: LenSz) -> bool {
    match len {
        LenSz::Len(n, sz) => n <= widest(sz),
        LenSz::Indefinite => true,
    }
}

/// The head of a container that is written is the head that is read.
pub proof fn lemma_len_head_parses(major: u8, len: LenSz, rest: Seq<u8>)
    requires
        major < 8,
        len_fits(len),
    ensures
        parse_len(major, len_head(major, len) + rest) == Some(len),
        len_head(major, len).len() == 1 + len_width(len),
        (len_head(major, len) + rest).skip(1 + len_width(len) as int) == rest,
        major_of((len_head(major, len) + rest)[0]) == major,
{
    match len {
        LenSz::Len(n, sz) => lemma_head_parses(major, n, sz, rest),
        LenSz::Indefinite => lemma_open_head_parses(major, rest),
    }
}

/// A head that is read is the head that would be written: the bytes that a
/// head takes are the head of its major type, its argument and its width.
pub proof fn lemma_head_written_back(major: u8, s: Seq<u8>)
    requires
        parse_len(major, s) is Some,
    ensures
        major < 8,
        len_fits(parse_len(major, s)->0),
        1 + len_width(parse_len(major, s)->0) <= s.len(),
        s.subrange(0, 1 + len_width(parse_len(major, s)->0) as int) == len_head(
            major,
            parse_len(major, s)->0,
        ),
{
    let len = parse_len(major, s)->0;
    lemma_byte_is_initial(s[0]);
    lemma_pow256_values();
    match len {
        LenSz::Len(n, sz) => {
            let taken = s.subrange(0, 1 + width(sz) as int);
            if sz == Sz::Inline {
                assert(taken =~= head(major, n, sz)) by {
                    reveal_with_fuel(be_bytes, 1);
                }
            } else {
                let arg = s.subrange(1, 1 + width(sz) as int);
                lemma_be_bytes_of_value(arg);
                assert(taken =~= seq![s[0]] + arg);
                assert(taken =~= head(major, n, sz));
            }
        },
        LenSz::Indefinite => {
            assert(s.subrange(0, 1) =~= len_head(major, len));
        },
    }
}

/// The break marker reads as the break marker.
pub proof fn lemma_break_parses(rest: Seq<u8>)
    ensures
        parse_special(seq![BREAK] + rest) == Some(true),
        type_of((seq![BREAK] + rest)[0]) == Type::Special,
        (seq![BREAK] + rest).skip(1) == rest,
{
    let s = seq![BREAK] + rest;
    assert(s[0] == BREAK);
    assert(s.skip(1) =~= rest);
}

/// What reads as the break marker is the break marker.
pub proof fn lemma_break_written_back(s: Seq<u8>)
    requires
        parse_special(s) == Some(true),
    ensures
        s.len() >= 1,
        s.subrange(0, 1) == seq![BREAK],
{
    lemma_byte_is_initial(s[0]);
    assert(s.subrange(0, 1) =~= seq![BREAK]);
}

/// The major type as the outside crate names it is the major type of the
/// head.
pub proof fn lemma_type_of_major(b: u8)
    ensures
        (type_of(b) == Type::UnsignedInteger) == (major_of(b) == 0),
        (type_of(b) == Type::NegativeInteger) == (major_of(b) == 1),
        (type_of(b) == Type::Bytes) == (major_of(b) == 2),
        (type_of(b) == Type::Text) == (major_of(b) == 3),
        (type_of(b) == Type::Array) == (major_of(b) == 4),
        (type_of(b) == Type::Map) == (major_of(b) == 5),
        (type_of(b) == Type::Tag) == (major_of(b) == 6),
        (type_of(b) == Type::Special) == (major_of(b) == 7),
{
}

/// Any bytes may stand in a byte string.
pub proof fn lemma_bytes_are_content(data: Seq<u8>)
    ensures
        content_ok(crate::wire::MAJOR_BYTES, data),
{
    reveal(content_ok);
}

/// The UTF-8 bytes of a text may stand in a text string.
pub proof fn lemma_text_is_content(text: Seq<char>)
    ensures
        content_ok(MAJOR_TEXT, vstd::utf8::encode_utf8(text)),
{
    reveal(content_ok);
    vstd::utf8::encode_utf8_valid_utf8(text);
}

/// No bytes may stand in any string.
pub proof fn lemma_nothing_is_content(major: u8)
    ensures
        content_ok(major, Seq::empty()),
{
    reveal(content_ok);
}

/// What may stand in a string may stand after what may stand in a string.
pub proof fn lemma_content_joins(major: u8, a: Seq<u8>, b: Seq<u8>)
    requires
        content_ok(major, a),
        content_ok(major, b),
    ensures
        content_ok(major, a + b),
{
    reveal(content_ok);
    if major == MAJOR_TEXT {
        vstd::utf8::valid_utf8_concat(a, b);
    }
}

/// One chunk that is written, in front of any bytes: its head reads as its
/// length, its content follows the head, and the bytes follow the content.
pub proof fn lemma_chunk_parses(major: u8, n: u64, sz: Sz, chunk: Seq<u8>, after: Seq<u8>)
    requires
        major == 2 || major == 3,
        chunk.len() == n,
        n <= widest(sz),
    ensures
        ({
            let s = head(major, n, sz) + chunk + after;
            let start = 1 + width(sz);
            &&& s.len() == start + n + after.len()
            &&& s[0] != BREAK
            &&& parse_arg(major, s) == Some((n, sz))
            &&& s.subrange(start as int, start + n) == chunk
            &&& s.skip(start + n) == after
        }),
{
    let s = head(major, n, sz) + chunk + after;
    let start = 1 + width(sz);
    assert(s =~= head(major, n, sz) + (chunk + after));
    lemma_head_parses(major, n, sz, chunk + after);
    lemma_initial_byte(major, info_for(n, sz));
    assert(s.subrange(start as int, start + n) =~= chunk);
    assert(s.skip(start + n) =~= after);
}

/// The chunks of a string that are written are the chunks that are read.
#[verifier::rlimit(60)]
#[verifier::spinoff_prover]
pub proof fn lemma_chunks_parse(major: u8, data: Seq<u8>, lens: Seq<(u64, Sz)>, rest: Seq<u8>)
    requires
        major == 2 || major == 3,
        chunks_encodable(major, data, lens),
    ensures
        parse_chunks(major, chunks_wire(major, data, lens) + seq![BREAK] + rest) == Some(
            (data, lens, (chunks_wire(major, data, lens).len() + 1) as nat),
        ),
    decreases lens.len(),
{
    let s = chunks_wire(major, data, lens) + seq![BREAK] + rest;
    if lens.len() == 0 {
        assert(s[0] == BREAK);
        assert(data =~= Seq::<u8>::empty());
        assert(lens =~= Seq::<(u64, Sz)>::empty());
    } else {
        let (n, sz) = lens[0];
        let chunk = data.subrange(0, n as int);
        let tail_data = data.skip(n as int);
        let tail_lens = lens.skip(1);
        let tail_wire = chunks_wire(major, tail_data, tail_lens);
        let after = tail_wire + seq![BREAK] + rest;
        let start = 1 + width(sz);
        assert(chunks_wire(major, data, lens) == head(major, n, sz) + chunk + tail_wire);
        assert(s =~= head(major, n, sz) + chunk + after);
        lemma_chunk_parses(major, n, sz, chunk, after);
        lemma_chunks_parse(major, tail_data, tail_lens, rest);
        assert(parse_chunks(major, after) == Some(
            (tail_data, tail_lens, (tail_wire.len() + 1) as nat),
        ));
        assert(chunk + tail_data =~= data);
        assert(seq![(n, sz)] + tail_lens =~= lens);
        assert(chunks_wire(major, data, lens).len() == start + n + tail_wire.len());
        assert(content_ok(major, s.subrange(start as int, start + n)));
    }
}

/// A string that is written is the string that is read: in front of any
/// bytes, a string whose content may stand in an item of its major type and
/// can be laid out the way `form` says reads as that content in that layout.
pub proof fn lemma_string_parses(major: u8, data: Seq<u8>, form: StringForm, rest: Seq<u8>)
    requires
        major == 2 || major == 3,
        form is Definite ==> data.len() <= u64::MAX,
        content_ok(major, data),
        string_encodable(major, data, form),
    ensures
        parse_string(major, string_wire(major, data, form) + rest) == Some(
            StringItem { data, form, consumed: string_wire(major, data, form).len() },
        ),
        major_of((string_wire(major, data, form) + rest)[0]) == major,
        (string_wire(major, data, form) + rest).skip(string_wire(major, data, form).len() as int)
            == rest,
{
    let w = string_wire(major, data, form);
    let s = w + rest;
    assert(s.skip(w.len() as int) =~= rest);
    match form {
        StringForm::Definite(sz) => {
            let n = data.len() as u64;
            assert(s =~= head(major, n, sz) + (data + rest));
            lemma_head_parses(major, n, sz, data + rest);
            let start = 1 + width(sz);
            assert(s.subrange(start as int, start + n) =~= data);
        },
        StringForm::Chunked(lens) => {
            let body = chunks_wire(major, data, lens) + seq![BREAK] + rest;
            assert(s =~= len_head(major, LenSz::Indefinite) + body);
            lemma_open_head_parses(major, body);
            lemma_chunks_parse(major, data, lens, rest);
        },
    }
}

/// The chunks of a string that are read are the chunks that would be
/// written.
pub proof fn lemma_chunks_written_back(major: u8, s: Seq<u8>)
    requires
        major == 2 || major == 3,
        parse_chunks(major, s) is Some,
    ensures
        ({
            let (data, lens, used) = parse_chunks(major, s)->0;
            &&& 1 <= used <= s.len()
            &&& chunks_encodable(major, data, lens)
            &&& content_ok(major, data)
            &&& s.subrange(0, used as int) == chunks_wire(major, data, lens) + seq![BREAK]
        }),
    decreases s.len(),
{
    let (data, lens, used) = parse_chunks(major, s)->0;
    if s[0] == BREAK {
        assert(data =~= Seq::<u8>::empty());
        assert(lens =~= Seq::<(u64, Sz)>::empty());
        assert(s.subrange(0, 1) =~= chunks_wire(major, data, lens) + seq![BREAK]);
        lemma_nothing_is_content(major);
    } else {
        let (n, sz) = parse_arg(major, s)->0;
        let start = 1 + width(sz);
        let chunk = s.subrange(start as int, start + n);
        let tail = s.skip(start + n);
        lemma_chunks_written_back(major, tail);
        let (d, l, u) = parse_chunks(major, tail)->0;
        assert(data == chunk + d);
        assert(lens == seq![(n, sz)] + l);
        assert(used == start + n + u);
        lemma_chunk_written_back(major, s, n, sz, d, l, u);
    }
}

/// One chunk that is read, in front of chunks that are the chunks that
/// would be written: the chunk and those chunks are the chunks that would be
/// written.
pub proof fn lemma_chunk_written_back(
    major: u8,
    s: Seq<u8>,
    n: u64,
    sz: Sz,
    d: Seq<u8>,
    l: Seq<(u64, Sz)>,
    u: nat,
)
    requires
        major == 2 || major == 3,
        parse_arg(major, s) == Some((n, sz)),
        1 + width(sz) + n <= s.len(),
        content_ok(major, s.subrange(1 + width(sz) as int, 1 + width(sz) + n)),
        u <= s.skip(1 + width(sz) + n).len(),
        chunks_encodable(major, d, l),
        content_ok(major, d),
        s.skip(1 + width(sz) + n).subrange(0, u as int) == chunks_wire(major, d, l) + seq![BREAK],
    ensures
        ({
            let start = 1 + width(sz);
            let data = s.subrange(start as int, start + n) + d;
            let lens = seq![(n, sz)] + l;
            &&& chunks_encodable(major, data, lens)
            &&& content_ok(major, data)
            &&& s.subrange(0, start + n + u) == chunks_wire(major, data, lens) + seq![BREAK]
        }),
{
    let start = 1 + width(sz);
    let chunk = s.subrange(start as int, start + n);
    let tail = s.skip(start + n);
    let data = chunk + d;
    let lens = seq![(n, sz)] + l;
    lemma_head_written_back(major, s);
    assert(lens[0] == (n, sz));
    assert(lens.skip(1) =~= l);
    assert(data.subrange(0, n as int) =~= chunk);
    assert(data.skip(n as int) =~= d);
    assert(chunks_wire(major, data, lens) == head(major, n, sz) + chunk + chunks_wire(major, d, l));
    assert(s.subrange(0, start as int) == head(major, n, sz));
    assert(s.subrange(0, start + n + u) =~= s.subrange(0, start as int) + chunk + tail.subrange(
        0,
        u as int,
    ));
    lemma_content_joins(major, chunk, d);
}

/// A string that is read is the string that would be written: the bytes that
/// a string item takes are the bytes of its content in its layout.
pub proof fn lemma_string_written_back(major: u8, s: Seq<u8>)
    requires
        major == 2 || major == 3,
        parse_string(major, s) is Some,
    ensures
        ({
            let item = parse_string(major, s)->0;
            &&& 1 <= item.consumed <= s.len()
            &&& item.form is Definite ==> item.data.len() <= u64::MAX
            &&& content_ok(major, item.data)
            &&& string_encodable(major, item.data, item.form)
            &&& s.subrange(0, item.consumed as int) == string_wire(major, item.data, item.form)
        }),
{
    let item = parse_string(major, s)->0;
    lemma_head_written_back(major, s);
    match parse_len(major, s)->0 {
        LenSz::Len(n, sz) => {
            let start = 1 + width(sz);
            assert(s.subrange(0, item.consumed as int) =~= s.subrange(0, start as int)
                + item.data);
        },
        LenSz::Indefinite => {
            lemma_chunks_written_back(major, s.skip(1));
            let (data, lens, used) = parse_chunks(major, s.skip(1))->0;
            assert(s.subrange(0, item.consumed as int) =~= s.subrange(0, 1) + s.skip(
                1,
            ).subrange(0, used as int));
            crate::serialization::lemma_encodable_chunks_total(major, data, lens);
            assert(used <= s.skip(1).len());
        },
    }
}

} // verus!
