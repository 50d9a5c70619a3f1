//! The laws of the codec for lists of digests.

use crate::error::ErrorView;
use crate::laws_lists::{
    chunks, count_writable, everywhere, joined, lemma_items_read_back, lemma_items_written_back,
    lemma_joined_chunks, reads_as, written_as,
};
use crate::laws_values::{
    lemma_bytes_read_back, lemma_bytes_settle, lemma_bytes_written_back, lemma_len_descriptor,
    len_writable,
};
use crate::payload::{
    digest_bytes, digest_encoding, digest_encodings, digest_items_wire, digest_reader,
    digests_encodable, digests_wire, parse_digest, parse_digests, DigestView,
};
use crate::serialization::{
    bytes_encodable, bytes_wire, parse_items, LenEncoding, StringEncodingView,
};
use crate::wire::{len_head, len_width, parse_len, type_of, MAJOR_ARRAY};
use crate::wire_lemmas::{lemma_head_written_back, lemma_len_head_parses};
use cbor_event::{LenSz, Type};
use vstd::prelude::*;

verus! {

broadcast use {vstd::seq_lib::lemma_seq_skip_of_skip, vstd::seq_lib::lemma_seq_skip_nothing};

/// How a digest is written.
pub open spec fn digest_wire() -> spec_fn(DigestView) -> Seq<u8> {
    |p: DigestView| bytes_wire(p.0, p.1)
}

/// The digests, each with the way it is written.
pub open spec fn paired(items: Seq<Seq<u8>>, encodings: Seq<StringEncodingView>) -> Seq<
    DigestView,
> {
    Seq::new(items.len(), |i: int| (items[i], digest_encoding(encodings, i)))
}

/// The digests as they are read after they were written.
pub open spec fn settled_digests(items: Seq<Seq<u8>>, encodings: Seq<StringEncodingView>) -> Seq<
    DigestView,
> {
    Seq::new(
        items.len(),
        |i: int| (items[i], digest_encoding(encodings, i).settled(items[i].len() as u64)),
    )
}

/// Whether the digests are such that read back after they were written the
/// way their descriptors say.
pub open spec fn digests_read_back(items: Seq<Seq<u8>>, encodings: Seq<StringEncodingView>) -> bool {
    forall|i: int|
        0 <= i < items.len() ==> bytes_encodable(#[trigger] items[i], digest_encoding(encodings, i))
            && len_writable(items[i].len(), digest_encoding(encodings, i))
}

/// Whether a digest that was read is one that is written back the way it was
/// read.
pub open spec fn digest_step() -> spec_fn(Seq<DigestView>, DigestView) -> bool {
    |acc: Seq<DigestView>, p: DigestView|
        bytes_encodable(p.0, p.1) && len_writable(p.0.len(), p.1) && p.1.settled(p.0.len() as u64)
            == p.1
}

/// Any place is a place to read a digest.
pub open spec fn any_place() -> spec_fn(Seq<DigestView>, Seq<u8>) -> bool {
    |acc: Seq<DigestView>, s: Seq<u8>| true
}

/// The first digests one after the other, as the generic container writes
/// them.
pub proof fn lemma_digest_items_joined(
    items: Seq<Seq<u8>>,
    encodings: Seq<StringEncodingView>,
    count: nat,
)
    requires
        count <= items.len(),
    ensures
        digest_items_wire(items, encodings, count) == joined(
            digest_wire(),
            paired(items, encodings).take(count as int),
        ),
    decreases count,
{
    let pairs = paired(items, encodings);
    if count == 0 {
        assert(pairs.take(0) =~= Seq::<DigestView>::empty());
    } else {
        lemma_digest_items_joined(items, encodings, (count - 1) as nat);
        assert(pairs.take(count as int).drop_last() =~= pairs.take(count - 1));
        assert(pairs.take(count as int).last() == pairs[count - 1]);
    }
}

/// Any place is good everywhere.
pub proof fn lemma_any_place_everywhere(len: LenSz, acc: Seq<DigestView>, s: Seq<u8>)
    ensures
        everywhere(any_place(), digest_reader(), len, acc, s),
    decreases s.len(),
{
    if crate::laws_lists::wants_more(len, acc.len()) && s.len() != 0 && type_of(s[0])
        != Type::Special {
        match digest_reader()(acc, s) {
            Ok((v, used)) => {
                if 0 < used <= s.len() {
                    lemma_any_place_everywhere(len, acc.push(v), s.skip(used as int));
                }
            },
            Err(_) => {},
        }
    }
}

/// Round trip: a list of digests that is written reads back as the same
/// digests, whatever follows it.
pub proof fn lemma_digests_read_back(
    items: Seq<Seq<u8>>,
    encodings: Seq<StringEncodingView>,
    enc: LenEncoding,
    rest: Seq<u8>,
)
    requires
        digests_read_back(items, encodings),
        count_writable(items.len(), enc),
    ensures
        parse_digests(digests_wire(items, encodings, enc) + rest) == Ok::<
            ((Seq<DigestView>, LenEncoding), nat),
            ErrorView,
        >(
            (
                (settled_digests(items, encodings), enc.settled(items.len() as u64)),
                digests_wire(items, encodings, enc).len(),
            ),
        ),
        digest_bytes(settled_digests(items, encodings)) == items,
        digests_read_back(items, digest_encodings(settled_digests(items, encodings))),
        digests_wire(
            items,
            digest_encodings(settled_digests(items, encodings)),
            enc.settled(items.len() as u64),
        ) == digests_wire(items, encodings, enc),
        (digests_wire(items, encodings, enc) + rest).skip(
            digests_wire(items, encodings, enc).len() as int,
        ) == rest,
        digests_wire(items, encodings, enc).len() >= 1,
{
    reveal(parse_digests);
    reveal(digests_wire);
    let len = enc.head_for(items.len() as u64);
    let pairs = paired(items, encodings);
    let ws = chunks(digest_wire(), pairs);
    let vs = settled_digests(items, encodings);
    let s = digests_wire(items, encodings, enc) + rest;
    lemma_digest_items_joined(items, encodings, items.len());
    assert(pairs.take(items.len() as int) =~= pairs);
    lemma_joined_chunks(digest_wire(), pairs);
    let body = ws.flatten() + enc.ending() + rest;
    assert(s =~= len_head(MAJOR_ARRAY, len) + body);
    lemma_len_descriptor(enc, len, items.len() as u64);
    lemma_len_head_parses(MAJOR_ARRAY, len, body);
    let none = Seq::<DigestView>::empty();
    assert forall|i: int, tail: Seq<u8>| 0 <= i < ws.len() implies #[trigger] reads_as(
        digest_reader(),
        none + vs.take(i),
        ws[i],
        tail,
        vs[i],
    ) by {
        reveal(parse_digest);
        lemma_bytes_read_back(items[i], digest_encoding(encodings, i), tail);
    }
    lemma_items_read_back(digest_reader(), enc, none, ws, vs, rest);
    assert(none + vs =~= vs);
    assert(s.skip(digests_wire(items, encodings, enc).len() as int) =~= rest);
    assert(digest_bytes(vs) =~= items);
    lemma_settled_digests(items, encodings, items.len());
    let again = digest_encodings(vs);
    assert(paired(items, again).take(items.len() as int) =~= paired(items, again));
    lemma_digest_items_joined(items, again, items.len());
}

/// Digests that read back are written the same way with the descriptors
/// that they are read with.
pub proof fn lemma_settled_digests(
    items: Seq<Seq<u8>>,
    encodings: Seq<StringEncodingView>,
    count: nat,
)
    requires
        digests_read_back(items, encodings),
        count <= items.len(),
    ensures
        digests_read_back(items, digest_encodings(settled_digests(items, encodings))),
        joined(
            digest_wire(),
            paired(items, digest_encodings(settled_digests(items, encodings))).take(count as int),
        ) == joined(digest_wire(), paired(items, encodings).take(count as int)),
    decreases count,
{
    let again = digest_encodings(settled_digests(items, encodings));
    assert forall|i: int| 0 <= i < items.len() implies bytes_encodable(
        #[trigger] items[i],
        digest_encoding(again, i),
    ) && len_writable(items[i].len(), digest_encoding(again, i)) && bytes_wire(
        items[i],
        digest_encoding(again, i),
    ) == bytes_wire(items[i], digest_encoding(encodings, i)) by {
        lemma_bytes_settle(items[i], digest_encoding(encodings, i));
    }
    if count == 0 {
        assert(paired(items, again).take(0) =~= Seq::<DigestView>::empty());
        assert(paired(items, encodings).take(0) =~= Seq::<DigestView>::empty());
    } else {
        lemma_settled_digests(items, encodings, (count - 1) as nat);
        let a = paired(items, again).take(count as int);
        let b = paired(items, encodings).take(count as int);
        assert(a.drop_last() =~= paired(items, again).take(count - 1));
        assert(b.drop_last() =~= paired(items, encodings).take(count - 1));
        assert(digest_wire()(a.last()) == digest_wire()(b.last())) by {
            assert(bytes_encodable(items[count - 1], digest_encoding(again, count - 1)));
        }
    }
}

/// Byte preservation: a list of digests that is read is written back as the
/// bytes it was read from.
pub proof fn lemma_digests_written_back(s: Seq<u8>)
    requires
        parse_digests(s) is Ok,
    ensures
        ({
            let ((pairs, enc), n) = parse_digests(s)->Ok_0;
            &&& 1 <= n <= s.len()
            &&& digests_read_back(digest_bytes(pairs), digest_encodings(pairs))
            &&& digests_encodable(digest_bytes(pairs), digest_encodings(pairs))
            &&& count_writable(pairs.len(), enc)
            &&& settled_digests(digest_bytes(pairs), digest_encodings(pairs)) == pairs
            &&& enc.settled(pairs.len() as u64) == enc
            &&& digests_wire(digest_bytes(pairs), digest_encodings(pairs), enc) == s.subrange(
                0,
                n as int,
            )
        }),
{
    reveal(parse_digests);
    reveal(digests_wire);
    let ((pairs, enc), n) = parse_digests(s)->Ok_0;
    let len = parse_len(MAJOR_ARRAY, s)->0;
    let start = 1 + len_width(len);
    lemma_head_written_back(MAJOR_ARRAY, s);
    let body = s.skip(start as int);
    let none = Seq::<DigestView>::empty();
    assert forall|a: Seq<DigestView>, t: Seq<u8>| (#[trigger] any_place()(a, t))
        && digest_reader()(a, t) is Ok implies ({
        let (v, used) = digest_reader()(a, t)->Ok_0;
        written_as(digest_wire(), digest_step(), a, t, v, used)
    }) by {
        reveal(parse_digest);
        lemma_bytes_written_back(t);
    }
    lemma_any_place_everywhere(len, none, body);
    lemma_items_written_back(
        digest_reader(),
        digest_wire(),
        digest_step(),
        any_place(),
        len,
        none,
        body,
    );
    let (all, m) = parse_items(digest_reader(), len, none, body)->Ok_0;
    assert(pairs == all);
    assert(joined(digest_wire(), none) =~= Seq::<u8>::empty());
    lemma_len_descriptor(enc, len, pairs.len() as u64);
    let items = digest_bytes(pairs);
    let encodings = digest_encodings(pairs);
    assert forall|i: int| 0 <= i < pairs.len() implies bytes_encodable(
        #[trigger] items[i],
        digest_encoding(encodings, i),
    ) && len_writable(items[i].len(), digest_encoding(encodings, i)) && digest_encoding(
        encodings,
        i,
    ).settled(items[i].len() as u64) == pairs[i].1 by {
        assert(digest_step()(all.take(i), all[i]));
    }
    assert(paired(items, encodings) =~= pairs);
    assert(settled_digests(items, encodings) =~= pairs);
    lemma_digest_items_joined(items, encodings, items.len());
    assert(pairs.take(items.len() as int) =~= pairs);
    assert(s.subrange(0, n as int) =~= s.subrange(0, start as int) + body.subrange(0, m as int));
    assert(enc.head_for(pairs.len() as u64) == len);
    assert(digests_wire(items, encodings, enc) =~= s.subrange(0, n as int));
}

} // verus!
