//! The laws of the codec for lists of salted disclosures.

use crate::error::ErrorView;
use crate::laws_lists::{
    chunks, count_writable, everywhere, joined, lemma_items_read_back, lemma_items_written_back,
    lemma_joined_chunks, reads_as, written_as,
};
use crate::laws_salted::SaltedContent;
use crate::laws_values::lemma_len_descriptor;
use crate::salted::{
    parse_listed, parse_salted_list, salted_items_wire, salted_list_encodable, salted_list_wire,
    salted_reader, SaltedView,
};
use crate::serialization::{parse_items, LenEncoding};
use crate::wire::{len_head, len_width, parse_len, type_of, MAJOR_ARRAY};
use crate::wire_lemmas::{lemma_head_written_back, lemma_len_head_parses};
use cbor_event::{LenSz, Type};
use vstd::prelude::*;

verus! {

broadcast use {vstd::seq_lib::lemma_seq_skip_of_skip, vstd::seq_lib::lemma_seq_skip_nothing};

/// How a disclosure is written.
pub open spec fn salted_wire() -> spec_fn(SaltedView) -> Seq<u8> {
    |v: SaltedView| v.wire()
}

/// The disclosures as they are read after they were written.
pub open spec fn settled_salted(items: Seq<SaltedView>) -> Seq<SaltedView> {
    Seq::new(items.len(), |i: int| items[i].settled())
}

/// What the disclosures hold, whatever the way they are written.
pub open spec fn salted_contents(items: Seq<SaltedView>) -> Seq<SaltedContent> {
    Seq::new(items.len(), |i: int| items[i].content())
}

/// Whether every disclosure is one that reads back after it was written.
pub open spec fn salted_read_back(items: Seq<SaltedView>) -> bool {
    forall|i: int| 0 <= i < items.len() ==> (#[trigger] items[i]).reads_back()
}

/// Any place is a place to read a disclosure.
pub open spec fn any_place() -> spec_fn(Seq<SaltedView>, Seq<u8>) -> bool {
    |acc: Seq<SaltedView>, s: Seq<u8>| true
}

/// Any place is good everywhere.
pub proof fn lemma_any_place_everywhere(len: LenSz, acc: Seq<SaltedView>, s: Seq<u8>)
    ensures
        everywhere(any_place(), salted_reader(), len, acc, s),
    decreases s.len(),
{
    if crate::laws_lists::wants_more(len, acc.len()) && s.len() != 0 && type_of(s[0])
        != Type::Special {
        match salted_reader()(acc, s) {
            Ok((v, used)) => {
                if 0 < used <= s.len() {
                    lemma_any_place_everywhere(len, acc.push(v), s.skip(used as int));
                }
            },
            Err(_) => {},
        }
    }
}

/// The disclosures one after the other, as the generic container writes
/// them.
pub proof fn lemma_salted_items_joined(items: Seq<SaltedView>)
    ensures
        salted_items_wire(items) == joined(salted_wire(), items),
    decreases items.len(),
{
    if items.len() != 0 {
        lemma_salted_items_joined(items.drop_last());
    }
}

/// Whether a disclosure that was read is one that is written back the way
/// it was read.
pub open spec fn salted_step() -> spec_fn(Seq<SaltedView>, SaltedView) -> bool {
    |acc: Seq<SaltedView>, v: SaltedView| v.reads_back() && v.settled() == v
}

/// Round trip: a list of disclosures that is written reads back as
/// disclosures of the same kinds with the same salts and indices, whatever
/// follows it.
pub proof fn lemma_salted_list_reads_back(items: Seq<SaltedView>, enc: LenEncoding, rest: Seq<u8>)
    requires
        salted_read_back(items),
        count_writable(items.len(), enc),
    ensures
        parse_salted_list(salted_list_wire(items, enc) + rest) == Ok::<
            ((Seq<SaltedView>, LenEncoding), nat),
            ErrorView,
        >(
            (
                (settled_salted(items), enc.settled(items.len() as u64)),
                salted_list_wire(items, enc).len(),
            ),
        ),
        salted_contents(settled_salted(items)) == salted_contents(items),
        salted_read_back(settled_salted(items)),
        salted_list_wire(settled_salted(items), enc.settled(items.len() as u64))
            == salted_list_wire(items, enc),
        (salted_list_wire(items, enc) + rest).skip(salted_list_wire(items, enc).len() as int)
            == rest,
        salted_list_wire(items, enc).len() >= 1,
{
    reveal(parse_salted_list);
    reveal(salted_list_wire);
    let len = enc.head_for(items.len() as u64);
    let ws = chunks(salted_wire(), items);
    let vs = settled_salted(items);
    let s = salted_list_wire(items, enc) + rest;
    lemma_salted_items_joined(items);
    lemma_joined_chunks(salted_wire(), items);
    let body = ws.flatten() + enc.ending() + rest;
    assert(s =~= len_head(MAJOR_ARRAY, len) + body);
    lemma_len_descriptor(enc, len, items.len() as u64);
    lemma_len_head_parses(MAJOR_ARRAY, len, body);
    let none = Seq::<SaltedView>::empty();
    assert forall|i: int, tail: Seq<u8>| 0 <= i < ws.len() implies #[trigger] reads_as(
        salted_reader(),
        none + vs.take(i),
        ws[i],
        tail,
        vs[i],
    ) by {
        reveal(parse_listed);
        items[i].lemma_reads_back(tail);
    }
    lemma_items_read_back(salted_reader(), enc, none, ws, vs, rest);
    assert(none + vs =~= vs);
    assert(s.skip(salted_list_wire(items, enc).len() as int) =~= rest);
    lemma_settled_salted(items);
}

/// Disclosures that read back are written the same way as they are once
/// they were read, and hold the same.
pub proof fn lemma_settled_salted(items: Seq<SaltedView>)
    requires
        salted_read_back(items),
    ensures
        salted_contents(settled_salted(items)) == salted_contents(items),
        salted_read_back(settled_salted(items)),
        salted_items_wire(settled_salted(items)) == salted_items_wire(items),
    decreases items.len(),
{
    let settled = settled_salted(items);
    assert forall|i: int| 0 <= i < items.len() implies (#[trigger] settled[i]).content()
        == items[i].content() && settled[i].reads_back() && settled[i].wire() == items[i].wire() by {
        items[i].lemma_reads_back(Seq::empty());
    }
    assert(salted_contents(settled) =~= salted_contents(items));
    if items.len() != 0 {
        assert(salted_read_back(items.drop_last())) by {
            let fewer = items.drop_last();
            assert forall|i: int| 0 <= i < fewer.len() implies (#[trigger] fewer[i]).reads_back(
            ) by {
                assert(fewer[i] == items[i]);
            }
        }
        lemma_settled_salted(items.drop_last());
        assert(settled.drop_last() =~= settled_salted(items.drop_last()));
        assert(settled.last() == items.last().settled());
    }
}

/// A disclosure that reads back can be written.
pub proof fn lemma_salted_readable_is_encodable(v: SaltedView)
    requires
        v.reads_back(),
    ensures
        v.encodable(),
{
    reveal(crate::int_or_text::IntOrTextView::encodable);
}

/// Byte preservation: a list of disclosures that is read is written back as
/// the bytes it was read from.
pub proof fn lemma_salted_list_written_back(s: Seq<u8>)
    requires
        parse_salted_list(s) is Ok,
    ensures
        ({
            let ((items, enc), n) = parse_salted_list(s)->Ok_0;
            &&& 1 <= n <= s.len()
            &&& salted_read_back(items)
            &&& count_writable(items.len(), enc)
            &&& salted_list_encodable(items)
            &&& settled_salted(items) == items
            &&& enc.settled(items.len() as u64) == enc
            &&& salted_list_wire(items, enc) == s.subrange(0, n as int)
        }),
{
    reveal(parse_salted_list);
    reveal(salted_list_wire);
    let ((items, enc), n) = parse_salted_list(s)->Ok_0;
    let len = parse_len(MAJOR_ARRAY, s)->0;
    let start = 1 + len_width(len);
    lemma_head_written_back(MAJOR_ARRAY, s);
    let body = s.skip(start as int);
    let none = Seq::<SaltedView>::empty();
    lemma_any_place_everywhere(len, none, body);
    assert forall|a: Seq<SaltedView>, t: Seq<u8>| (#[trigger] any_place()(a, t))
        && salted_reader()(a, t) is Ok implies ({
        let (v, used) = salted_reader()(a, t)->Ok_0;
        written_as(salted_wire(), salted_step(), a, t, v, used)
    }) by {
        reveal(parse_listed);
        SaltedView::lemma_written_back(t);
    }
    lemma_items_written_back(
        salted_reader(),
        salted_wire(),
        salted_step(),
        any_place(),
        len,
        none,
        body,
    );
    let (all, m) = parse_items(salted_reader(), len, none, body)->Ok_0;
    assert(joined(salted_wire(), none) =~= Seq::<u8>::empty());
    lemma_salted_items_joined(items);
    lemma_len_descriptor(enc, len, items.len() as u64);
    assert(items == all);
    assert forall|i: int| 0 <= i < items.len() implies (#[trigger] items[i]).reads_back()
        && items[i].settled() == items[i] && items[i].encodable() by {
        assert(salted_step()(all.take(i), all[i]));
        lemma_salted_readable_is_encodable(items[i]);
    }
    assert(settled_salted(items) =~= items);
    assert(s.subrange(0, n as int) =~= s.subrange(0, start as int) + body.subrange(0, m as int));
    assert(enc.head_for(items.len() as u64) == len);
    assert(salted_list_wire(items, enc) =~= s.subrange(0, n as int));
}

} // verus!
