//! The laws of the codec for containers of items: the steps that every
//! container takes, and the map of extension entries.

use crate::anyy::Anyy;
use crate::error::ErrorView;
use crate::int_or_text::{IntOrTextView, KeyIdentity, Keyy};
use crate::laws_values::lemma_len_descriptor;
use crate::ordered_hash_map::{
    distinct_keys, entries_encodable, entries_wire, entry_reader, has_key, parse_entry,
    parse_table, table_wire, EntryView,
};
use crate::serialization::{parse_items, shifted, LenEncoding};
use crate::unprotected::one_if;
use crate::wire::{len_head, len_width, parse_len, type_of, MAJOR_MAP};
use crate::wire_lemmas::{
    lemma_break_parses, lemma_break_written_back, lemma_head_written_back, lemma_len_head_parses,
};
use cbor_event::{LenSz, Type};
use vstd::prelude::*;

verus! {

broadcast use {vstd::seq_lib::lemma_seq_skip_of_skip, vstd::seq_lib::lemma_seq_skip_nothing};

/// Whether the field with the number `index` is among the fields with the
/// numbers `done`.
#[verifier::opaque]
pub open spec fn listed(done: Seq<usize>, index: usize) -> bool {
    done.contains(index)
}

/// No field is among no fields.
pub proof fn lemma_listed_none(index: usize)
    ensures
        !listed(Seq::empty(), index),
{
    reveal(listed);
}

/// A field is among the fields `done` and one more where it is among `done`
/// or is that one.
pub proof fn lemma_listed_push(done: Seq<usize>, next: usize, index: usize)
    ensures
        listed(done.push(next), index) == (listed(done, index) || index == next),
{
    broadcast use vstd::seq_lib::lemma_seq_contains_after_push;

    reveal(listed);
}

/// One where the field with the number `index` is among the fields with the
/// numbers `done`, nothing where it is not.
#[verifier::opaque]
pub open spec fn mark(done: Seq<usize>, index: usize) -> nat {
    one_if(listed(done, index))
}

/// No field is marked among no fields.
pub proof fn lemma_mark_none(index: usize)
    ensures
        mark(Seq::empty(), index) == 0,
{
    reveal(mark);
    lemma_listed_none(index);
}

/// After one more field, that field is marked and the others are as they
/// were.
pub proof fn lemma_mark_push(done: Seq<usize>, next: usize, index: usize)
    requires
        !listed(done, next),
    ensures
        mark(done.push(next), index) == mark(done, index) + if index == next {
            1nat
        } else {
            0nat
        },
{
    reveal(mark);
    lemma_listed_push(done, next, index);
}

/// Whether a container whose head declared `len` holds more after `count`
/// items.
pub open spec fn wants_more(len: LenSz, count: nat) -> bool {
    !(len matches LenSz::Len(n, _) && count >= n)
}

/// Whether the number of items of a container can be written the way the
/// descriptor says: a definite length must fit 64 bits.
pub open spec fn count_writable(count: nat, enc: LenEncoding) -> bool {
    enc == LenEncoding::Indefinite || count <= u64::MAX
}

/// One step of reading what was written: where an item reads from the
/// start of its bytes, the container reads on after it.
pub proof fn lemma_item_read<T>(
    item: spec_fn(Seq<T>, Seq<u8>) -> Result<(T, nat), ErrorView>,
    len: LenSz,
    acc: Seq<T>,
    w: Seq<u8>,
    tail: Seq<u8>,
    v: T,
)
    requires
        item(acc, w + tail) == Ok::<(T, nat), ErrorView>((v, w.len())),
        w.len() >= 1,
        type_of((w + tail)[0]) != Type::Special,
        wants_more(len, acc.len()),
    ensures
        parse_items(item, len, acc, w + tail) == shifted(
            parse_items(item, len, acc.push(v), tail),
            w.len(),
        ),
{
    assert((w + tail).skip(w.len() as int) =~= tail);
}

/// The last step of reading what was written: after as many items as the
/// head declares, or before the break marker, the container ends.
pub proof fn lemma_items_end<T>(
    item: spec_fn(Seq<T>, Seq<u8>) -> Result<(T, nat), ErrorView>,
    enc: LenEncoding,
    acc: Seq<T>,
    rest: Seq<u8>,
)
    requires
        count_writable(acc.len(), enc),
    ensures
        parse_items(item, enc.head_for(acc.len() as u64), acc, enc.ending() + rest) == Ok::<
            (Seq<T>, nat),
            ErrorView,
        >((acc, enc.ending().len())),
{
    if enc == LenEncoding::Indefinite {
        lemma_break_parses(rest);
    }
}

/// One step of writing back what was read: where a container read on, an
/// item was read from the start, and the container read on after it.
pub proof fn lemma_item_was_read<T>(
    item: spec_fn(Seq<T>, Seq<u8>) -> Result<(T, nat), ErrorView>,
    len: LenSz,
    acc: Seq<T>,
    s: Seq<u8>,
)
    requires
        parse_items(item, len, acc, s) is Ok,
        wants_more(len, acc.len()),
        s.len() == 0 || type_of(s[0]) != Type::Special,
    ensures
        item(acc, s) is Ok,
        ({
            let (v, used) = item(acc, s)->Ok_0;
            let (all, n) = parse_items(item, len, acc, s)->Ok_0;
            &&& 0 < used <= s.len()
            &&& used <= n
            &&& parse_items(item, len, acc.push(v), s.skip(used as int)) == Ok::<
                (Seq<T>, nat),
                ErrorView,
            >((all, (n - used) as nat))
        }),
{
}

/// The last step of writing back what was read: where a container ended,
/// it ended with what a container that is written ends with.
pub proof fn lemma_items_ended<T>(
    item: spec_fn(Seq<T>, Seq<u8>) -> Result<(T, nat), ErrorView>,
    len: LenSz,
    acc: Seq<T>,
    s: Seq<u8>,
)
    requires
        parse_items(item, len, acc, s) is Ok,
        !wants_more(len, acc.len()) || (s.len() != 0 && type_of(s[0]) == Type::Special),
        len matches LenSz::Len(n, _) ==> acc.len() <= n,
    ensures
        ({
            let (all, n) = parse_items(item, len, acc, s)->Ok_0;
            &&& all == acc
            &&& n <= s.len()
            &&& s.subrange(0, n as int) == LenEncoding::of(len).ending()
            &&& len matches LenSz::Len(m, _) ==> all.len() == m
        }),
{
    let (all, n) = parse_items(item, len, acc, s)->Ok_0;
    if wants_more(len, acc.len()) {
        lemma_break_written_back(s);
    } else {
        assert(s.subrange(0, 0) =~= LenEncoding::of(len).ending());
    }
}

/// The bytes that an entry is written as: its key and its value.
pub open spec fn entry_wire(e: EntryView) -> Seq<u8> {
    e.0.wire() + e.1.wire()
}

/// The entry as it is read after it was written.
pub open spec fn settled_entry(e: EntryView) -> EntryView {
    (e.0.settled(), e.1.settled())
}

/// The entries as they are read after they were written.
pub open spec fn settled_entries(entries: Seq<EntryView>) -> Seq<EntryView> {
    Seq::new(entries.len(), |i: int| settled_entry(entries[i]))
}

/// The keys of the entries, whatever the way they are written.
pub open spec fn entry_keys(entries: Seq<EntryView>) -> Seq<KeyIdentity> {
    Seq::new(entries.len(), |i: int| entries[i].0.identity())
}

/// Whether the entries are such that read back after they were written:
/// every key is a text that can be written, and no key stands twice.
pub open spec fn entries_read_back(entries: Seq<EntryView>) -> bool {
    &&& distinct_keys(entries)
    &&& forall|i: int| 0 <= i < entries.len() ==> (#[trigger] entries[i]).0.reads_back()
}

/// The entries one after the other are the first entry and then the others.
pub proof fn lemma_entries_wire_front(entries: Seq<EntryView>)
    requires
        entries.len() >= 1,
    ensures
        entries_wire(entries) == entry_wire(entries[0]) + entries_wire(entries.skip(1)),
    decreases entries.len(),
{
    if entries.len() == 1 {
        assert(entries.drop_last() =~= Seq::<EntryView>::empty());
        assert(entries.skip(1) =~= Seq::<EntryView>::empty());
        assert(entries_wire(entries) =~= entry_wire(entries[0]) + entries_wire(entries.skip(1)));
    } else {
        lemma_entries_wire_front(entries.drop_last());
        assert(entries.drop_last().skip(1) =~= entries.skip(1).drop_last());
        assert(entries.drop_last()[0] == entries[0]);
        assert(entries.skip(1).last() == entries.last());
        assert(entries_wire(entries) =~= entry_wire(entries[0]) + entries_wire(entries.skip(1)));
    }
}

/// Entries that are written after other entries are written after them.
pub proof fn lemma_entries_wire_push(entries: Seq<EntryView>, e: EntryView)
    ensures
        entries_wire(entries.push(e)) == entries_wire(entries) + entry_wire(e),
{
    assert(entries.push(e).drop_last() =~= entries);
    assert(entries_wire(entries.push(e)) =~= entries_wire(entries) + entry_wire(e));
}

/// An entry that is written reads back after entries that do not hold its
/// key.
pub proof fn lemma_entry_reads_back(acc: Seq<EntryView>, e: EntryView, tail: Seq<u8>)
    requires
        e.0.reads_back(),
        !has_key(acc, e.0.identity()),
    ensures
        parse_entry(acc, entry_wire(e) + tail) == Ok::<(EntryView, nat), ErrorView>(
            (settled_entry(e), entry_wire(e).len()),
        ),
        entry_wire(e).len() >= 1,
        type_of((entry_wire(e) + tail)[0]) != Type::Special,
        settled_entry(e).0.identity() == e.0.identity(),
        settled_entry(e).0.reads_back(),
        entry_wire(settled_entry(e)) == entry_wire(e),
{
    reveal(parse_entry);
    let s = entry_wire(e) + tail;
    let after_key = e.1.wire() + tail;
    assert(s =~= e.0.wire() + after_key);
    e.0.lemma_reads_back(Keyy::name(), after_key);
    e.1.lemma_reads_back(tail);
}

/// An entry that is read is written back as the bytes it was read from.
pub proof fn lemma_entry_written_back(acc: Seq<EntryView>, s: Seq<u8>)
    requires
        parse_entry(acc, s) is Ok,
    ensures
        ({
            let (e, n) = parse_entry(acc, s)->Ok_0;
            &&& 1 <= n <= s.len()
            &&& e.0.reads_back()
            &&& e.0.encodable()
            &&& !has_key(acc, e.0.identity())
            &&& settled_entry(e) == e
            &&& entry_wire(e) == s.subrange(0, n as int)
        }),
{
    reveal(parse_entry);
    IntOrTextView::lemma_written_back(Keyy::name(), s);
    let (key, a) = IntOrTextView::parse(Keyy::name(), s)->Ok_0;
    Anyy::lemma_written_back(s.skip(a as int));
    let (value, b) = Anyy::parse(s.skip(a as int))->Ok_0;
    assert(s.subrange(0, (a + b) as int) =~= s.subrange(0, a as int) + s.skip(a as int).subrange(
        0,
        b as int,
    ));
}

/// Entries that are written read back after entries that hold none of
/// their keys.
pub proof fn lemma_entries_read_back(
    enc: LenEncoding,
    acc: Seq<EntryView>,
    entries: Seq<EntryView>,
    rest: Seq<u8>,
)
    requires
        entries_read_back(acc + entries),
        count_writable(acc.len() + entries.len(), enc),
    ensures
        parse_items(
            entry_reader(),
            enc.head_for((acc.len() + entries.len()) as u64),
            acc,
            entries_wire(entries) + enc.ending() + rest,
        ) == Ok::<(Seq<EntryView>, nat), ErrorView>(
            (acc + settled_entries(entries), entries_wire(entries).len() + enc.ending().len()),
        ),
    decreases entries.len(),
{
    let len = enc.head_for((acc.len() + entries.len()) as u64);
    let s = entries_wire(entries) + enc.ending() + rest;
    if entries.len() == 0 {
        assert(s =~= enc.ending() + rest);
        assert(acc + settled_entries(entries) =~= acc);
        lemma_items_end(entry_reader(), enc, acc, rest);
    } else {
        let e = entries[0];
        let others = entries.skip(1);
        let tail = entries_wire(others) + enc.ending() + rest;
        lemma_entries_wire_front(entries);
        assert(s =~= entry_wire(e) + tail);
        let all = acc + entries;
        assert(all[acc.len() as int] == e);
        assert(!has_key(acc, e.0.identity())) by {
            if has_key(acc, e.0.identity()) {
                let i = choose|i: int| 0 <= i < acc.len() && (#[trigger] acc[i]).0.identity()
                    == e.0.identity();
                assert(all[i] == acc[i]);
            }
        }
        lemma_entry_reads_back(acc, e, tail);
        let next = acc.push(settled_entry(e));
        assert(entries_read_back(next + others)) by {
            let after = next + others;
            assert forall|i: int| 0 <= i < after.len() implies (#[trigger] after[i]).0.reads_back()
                && after[i].0.identity() == all[i].0.identity() by {
                if i < acc.len() {
                    assert(after[i] == all[i]);
                } else if i == acc.len() {
                } else {
                    assert(after[i] == all[i]);
                }
            }
            assert forall|i: int, j: int| 0 <= i < j < after.len() implies (
            #[trigger] after[i]).0.identity() != (#[trigger] after[j]).0.identity() by {
                assert(after[i].0.identity() == all[i].0.identity());
                assert(after[j].0.identity() == all[j].0.identity());
            }
        }
        lemma_entries_read_back(enc, next, others, rest);
        assert(next.len() + others.len() == acc.len() + entries.len());
        lemma_item_read(entry_reader(), len, acc, entry_wire(e), tail, settled_entry(e));
        assert(next + settled_entries(others) =~= acc + settled_entries(entries));
    }
}

/// Whether the map of extension entries is one that reads back after it was
/// written the way the descriptor says.
pub open spec fn table_reads_back(entries: Seq<EntryView>, enc: LenEncoding) -> bool {
    &&& entries_read_back(entries)
    &&& count_writable(entries.len(), enc)
}

/// Round trip: a map of extension entries that is written reads back with
/// the same keys in the same order, whatever follows it.
pub proof fn lemma_table_reads_back(entries: Seq<EntryView>, enc: LenEncoding, rest: Seq<u8>)
    requires
        table_reads_back(entries, enc),
    ensures
        parse_table(table_wire(entries, enc) + rest) == Ok::<
            ((Seq<EntryView>, LenEncoding), nat),
            ErrorView,
        >(
            (
                (settled_entries(entries), enc.settled(entries.len() as u64)),
                table_wire(entries, enc).len(),
            ),
        ),
        entry_keys(settled_entries(entries)) == entry_keys(entries),
        table_reads_back(settled_entries(entries), enc.settled(entries.len() as u64)),
        table_wire(settled_entries(entries), enc.settled(entries.len() as u64)) == table_wire(
            entries,
            enc,
        ),
        (table_wire(entries, enc) + rest).skip(table_wire(entries, enc).len() as int) == rest,
{
    reveal(parse_table);
    reveal(table_wire);
    let len = enc.head_for(entries.len() as u64);
    let s = table_wire(entries, enc) + rest;
    let body = entries_wire(entries) + enc.ending() + rest;
    assert(s =~= len_head(MAJOR_MAP, len) + body);
    lemma_len_descriptor(enc, len, entries.len() as u64);
    lemma_len_head_parses(MAJOR_MAP, len, body);
    assert(Seq::<EntryView>::empty() + entries =~= entries);
    lemma_entries_read_back(enc, Seq::empty(), entries, rest);
    assert(Seq::<EntryView>::empty() + settled_entries(entries) =~= settled_entries(entries));
    assert(s.skip(table_wire(entries, enc).len() as int) =~= rest);
    lemma_settled_entries(entries);
}

/// Entries that read back are written the same way as they are once they
/// were read, with the same keys.
pub proof fn lemma_settled_entries(entries: Seq<EntryView>)
    requires
        entries_read_back(entries),
    ensures
        entry_keys(settled_entries(entries)) == entry_keys(entries),
        entries_read_back(settled_entries(entries)),
        entries_wire(settled_entries(entries)) == entries_wire(entries),
    decreases entries.len(),
{
    let settled = settled_entries(entries);
    assert forall|i: int| 0 <= i < entries.len() implies (#[trigger] settled[i]).0.identity()
        == entries[i].0.identity() && settled[i].0.reads_back() && entry_wire(settled[i])
        == entry_wire(entries[i]) by {
        lemma_entry_reads_back(Seq::empty(), entries[i], Seq::empty());
    }
    assert(entry_keys(settled) =~= entry_keys(entries));
    assert forall|i: int, j: int| 0 <= i < j < settled.len() implies (
    #[trigger] settled[i]).0.identity() != (#[trigger] settled[j]).0.identity() by {
        assert(entries[i].0.identity() != entries[j].0.identity());
    }
    if entries.len() != 0 {
        assert(entries_read_back(entries.drop_last())) by {
            let fewer = entries.drop_last();
            assert forall|i: int| 0 <= i < fewer.len() implies (#[trigger] fewer[i]).0.reads_back(
            ) by {
                assert(fewer[i] == entries[i]);
            }
            assert forall|i: int, j: int| 0 <= i < j < fewer.len() implies (
            #[trigger] fewer[i]).0.identity() != (#[trigger] fewer[j]).0.identity() by {
                assert(fewer[i] == entries[i]);
                assert(fewer[j] == entries[j]);
            }
        }
        lemma_settled_entries(entries.drop_last());
        assert(settled.drop_last() =~= settled_entries(entries.drop_last()));
        assert(settled.last() == settled_entry(entries.last()));
        assert(entry_wire(settled.last()) == entry_wire(entries.last()));
        lemma_entries_wire_push(settled.drop_last(), settled.last());
        lemma_entries_wire_push(entries.drop_last(), entries.last());
        assert(settled.drop_last().push(settled.last()) =~= settled);
        assert(entries.drop_last().push(entries.last()) =~= entries);
    }
}

/// Entries that are read are written back as the bytes they were read from.
pub proof fn lemma_entries_written_back(len: LenSz, acc: Seq<EntryView>, s: Seq<u8>)
    requires
        parse_items(entry_reader(), len, acc, s) is Ok,
        len matches LenSz::Len(n, _) ==> acc.len() <= n,
        distinct_keys(acc),
        forall|i: int| 0 <= i < acc.len() ==> (#[trigger] acc[i]).0.reads_back(),
        forall|i: int| 0 <= i < acc.len() ==> settled_entry(#[trigger] acc[i]) == acc[i],
    ensures
        ({
            let (all, n) = parse_items(entry_reader(), len, acc, s)->Ok_0;
            &&& n <= s.len()
            &&& distinct_keys(all)
            &&& forall|i: int| 0 <= i < all.len() ==> (#[trigger] all[i]).0.reads_back()
            &&& forall|i: int| 0 <= i < all.len() ==> settled_entry(#[trigger] all[i]) == all[i]
            &&& len matches LenSz::Len(m, _) ==> all.len() == m
            &&& entries_wire(all) + LenEncoding::of(len).ending() == entries_wire(acc)
                + s.subrange(0, n as int)
        }),
    decreases s.len(),
{
    let (all, n) = parse_items(entry_reader(), len, acc, s)->Ok_0;
    if wants_more(len, acc.len()) && (s.len() == 0 || type_of(s[0]) != Type::Special) {
        lemma_item_was_read(entry_reader(), len, acc, s);
        lemma_entry_written_back(acc, s);
        let (e, used) = parse_entry(acc, s)->Ok_0;
        let next = acc.push(e);
        assert(distinct_keys(next)) by {
            assert forall|i: int, j: int| 0 <= i < j < next.len() implies (
            #[trigger] next[i]).0.identity() != (#[trigger] next[j]).0.identity() by {
                if j == acc.len() {
                    assert(next[i] == acc[i]);
                } else {
                    assert(next[i] == acc[i]);
                    assert(next[j] == acc[j]);
                }
            }
        }
        assert forall|i: int| 0 <= i < next.len() implies (#[trigger] next[i]).0.reads_back()
            && settled_entry(next[i]) == next[i] by {
            if i < acc.len() {
                assert(next[i] == acc[i]);
            }
        }
        lemma_entries_written_back(len, next, s.skip(used as int));
        lemma_entries_wire_push(acc, e);
        assert(s.subrange(0, n as int) =~= s.subrange(0, used as int) + s.skip(
            used as int,
        ).subrange(0, (n - used) as int));
        assert(entries_wire(all) + LenEncoding::of(len).ending() =~= entries_wire(acc)
            + s.subrange(0, n as int));
    } else {
        lemma_items_ended(entry_reader(), len, acc, s);
        assert(entries_wire(all) + LenEncoding::of(len).ending() =~= entries_wire(acc)
            + s.subrange(0, n as int));
    }
}

/// Byte preservation: a map of extension entries that is read is written
/// back as the bytes it was read from.
pub proof fn lemma_table_written_back(s: Seq<u8>)
    requires
        parse_table(s) is Ok,
    ensures
        ({
            let ((entries, enc), n) = parse_table(s)->Ok_0;
            &&& 1 <= n <= s.len()
            &&& table_reads_back(entries, enc)
            &&& entries_encodable(entries)
            &&& settled_entries(entries) == entries
            &&& enc.settled(entries.len() as u64) == enc
            &&& table_wire(entries, enc) == s.subrange(0, n as int)
        }),
{
    reveal(parse_table);
    reveal(table_wire);
    let ((entries, enc), n) = parse_table(s)->Ok_0;
    let len = parse_len(MAJOR_MAP, s)->0;
    let start = 1 + len_width(len);
    lemma_head_written_back(MAJOR_MAP, s);
    let body = s.skip(start as int);
    lemma_entries_written_back(len, Seq::empty(), body);
    let (all, m) = parse_items(entry_reader(), len, Seq::empty(), body)->Ok_0;
    assert(entries_wire(Seq::<EntryView>::empty()) =~= Seq::<u8>::empty());
    lemma_len_descriptor(enc, len, entries.len() as u64);
    assert(settled_entries(entries) =~= entries);
    assert(s.subrange(0, n as int) =~= s.subrange(0, start as int) + body.subrange(0, m as int));
    assert(table_wire(entries, enc) =~= s.subrange(0, n as int)) by {
        assert(enc.head_for(entries.len() as u64) == len);
    }
    assert(entries_encodable(entries)) by {
        assert forall|i: int| 0 <= i < entries.len() implies (#[trigger] entries[i]).0.encodable(
        ) by {
            crate::laws_lists::lemma_readable_is_encodable(entries[i].0);
        }
    }
}

/// A key that reads back can be written.
pub proof fn lemma_readable_is_encodable(key: IntOrTextView)
    requires
        key.reads_back(),
    ensures
        key.encodable(),
{
    reveal(IntOrTextView::encodable);
}

/// The items one after the other, each as `wire` writes it.
pub open spec fn joined<T>(wire: spec_fn(T) -> Seq<u8>, items: Seq<T>) -> Seq<u8>
    decreases items.len(),
{
    if items.len() == 0 {
        Seq::empty()
    } else {
        joined(wire, items.drop_last()) + wire(items.last())
    }
}

/// Items that are written after other items are written after them.
pub proof fn lemma_joined_push<T>(wire: spec_fn(T) -> Seq<u8>, items: Seq<T>, v: T)
    ensures
        joined(wire, items.push(v)) == joined(wire, items) + wire(v),
{
    assert(items.push(v).drop_last() =~= items);
}

/// The items one after the other are the first item and then the others.
pub proof fn lemma_joined_front<T>(wire: spec_fn(T) -> Seq<u8>, items: Seq<T>)
    requires
        items.len() >= 1,
    ensures
        joined(wire, items) == wire(items[0]) + joined(wire, items.skip(1)),
    decreases items.len(),
{
    if items.len() == 1 {
        assert(items.drop_last() =~= Seq::<T>::empty());
        assert(items.skip(1) =~= Seq::<T>::empty());
        assert(joined(wire, items) =~= wire(items[0]) + joined(wire, items.skip(1)));
    } else {
        lemma_joined_front(wire, items.drop_last());
        assert(items.drop_last().skip(1) =~= items.skip(1).drop_last());
        assert(items.drop_last()[0] == items[0]);
        assert(items.skip(1).last() == items.last());
        assert(joined(wire, items) =~= wire(items[0]) + joined(wire, items.skip(1)));
    }
}

/// Whether the bytes `w`, in front of the bytes `tail`, read as the item `v`
/// after the items `acc`, and as an item rather than the end of a
/// container.
pub open spec fn reads_as<T>(
    item: spec_fn(Seq<T>, Seq<u8>) -> Result<(T, nat), ErrorView>,
    acc: Seq<T>,
    w: Seq<u8>,
    tail: Seq<u8>,
    v: T,
) -> bool {
    &&& item(acc, w + tail) == Ok::<(T, nat), ErrorView>((v, w.len()))
    &&& w.len() >= 1
    &&& type_of((w + tail)[0]) != Type::Special
}

/// Reading what was written: where each of the bytes `ws` reads as the
/// item of `vs` at its place after the items before it, whatever follows,
/// the bytes one after the other and the ending of a container read as the
/// items `vs`.
pub proof fn lemma_items_read_back<T>(
    item: spec_fn(Seq<T>, Seq<u8>) -> Result<(T, nat), ErrorView>,
    enc: LenEncoding,
    acc: Seq<T>,
    ws: Seq<Seq<u8>>,
    vs: Seq<T>,
    rest: Seq<u8>,
)
    requires
        ws.len() == vs.len(),
        count_writable(acc.len() + vs.len(), enc),
        forall|i: int, tail: Seq<u8>|
            0 <= i < ws.len() ==> #[trigger] reads_as(item, acc + vs.take(i), ws[i], tail, vs[i]),
    ensures
        parse_items(
            item,
            enc.head_for((acc.len() + vs.len()) as u64),
            acc,
            ws.flatten() + enc.ending() + rest,
        ) == Ok::<(Seq<T>, nat), ErrorView>(
            (acc + vs, ws.flatten().len() + enc.ending().len()),
        ),
    decreases ws.len(),
{
    let len = enc.head_for((acc.len() + vs.len()) as u64);
    let s = ws.flatten() + enc.ending() + rest;
    if ws.len() == 0 {
        assert(ws.flatten() =~= Seq::<u8>::empty());
        assert(s =~= enc.ending() + rest);
        assert(acc + vs =~= acc);
        lemma_items_end(item, enc, acc, rest);
    } else {
        let w = ws[0];
        let v = vs[0];
        let tail = ws.skip(1).flatten() + enc.ending() + rest;
        assert(ws.flatten() =~= w + ws.skip(1).flatten()) by {
            assert(ws =~= seq![w] + ws.skip(1));
            vstd::seq_lib::lemma_flatten_concat(seq![w], ws.skip(1));
            assert(seq![w].flatten() =~= w) by {
                assert(seq![w].drop_first() =~= Seq::<Seq<u8>>::empty());
                assert(seq![w].first() == w);
            }
        }
        assert(s =~= w + tail);
        assert(acc + vs.take(0) =~= acc);
        assert(reads_as(item, acc + vs.take(0), ws[0], tail, vs[0]));
        let next = acc.push(v);
        assert forall|i: int, t: Seq<u8>| 0 <= i < ws.skip(1).len() implies #[trigger] reads_as(
            item,
            next + vs.skip(1).take(i),
            ws.skip(1)[i],
            t,
            vs.skip(1)[i],
        ) by {
            assert(next + vs.skip(1).take(i) =~= acc + vs.take(i + 1));
            assert(reads_as(item, acc + vs.take(i + 1), ws[i + 1], t, vs[i + 1]));
        }
        lemma_items_read_back(item, enc, next, ws.skip(1), vs.skip(1), rest);
        assert(next.len() + vs.skip(1).len() == acc.len() + vs.len());
        lemma_item_read(item, len, acc, w, tail, v);
        assert(next + vs.skip(1) =~= acc + vs);
    }
}

/// Whether `good` holds at every place where an item is read in a
/// container whose head declared `len`, after the items `acc`.
pub open spec fn everywhere<T>(
    good: spec_fn(Seq<T>, Seq<u8>) -> bool,
    item: spec_fn(Seq<T>, Seq<u8>) -> Result<(T, nat), ErrorView>,
    len: LenSz,
    acc: Seq<T>,
    s: Seq<u8>,
) -> bool
    decreases s.len(),
{
    if !wants_more(len, acc.len()) || s.len() == 0 || type_of(s[0]) == Type::Special {
        true
    } else {
        match item(acc, s) {
            Ok((v, used)) => if 0 < used <= s.len() {
                good(acc, s) && everywhere(good, item, len, acc.push(v), s.skip(used as int))
            } else {
                true
            },
            Err(_) => true,
        }
    }
}

/// Whether the item `v`, read from the start of `s` after the items `acc`,
/// took `used` bytes that are the bytes that `wire` writes it as, and stands
/// in the relation `step` to the items before it.
pub open spec fn written_as<T>(
    wire: spec_fn(T) -> Seq<u8>,
    step: spec_fn(Seq<T>, T) -> bool,
    acc: Seq<T>,
    s: Seq<u8>,
    v: T,
    used: nat,
) -> bool {
    &&& used <= s.len()
    &&& wire(v) == s.subrange(0, used as int)
    &&& step(acc, v)
}

/// Writing back what was read: where every item that is read at a good
/// place took the bytes that it is written as, the items that a container
/// read at good places are written back as the bytes they were read from,
/// and each stands in the relation `step` to the items before it.
pub proof fn lemma_items_written_back<T>(
    item: spec_fn(Seq<T>, Seq<u8>) -> Result<(T, nat), ErrorView>,
    wire: spec_fn(T) -> Seq<u8>,
    step: spec_fn(Seq<T>, T) -> bool,
    good: spec_fn(Seq<T>, Seq<u8>) -> bool,
    len: LenSz,
    acc: Seq<T>,
    s: Seq<u8>,
)
    requires
        parse_items(item, len, acc, s) is Ok,
        len matches LenSz::Len(n, _) ==> acc.len() <= n,
        everywhere(good, item, len, acc, s),
        forall|a: Seq<T>, t: Seq<u8>|
            (#[trigger] good(a, t)) && item(a, t) is Ok ==> ({
                let (v, used) = item(a, t)->Ok_0;
                written_as(wire, step, a, t, v, used)
            }),
    ensures
        ({
            let (all, n) = parse_items(item, len, acc, s)->Ok_0;
            &&& n <= s.len()
            &&& acc.len() <= all.len()
            &&& all.take(acc.len() as int) == acc
            &&& forall|i: int| acc.len() <= i < all.len() ==> #[trigger] step(all.take(i), all[i])
            &&& len matches LenSz::Len(m, _) ==> all.len() == m
            &&& joined(wire, all) + LenEncoding::of(len).ending() == joined(wire, acc)
                + s.subrange(0, n as int)
        }),
    decreases s.len(),
{
    let (all, n) = parse_items(item, len, acc, s)->Ok_0;
    if wants_more(len, acc.len()) && (s.len() == 0 || type_of(s[0]) != Type::Special) {
        lemma_item_was_read(item, len, acc, s);
        let (v, used) = item(acc, s)->Ok_0;
        assert(good(acc, s));
        assert(written_as(wire, step, acc, s, v, used));
        let next = acc.push(v);
        lemma_items_written_back(item, wire, step, good, len, next, s.skip(used as int));
        lemma_joined_push(wire, acc, v);
        assert(all.take(acc.len() as int) =~= next.take(acc.len() as int));
        assert(next.take(acc.len() as int) =~= acc);
        assert(all[acc.len() as int] == v) by {
            assert(all.take(next.len() as int)[acc.len() as int] == next[acc.len() as int]);
        }
        assert(s.subrange(0, n as int) =~= s.subrange(0, used as int) + s.skip(
            used as int,
        ).subrange(0, (n - used) as int));
        assert(joined(wire, all) + LenEncoding::of(len).ending() =~= joined(wire, acc)
            + s.subrange(0, n as int));
        assert forall|i: int| acc.len() <= i < all.len() implies #[trigger] step(
            all.take(i),
            all[i],
        ) by {
            if i == acc.len() {
                assert(all.take(i) == acc);
            }
        }
    } else {
        lemma_items_ended(item, len, acc, s);
        assert(all.take(acc.len() as int) =~= acc);
        assert(joined(wire, all) + LenEncoding::of(len).ending() =~= joined(wire, acc)
            + s.subrange(0, n as int));
    }
}

/// The bytes that each of the items is written as.
pub open spec fn chunks<T>(wire: spec_fn(T) -> Seq<u8>, items: Seq<T>) -> Seq<Seq<u8>> {
    Seq::new(items.len(), |i: int| wire(items[i]))
}

/// The items one after the other are the bytes that each is written as, one
/// after the other.
pub proof fn lemma_joined_chunks<T>(wire: spec_fn(T) -> Seq<u8>, items: Seq<T>)
    ensures
        joined(wire, items) == chunks(wire, items).flatten(),
    decreases items.len(),
{
    if items.len() == 0 {
        assert(chunks(wire, items) =~= Seq::<Seq<u8>>::empty());
    } else {
        lemma_joined_chunks(wire, items.drop_last());
        let before = chunks(wire, items.drop_last());
        assert(chunks(wire, items) =~= before.push(wire(items.last())));
        before.lemma_flatten_push(wire(items.last()));
    }
}

/// What is left of a list in which nothing stands twice holds nothing twice.
pub proof fn lemma_filter_no_duplicates<A>(list: Seq<A>, keep: spec_fn(A) -> bool)
    requires
        list.no_duplicates(),
    ensures
        list.filter(keep).no_duplicates(),
    decreases list.len(),
{
    reveal(Seq::filter);
    if list.len() != 0 {
        let fewer = list.drop_last();
        assert(fewer.no_duplicates());
        lemma_filter_no_duplicates(fewer, keep);
        if keep(list.last()) {
            let kept = fewer.filter(keep);
            if kept.contains(list.last()) {
                fewer.lemma_filter_contains_rev(keep, list.last());
                let i = choose|i: int| 0 <= i < fewer.len() && fewer[i] == list.last();
                assert(list[i] == list[list.len() - 1]);
            }
            assert forall|a: int, b: int|
                0 <= a < kept.push(list.last()).len() && 0 <= b < kept.push(list.last()).len() && a
                    != b implies kept.push(list.last())[a] != kept.push(list.last())[b] by {
                if a < kept.len() && b < kept.len() {
                } else if a < kept.len() {
                    assert(kept.contains(kept[a]));
                } else {
                    assert(kept.contains(kept[b]));
                }
            }
        }
    }
}

/// What is left of a list of which everything is kept is the list.
pub proof fn lemma_filter_all<A>(list: Seq<A>, keep: spec_fn(A) -> bool)
    requires
        forall|i: int| 0 <= i < list.len() ==> keep(#[trigger] list[i]),
    ensures
        list.filter(keep) == list,
    decreases list.len(),
{
    reveal(Seq::filter);
    if list.len() != 0 {
        let fewer = list.drop_last();
        assert forall|i: int| 0 <= i < fewer.len() implies keep(#[trigger] fewer[i]) by {
            assert(fewer[i] == list[i]);
        }
        lemma_filter_all(fewer, keep);
        assert(keep(list[list.len() - 1]));
        assert(fewer.push(list.last()) =~= list);
    }
}

} // verus!
