//! The laws of the codec for the unprotected header.

use crate::error::ErrorView;
use crate::laws_canonical::{
    entries_fresh, entries_shortest, lemma_fresh_entries, lemma_fresh_salted, salted_fresh,
    salted_shortest,
};

use crate::laws_lists::{
    chunks, count_writable, entry_keys, everywhere, joined, lemma_filter_all,
    lemma_filter_no_duplicates, lemma_items_read_back, lemma_items_written_back,
    lemma_joined_chunks, lemma_joined_push, lemma_listed_none, lemma_listed_push, lemma_mark_none,
    lemma_mark_push, lemma_table_reads_back, lemma_table_written_back, listed, mark, reads_as,
    settled_entries, table_reads_back, written_as,
};
use crate::laws_salted_list::{
    lemma_salted_list_reads_back, lemma_salted_list_written_back, salted_contents,
    salted_read_back, settled_salted,
};
use crate::laws_values::{
    lemma_bytes_read_back, lemma_bytes_written_back, lemma_fitting, lemma_len_descriptor,
    lemma_text_reads_back, lemma_text_written_back, len_writable, utf8_len,
};
use crate::ordered_hash_map::{entries_encodable, table_wire};
use crate::salted::{salted_list_encodable, salted_list_wire};
use crate::serialization::{
    bytes_encodable, bytes_wire, claim, fitting, parse_items, parse_text, text_encodable,
    text_wire, LenEncoding, StringEncodingView,
};
use crate::unprotected::one_if;
use crate::unprotected::{
    unprotected_reader, UnprotectedEncodingView, UnprotectedScan, UnprotectedView,
};
use crate::wire::{
    head, len_head, len_width, parse_arg, parse_len, shortest, type_of, widest, width, MAJOR_MAP,
    MAJOR_UINT,
};
use crate::wire_lemmas::{
    lemma_head_parses, lemma_head_written_back, lemma_len_head_parses, lemma_type_of_major,
};
use cbor_event::{LenSz, Sz, Type};
use vstd::prelude::*;

verus! {

broadcast use {vstd::seq_lib::lemma_seq_skip_of_skip, vstd::seq_lib::lemma_seq_skip_nothing};

impl UnprotectedScan {
    /// The order in which the fields were read.
    pub open spec fn order(self) -> Seq<usize> {
        self.encodings.orig_deser_order
    }

    /// Whether the field with the number `index` has been read.
    pub open spec fn has(self, index: usize) -> bool {
        if index == 0 {
            self.sd_claims is Some
        } else if index == 1 {
            self.sd_kbt is Some
        } else if index == 2 {
            self.custom is Some
        } else {
            false
        }
    }

    /// How many fields have been read.
    pub open spec fn present_count(self) -> nat {
        one_if(self.sd_claims is Some) + one_if(self.sd_kbt is Some) + one_if(self.custom is Some)
    }

    /// The bytes that the field with the number `index` is written as: its
    /// key and its value, or nothing for a field that has not been read.
    pub open spec fn field_wire(self, index: usize) -> Seq<u8> {
        if index == 0 {
            match self.sd_claims {
                Some(v) => head(MAJOR_UINT, 1111, fitting(1111, self.encodings.sd_claims_key_encoding)) + salted_list_wire(v, self.encodings.sd_claims_encoding),
                None => Seq::empty(),
            }
        } else if index == 1 {
            match self.sd_kbt {
                Some(v) => head(MAJOR_UINT, 1112, fitting(1112, self.encodings.sd_kbt_key_encoding)) + bytes_wire(v, self.encodings.sd_kbt_encoding),
                None => Seq::empty(),
            }
        } else if index == 2 {
            match self.custom {
                Some(v) => text_wire("custom"@, self.encodings.custom_key_encoding) + table_wire(v, self.encodings.custom_encoding),
                None => Seq::empty(),
            }
        } else {
            Seq::empty()
        }
    }

    /// Whether the field with the number `index` can be written as it
    /// stands.
    pub open spec fn field_encodable(self, index: usize) -> bool {
        if index == 0 {
            self.sd_claims matches Some(v) ==> salted_list_encodable(v)
        } else if index == 1 {
            self.sd_kbt matches Some(v) ==> bytes_encodable(v, self.encodings.sd_kbt_encoding)
        } else if index == 2 {
            self.custom matches Some(v) ==> text_encodable("custom"@, self.encodings.custom_key_encoding) && entries_encodable(v)
        } else {
            true
        }
    }

    /// Whether the field with the number `index`, if it has been read, is one
    /// that reads back after it was written.
    pub open spec fn field_readable(self, index: usize) -> bool {
        if index == 0 {
            self.sd_claims matches Some(v) ==> salted_read_back(v) && count_writable(v.len(), self.encodings.sd_claims_encoding)
        } else if index == 1 {
            self.sd_kbt matches Some(v) ==> len_writable(v.len(), self.encodings.sd_kbt_encoding) && bytes_encodable(v, self.encodings.sd_kbt_encoding)
        } else if index == 2 {
            self.custom matches Some(v) ==> len_writable(utf8_len("custom"@), self.encodings.custom_key_encoding) && text_encodable("custom"@, self.encodings.custom_key_encoding) && table_reads_back(v, self.encodings.custom_encoding)
        } else {
            true
        }
    }

    /// Whether the field with the number `index` is the same in both
    /// states: its value and the way it is written.
    pub open spec fn same_field(self, other: UnprotectedScan, index: usize) -> bool {
        if index == 0 {
            &&& self.sd_claims == other.sd_claims
            &&& self.encodings.sd_claims_encoding == other.encodings.sd_claims_encoding
            &&& self.encodings.sd_claims_key_encoding == other.encodings.sd_claims_key_encoding
        } else if index == 1 {
            &&& self.sd_kbt == other.sd_kbt
            &&& self.encodings.sd_kbt_encoding == other.encodings.sd_kbt_encoding
            &&& self.encodings.sd_kbt_key_encoding == other.encodings.sd_kbt_key_encoding
        } else if index == 2 {
            &&& self.custom == other.custom
            &&& self.encodings.custom_encoding == other.encodings.custom_encoding
            &&& self.encodings.custom_key_encoding == other.encodings.custom_key_encoding
        } else {
            true
        }
    }

    /// The bytes of the entry that was read last.
    pub open spec fn last_wire(self) -> Seq<u8> {
        if self.order().len() == 0 {
            Seq::empty()
        } else {
            self.field_wire(self.order().last())
        }
    }

    /// The fields with the given numbers, one after the other.
    pub open spec fn fields_wire(self, order: Seq<usize>) -> Seq<u8>
        decreases order.len(),
    {
        if order.len() == 0 {
            Seq::empty()
        } else {
            self.fields_wire(order.drop_last()) + self.field_wire(order.last())
        }
    }

    /// Whether `next` is this state after one more entry was read: a field
    /// that had not been read has been read and can be written, and the
    /// other fields are as they were.
    pub open spec fn extends(self, next: UnprotectedScan) -> bool {
        let index = next.order().last();
        &&& next.order().len() == self.order().len() + 1
        &&& next.order() == self.order().push(index)
        &&& index < 3
        &&& !self.has(index)
        &&& next.has(index)
        &&& next.field_encodable(index)
        &&& next.field_readable(index)
        &&& next.encodings.len_encoding == self.encodings.len_encoding
        &&& forall|j: usize| j < 3 && j != index ==> #[trigger] next.same_field(self, j)
    }

    /// Whether the state is one that reading entries leads to: as many
    /// fields have been read as the order holds, each field in the order has
    /// been read, can be written and reads back, and the order holds each
    /// field that has been read once.
    pub open spec fn sound(self) -> bool {
        &&& self.order().len() == self.present_count()
        &&& forall|k: int|
            0 <= k < self.order().len() ==> (#[trigger] self.order()[k]) < 3 && self.has(
                self.order()[k],
            ) && self.field_encodable(self.order()[k]) && self.field_readable(self.order()[k])
        &&& self.order().no_duplicates()
        &&& forall|j: usize| j < 3 && self.has(j) ==> #[trigger] self.order().contains(j)
    }
}

/// A field that is the same in two states has been read in both or in
/// neither, and is written the same way.
pub proof fn lemma_same_field(a: UnprotectedScan, b: UnprotectedScan, j: usize)
    requires
        a.same_field(b, j),
    ensures
        a.has(j) == b.has(j),
        a.field_wire(j) == b.field_wire(j),
        a.field_encodable(j) == b.field_encodable(j),
        a.field_readable(j) == b.field_readable(j),
{
}

/// Fields that are the same in two states are written the same way.
pub proof fn lemma_same_fields(a: UnprotectedScan, b: UnprotectedScan, order: Seq<usize>)
    requires
        forall|k: int| 0 <= k < order.len() ==> a.same_field(b, #[trigger] order[k]),
    ensures
        a.fields_wire(order) == b.fields_wire(order),
    decreases order.len(),
{
    if order.len() != 0 {
        let fewer = order.drop_last();
        assert forall|k: int| 0 <= k < fewer.len() implies a.same_field(b, #[trigger] fewer[k]) by {
            assert(fewer[k] == order[k]);
        }
        lemma_same_fields(a, b, fewer);
        assert(a.same_field(b, order[order.len() - 1]));
        lemma_same_field(a, b, order.last());
    }
}

/// The entry of the key 1111 that is read is written back as the bytes it
/// was read from, and leaves the other fields as they were.
pub proof fn lemma_sd_claims_written_back(st: UnprotectedScan, key_enc: Sz, body: Seq<u8>)
    requires
        st.after_uint_key(1111, key_enc, body) is Ok,
        1111 <= widest(key_enc),
    ensures
        ({
            let (next, m) = st.after_uint_key(1111, key_enc, body)->Ok_0;
            &&& 1 <= m <= body.len()
            &&& st.extends(next)
            &&& next.order().last() == 0
            &&& next.field_wire(0) == head(MAJOR_UINT, 1111, key_enc) + body.subrange(
                0,
                m as int,
            )
        }),
{
    let (next, m) = st.after_uint_key(1111, key_enc, body)->Ok_0;
    lemma_salted_list_written_back(body);
    assert(next.order() =~= st.order().push(0));
    assert forall|j: usize| j < 3 && j != 0 implies #[trigger] next.same_field(st, j) by {
    }
}

/// The entry of the key 1112 that is read is written back as the bytes it
/// was read from, and leaves the other fields as they were.
pub proof fn lemma_sd_kbt_written_back(st: UnprotectedScan, key_enc: Sz, body: Seq<u8>)
    requires
        st.after_uint_key(1112, key_enc, body) is Ok,
        1112 <= widest(key_enc),
    ensures
        ({
            let (next, m) = st.after_uint_key(1112, key_enc, body)->Ok_0;
            &&& 1 <= m <= body.len()
            &&& st.extends(next)
            &&& next.order().last() == 1
            &&& next.field_wire(1) == head(MAJOR_UINT, 1112, key_enc) + body.subrange(
                0,
                m as int,
            )
        }),
{
    let (next, m) = st.after_uint_key(1112, key_enc, body)->Ok_0;
    lemma_bytes_written_back(body);
    assert(next.order() =~= st.order().push(1));
    assert forall|j: usize| j < 3 && j != 1 implies #[trigger] next.same_field(st, j) by {
    }
}

/// The extension entries that are read are written back as the bytes they
/// were read from, and leave the other fields as they were.
pub proof fn lemma_custom_written_back(st: UnprotectedScan, key_enc: StringEncodingView, body: Seq<u8>)
    requires
        st.after_text_key("custom"@, key_enc, body) is Ok,
        text_encodable("custom"@, key_enc),
        len_writable(utf8_len("custom"@), key_enc),
    ensures
        ({
            let (next, m) = st.after_text_key("custom"@, key_enc, body)->Ok_0;
            &&& 1 <= m <= body.len()
            &&& st.extends(next)
            &&& next.order().last() == 2
            &&& next.field_wire(2) == text_wire("custom"@, key_enc) + body.subrange(0, m as int)
        }),
{
    let (next, m) = st.after_text_key("custom"@, key_enc, body)->Ok_0;
    lemma_table_written_back(body);
    assert(next.order() =~= st.order().push(2));
    assert forall|j: usize| j < 3 && j != 2 implies #[trigger] next.same_field(st, j) by {
    }
}

/// Byte preservation for one entry: an entry that is read is written back
/// as the bytes it was read from, and leaves the other fields as they were.
pub proof fn lemma_entry_written_back(st: UnprotectedScan, t: Seq<u8>)
    requires
        st.after_entry(t) is Ok,
    ensures
        ({
            let (next, m) = st.after_entry(t)->Ok_0;
            &&& 1 <= m <= t.len()
            &&& st.extends(next)
            &&& next.last_wire() == t.subrange(0, m as int)
        }),
{
    reveal(UnprotectedScan::after_entry);
    let (next, m) = st.after_entry(t)->Ok_0;
    lemma_type_of_major(t[0]);
    if type_of(t[0]) == Type::UnsignedInteger {
        lemma_head_written_back(MAJOR_UINT, t);
        let (key, key_enc) = parse_arg(MAJOR_UINT, t)->0;
        let start = 1 + width(key_enc);
        let body = t.skip(start as int);
        if key == 1111 {
            lemma_sd_claims_written_back(st, key_enc, body);
        } else if key == 1112 {
            lemma_sd_kbt_written_back(st, key_enc, body);
        }
        assert(t.subrange(0, m as int) =~= t.subrange(0, start as int) + body.subrange(
            0,
            (m - start) as int,
        ));
    } else {
        lemma_text_written_back(t);
        let (key, key_enc, k) = parse_text(t)->0;
        let body = t.skip(k as int);
        lemma_custom_written_back(st, key_enc, body);
        assert(t.subrange(0, m as int) =~= t.subrange(0, k as int) + body.subrange(
            0,
            (m - k) as int,
        ));
    }
}

/// How the entry that a state was read from last is written.
pub open spec fn scan_wire() -> spec_fn(UnprotectedScan) -> Seq<u8> {
    |st: UnprotectedScan| st.last_wire()
}

/// Whether a state is the state before it after one more entry.
pub open spec fn scan_step(start: UnprotectedScan) -> spec_fn(Seq<UnprotectedScan>, UnprotectedScan) -> bool {
    |acc: Seq<UnprotectedScan>, st: UnprotectedScan| UnprotectedScan::after(start, acc).extends(st)
}

/// The states that reading entries leads through: each is sound, and the
/// entries that led to it, one after the other, are what its fields are
/// written as in the order in which they were read.
pub proof fn lemma_chain(start: UnprotectedScan, all: Seq<UnprotectedScan>, i: nat)
    requires
        start.order().len() == 0,
        start.present_count() == 0,
        i <= all.len(),
        forall|k: int| 0 <= k < all.len() ==> #[trigger] scan_step(start)(all.take(k), all[k]),
    ensures
        ({
            let st = UnprotectedScan::after(start, all.take(i as int));
            &&& st.sound()
            &&& st.order().len() == i
            &&& st.fields_wire(st.order()) == joined(scan_wire(), all.take(i as int))
            &&& st.encodings.len_encoding == start.encodings.len_encoding
        }),
    decreases i,
{
    if i == 0 {
        assert(all.take(0) =~= Seq::<UnprotectedScan>::empty());
    } else {
        lemma_chain(start, all, (i - 1) as nat);
        let prev = UnprotectedScan::after(start, all.take(i - 1));
        let st = all[i - 1];
        assert(scan_step(start)(all.take(i - 1), all[i - 1]));
        assert(all.take(i as int).last() == st);
        assert(all.take(i as int).drop_last() =~= all.take(i - 1));
        let index = st.order().last();
        assert(st.order().drop_last() =~= prev.order());
        assert forall|k: int| 0 <= k < prev.order().len() implies st.same_field(
            prev,
            #[trigger] prev.order()[k],
        ) by {
            assert(prev.has(prev.order()[k]));
        }
        lemma_same_fields(st, prev, prev.order());
        lemma_joined_push(scan_wire(), all.take(i - 1), st);
        assert(all.take(i - 1).push(st) =~= all.take(i as int));
        assert(st.order() == prev.order().push(index));
        assert(!prev.order().contains(index)) by {
            if prev.order().contains(index) {
                let k = choose|k: int| 0 <= k < prev.order().len() && prev.order()[k] == index;
                assert(prev.has(prev.order()[k]));
            }
        }
        assert(st.order().no_duplicates()) by {
            assert forall|a: int, b: int|
                0 <= a < st.order().len() && 0 <= b < st.order().len() && a != b implies st.order()[a]
                != st.order()[b] by {
                if a < prev.order().len() {
                    assert(prev.order().contains(prev.order()[a]));
                }
                if b < prev.order().len() {
                    assert(prev.order().contains(prev.order()[b]));
                }
            }
        }
        assert forall|j: usize| j < 3 && st.has(j) implies #[trigger] st.order().contains(j) by {
            if j == index {
                assert(st.order()[st.order().len() - 1] == j);
            } else {
                assert(st.same_field(prev, j));
                lemma_same_field(st, prev, j);
                assert(prev.order().contains(j));
                let k = choose|k: int| 0 <= k < prev.order().len() && prev.order()[k] == j;
                assert(st.order()[k] == j);
            }
        }
        assert forall|k: int| 0 <= k < st.order().len() implies (
        #[trigger] st.order()[k]) < 3 && st.has(st.order()[k]) && st.field_encodable(
            st.order()[k],
        ) && st.field_readable(st.order()[k]) by {
            if k < prev.order().len() {
                assert(st.order()[k] == prev.order()[k]);
                assert(st.same_field(prev, prev.order()[k]));
                lemma_same_field(st, prev, prev.order()[k]);
            }
        }
        lemma_count_grows(prev, st);
    }
}

/// One more field has been read after one more entry.
pub proof fn lemma_count_grows(prev: UnprotectedScan, st: UnprotectedScan)
    requires
        prev.extends(st),
    ensures
        st.present_count() == prev.present_count() + 1,
{
    let index = st.order().last();
    if index != 0 {
        assert(st.same_field(prev, 0));
    }
    if index != 1 {
        assert(st.same_field(prev, 1));
    }
    if index != 2 {
        assert(st.same_field(prev, 2));
    }
}

/// The fields of a value are written the way the fields of the state that
/// it was made from are written.
pub proof fn lemma_view_fields(v: UnprotectedView, st: UnprotectedScan, order: Seq<usize>)
    requires
        st.finished() == Ok::<_, crate::error::FailureView>(v),
    ensures
        v.fields_wire(order) == st.fields_wire(order),
    decreases order.len(),
{
    if order.len() != 0 {
        lemma_view_fields(v, st, order.drop_last());
        lemma_view_field(v, st, order.last());
    }
}

/// A field of a value is written the way the field of the state that it was
/// made from is written.
pub proof fn lemma_view_field(v: UnprotectedView, st: UnprotectedScan, index: usize)
    requires
        st.finished() == Ok::<_, crate::error::FailureView>(v),
    ensures
        v.field_wire(index) == st.field_wire(index),
        index < 3 && st.has(index) ==> v.field_encodable(index) == st.field_encodable(index),
        index < 3 && st.has(index) ==> v.field_readable(index) == st.field_readable(index),
        index < 3 ==> v.has(index) == st.has(index),
{
}

/// The value that a sound state makes is written in the order in which its
/// fields were read, the way they were read, and can be written.
pub proof fn lemma_finished(st: UnprotectedScan)
    requires
        st.finished() is Ok,
        st.sound(),
    ensures
        ({
            let v = st.finished()->Ok_0;
            &&& v.count() == st.order().len()
            &&& v.order() == st.order()
            &&& v.fields_wire(v.order()) == st.fields_wire(st.order())
            &&& v.len_encoding() == st.encodings.len_encoding
            &&& v.well_formed()
            &&& v.encodable()
            &&& v.reads_back()
        }),
{
    let v = st.finished()->Ok_0;
    assert(v.count() == st.present_count());
    assert(v.order() == st.order());
    lemma_view_fields(v, st, st.order());
    assert forall|i: int| 0 <= i < v.order().len() implies v.field_encodable(
        #[trigger] v.order()[i],
    ) by {
        assert(st.has(st.order()[i]));
        lemma_view_field(v, st, v.order()[i]);
    }
    assert forall|j: usize| j < 3 implies (#[trigger] v.field_readable(j)) && v.has(j) == st.has(j) by {
        lemma_view_field(v, st, j);
        if st.has(j) {
            assert(st.order().contains(j));
            let k = choose|k: int| 0 <= k < st.order().len() && st.order()[k] == j;
            assert(st.field_readable(st.order()[k]));
        }
    }
    assert forall|k: int| 0 <= k < v.order().len() implies (v.present())(#[trigger] v.order()[k]) by {
        assert(st.has(st.order()[k]));
        lemma_view_field(v, st, v.order()[k]);
    }
    lemma_filter_all(v.order(), v.present());
    assert forall|j: usize| j < 3 && v.has(j) implies #[trigger] v.order().contains(j) by {
        lemma_view_field(v, st, j);
    }
}

/// Any place is a place to read an entry.
pub open spec fn good_place() -> spec_fn(Seq<UnprotectedScan>, Seq<u8>) -> bool {
    |acc: Seq<UnprotectedScan>, s: Seq<u8>| true
}

/// Any place is good everywhere.
pub proof fn lemma_good_everywhere(
    item: spec_fn(Seq<UnprotectedScan>, Seq<u8>) -> Result<(UnprotectedScan, nat), ErrorView>,
    len: LenSz,
    acc: Seq<UnprotectedScan>,
    s: Seq<u8>,
)
    ensures
        everywhere(good_place(), item, len, acc, s),
    decreases s.len(),
{
    if crate::laws_lists::wants_more(len, acc.len()) && s.len() != 0 && type_of(s[0])
        != Type::Special {
        match item(acc, s) {
            Ok((v, used)) => {
                if 0 < used <= s.len() {
                    lemma_good_everywhere(item, len, acc.push(v), s.skip(used as int));
                }
            },
            Err(_) => {},
        }
    }
}

/// The entries of the unprotected header that are read are written back as the
/// bytes they were read from.
pub proof fn lemma_fields_written_back(s: Seq<u8>, start: UnprotectedScan)
    requires
        UnprotectedView::parse_fields(s, start) is Ok,
        start == UnprotectedScan::start(start.len, start.claimed),
    ensures
        ({
            let (v, n) = UnprotectedView::parse_fields(s, start)->Ok_0;
            &&& n <= s.len()
            &&& v.well_formed()
            &&& v.encodable()
            &&& v.reads_back()
            &&& v.len_encoding() == LenEncoding::of(start.len)
            &&& start.len matches LenSz::Len(m, _) ==> v.count() == m
            &&& v.fields_wire(v.order()) + LenEncoding::of(start.len).ending() == s.subrange(
                0,
                n as int,
            )
        }),
{
    let none = Seq::<UnprotectedScan>::empty();
    let item = unprotected_reader(start);
    assert forall|a: Seq<UnprotectedScan>, t: Seq<u8>| (#[trigger] good_place()(a, t)) && item(a, t) is Ok
        implies ({
        let (v, used) = item(a, t)->Ok_0;
        written_as(scan_wire(), scan_step(start), a, t, v, used)
    }) by {
        lemma_entry_written_back(UnprotectedScan::after(start, a), t);
    }
    lemma_good_everywhere(item, start.len, none, s);
    lemma_items_written_back(item, scan_wire(), scan_step(start), good_place(), start.len, none, s);
    let (all, n) = parse_items(item, start.len, none, s)->Ok_0;
    lemma_chain(start, all, all.len());
    assert(all.take(all.len() as int) =~= all);
    let last = UnprotectedScan::after(start, all);
    lemma_finished(last);
    assert(joined(scan_wire(), none) =~= Seq::<u8>::empty());
}

impl UnprotectedView {
    /// Byte preservation: an unprotected header that is read is written back as the
    /// bytes it was read from.
    pub proof fn lemma_written_back(s: Seq<u8>)
        requires
            UnprotectedView::parse(s) is Ok,
        ensures
            ({
                let (v, n) = UnprotectedView::parse(s)->Ok_0;
                &&& 1 <= n <= s.len()
                &&& v.well_formed()
                &&& v.encodable()
                &&& v.reads_back()
                &&& v.wire() == s.subrange(0, n as int)
            }),
    {
        reveal(UnprotectedView::parse);
        reveal(UnprotectedView::wire);
        let (v, n) = UnprotectedView::parse(s)->Ok_0;
        let len = parse_len(MAJOR_MAP, s)->0;
        let start_at = 1 + len_width(len);
        lemma_head_written_back(MAJOR_MAP, s);
        let body = s.skip(start_at as int);
        lemma_fields_written_back(body, UnprotectedScan::start(len, 0));
        lemma_len_descriptor(v.len_encoding(), len, v.count() as u64);
        assert(s.subrange(0, n as int) =~= s.subrange(0, start_at as int) + body.subrange(
            0,
            (n - start_at) as int,
        ));
    }
}

impl UnprotectedView {
    /// Whether the field with the number `index` is there.
    pub open spec fn has(self, index: usize) -> bool {
        if index == 0 {
            self.sd_claims is Some
        } else if index == 1 {
            self.sd_kbt is Some
        } else if index == 2 {
            true
        } else {
            false
        }
    }

    /// Whether a field is there.
    pub open spec fn present(self) -> spec_fn(usize) -> bool {
        |index: usize| self.has(index)
    }

    /// The order in which the fields that are there are written.
    pub open spec fn present_order(self) -> Seq<usize> {
        self.order().filter(self.present())
    }

    /// Whether the field with the number `index`, if it is there, is one
    /// that reads back after it was written.
    pub open spec fn field_readable(self, index: usize) -> bool {
        if index == 0 {
            self.sd_claims matches Some(v) ==> salted_read_back(v) && count_writable(v.len(), self.form().sd_claims_encoding)
        } else if index == 1 {
            self.sd_kbt matches Some(v) ==> len_writable(v.len(), self.form().sd_kbt_encoding) && bytes_encodable(v, self.form().sd_kbt_encoding)
        } else if index == 2 {
            len_writable(utf8_len("custom"@), self.form().custom_key_encoding) && text_encodable("custom"@, self.form().custom_key_encoding) && table_reads_back(self.custom, self.form().custom_encoding)
        } else {
            true
        }
    }

    /// Whether the unprotected header is one that reads back after it was written:
    /// every field that is there is written once and reads back.
    pub open spec fn reads_back(self) -> bool {
        &&& self.well_formed()
        &&& self.present_order().no_duplicates()
        &&& forall|j: usize| j < 3 && self.has(j) ==> #[trigger] self.order().contains(j)
        &&& forall|j: usize| j < 3 ==> #[trigger] self.field_readable(j)
    }

    /// The head of the map.
    pub open spec fn head_len(self) -> LenSz {
        self.len_encoding().head_for(self.count() as u64)
    }

    /// What has been found before the first field is read from what the
    /// unprotected header is written as.
    pub open spec fn first_scan(self) -> UnprotectedScan {
        UnprotectedScan::start(self.head_len(), 0)
    }

    /// The state `st` after the field with the number `index` is read from
    /// what the unprotected header is written as.
    pub open spec fn scan_step(self, st: UnprotectedScan, index: usize) -> UnprotectedScan {
        if index == 0 {
            match self.sd_claims {
                Some(v) => UnprotectedScan {
                    sd_claims: Some(settled_salted(v)),
                    encodings: UnprotectedEncodingView {
                        sd_claims_encoding: self.form().sd_claims_encoding.settled(v.len() as u64),
                        sd_claims_key_encoding: Some(fitting(1111, self.form().sd_claims_key_encoding)),
                        orig_deser_order: st.encodings.orig_deser_order.push(0),
                        ..st.encodings
                    },
                    claimed: claim(st.len, st.claimed, 1)->Ok_0,
                    ..st
                },
                None => st,
            }
        } else if index == 1 {
            match self.sd_kbt {
                Some(v) => UnprotectedScan {
                    sd_kbt: Some(v),
                    encodings: UnprotectedEncodingView {
                        sd_kbt_encoding: self.form().sd_kbt_encoding.settled(v.len() as u64),
                        sd_kbt_key_encoding: Some(fitting(1112, self.form().sd_kbt_key_encoding)),
                        orig_deser_order: st.encodings.orig_deser_order.push(1),
                        ..st.encodings
                    },
                    claimed: claim(st.len, st.claimed, 1)->Ok_0,
                    ..st
                },
                None => st,
            }
        } else if index == 2 {
            UnprotectedScan {
                custom: Some(settled_entries(self.custom)),
                encodings: UnprotectedEncodingView {
                    custom_encoding: self.form().custom_encoding.settled(self.custom.len() as u64),
                    custom_key_encoding: self.form().custom_key_encoding.settled(utf8_len("custom"@) as u64),
                    orig_deser_order: st.encodings.orig_deser_order.push(2),
                    ..st.encodings
                },
                claimed: claim(st.len, st.claimed, 1)->Ok_0,
                ..st
            }
        } else {
            st
        }
    }

    /// What has been found after the fields with the numbers `done` were
    /// read, in that order, from what the unprotected header is written as.
    pub open spec fn scan_of(self, done: Seq<usize>) -> UnprotectedScan
        decreases done.len(),
    {
        if done.len() == 0 {
            self.first_scan()
        } else {
            self.scan_step(self.scan_of(done.drop_last()), done.last())
        }
    }

    /// Whether the state `st` holds the fields with the numbers `done` of the
    /// unprotected header, and no others.
    pub open spec fn tracks(self, st: UnprotectedScan, done: Seq<usize>) -> bool {
        &&& st.sd_claims == if listed(done, 0) {
            Some(settled_salted(self.sd_claims->0))
        } else {
            None
        }
        &&& st.sd_kbt == if listed(done, 1) {
            Some(self.sd_kbt->0)
        } else {
            None
        }
        &&& st.custom == if listed(done, 2) {
            Some(settled_entries(self.custom))
        } else {
            None
        }
        &&& st.encodings.orig_deser_order == done
        &&& st.encodings.len_encoding == self.len_encoding().settled(self.count() as u64)
        &&& self.counted(st, done)
    }

    /// Whether the state `st` has counted the fields with the numbers `done`
    /// of the unprotected header.
    pub open spec fn counted(self, st: UnprotectedScan, done: Seq<usize>) -> bool {
        match st.len {
            LenSz::Len(n, _) => n == self.count() && st.claimed == read_count(done),
            LenSz::Indefinite => st.claimed == 0,
        }
    }

    /// The unprotected header as it is read after it was written.
    pub open spec fn settled(self) -> UnprotectedView {
        self.scan_of(self.present_order()).finished()->Ok_0
    }

    /// Whether two values hold the same, whatever the way they are written.
    pub open spec fn same_content(self, other: UnprotectedView) -> bool {
        &&& match (self.sd_claims, other.sd_claims) {
            (Some(a), Some(b)) => salted_contents(a) == salted_contents(b),
            (None, None) => true,
            _ => false,
        }
        &&& match (self.sd_kbt, other.sd_kbt) {
            (Some(a), Some(b)) => a == b,
            (None, None) => true,
            _ => false,
        }
        &&& entry_keys(self.custom) == entry_keys(other.custom)
    }

    /// How a field is written.
    pub open spec fn field_writer(self) -> spec_fn(usize) -> Seq<u8> {
        |index: usize| self.field_wire(index)
    }
}

/// The field with the number 0 that is written reads back as an entry
/// in a state in which it has not been read.
#[verifier::rlimit(60)]
#[verifier::spinoff_prover]
pub proof fn lemma_sd_claims_reads_back(v: UnprotectedView, st: UnprotectedScan, tail: Seq<u8>)
    requires
        v.has(0),
        v.field_readable(0),
        st.sd_claims is None,
        claim(st.len, st.claimed, 1) is Ok,
    ensures
        st.after_entry(v.field_wire(0) + tail) == Ok::<(UnprotectedScan, nat), ErrorView>(
            (v.scan_step(st, 0), v.field_wire(0).len()),
        ),
        v.field_wire(0).len() >= 1,
        type_of((v.field_wire(0) + tail)[0]) != Type::Special,
{
    reveal(UnprotectedScan::after_entry);
    let s = v.field_wire(0) + tail;
    let w = salted_list_wire(v.sd_claims->0, v.form().sd_claims_encoding);
    let key_enc = fitting(1111, v.form().sd_claims_key_encoding);
    lemma_fitting(1111, v.form().sd_claims_key_encoding);
    let k = head(MAJOR_UINT, 1111, key_enc);
    lemma_head_parses(MAJOR_UINT, 1111, key_enc, w + tail);
    assert(s =~= k + (w + tail));
    assert(s.skip(k.len() as int) =~= w + tail);
    lemma_type_of_major(s[0]);
    lemma_salted_list_reads_back(v.sd_claims->0, v.form().sd_claims_encoding, tail);
}

/// The field with the number 1 that is written reads back as an entry
/// in a state in which it has not been read.
#[verifier::rlimit(60)]
#[verifier::spinoff_prover]
pub proof fn lemma_sd_kbt_reads_back(v: UnprotectedView, st: UnprotectedScan, tail: Seq<u8>)
    requires
        v.has(1),
        v.field_readable(1),
        st.sd_kbt is None,
        claim(st.len, st.claimed, 1) is Ok,
    ensures
        st.after_entry(v.field_wire(1) + tail) == Ok::<(UnprotectedScan, nat), ErrorView>(
            (v.scan_step(st, 1), v.field_wire(1).len()),
        ),
        v.field_wire(1).len() >= 1,
        type_of((v.field_wire(1) + tail)[0]) != Type::Special,
{
    reveal(UnprotectedScan::after_entry);
    let s = v.field_wire(1) + tail;
    let w = bytes_wire(v.sd_kbt->0, v.form().sd_kbt_encoding);
    let key_enc = fitting(1112, v.form().sd_kbt_key_encoding);
    lemma_fitting(1112, v.form().sd_kbt_key_encoding);
    let k = head(MAJOR_UINT, 1112, key_enc);
    lemma_head_parses(MAJOR_UINT, 1112, key_enc, w + tail);
    assert(s =~= k + (w + tail));
    assert(s.skip(k.len() as int) =~= w + tail);
    lemma_type_of_major(s[0]);
    lemma_bytes_read_back(v.sd_kbt->0, v.form().sd_kbt_encoding, tail);
}

/// The field with the number 2 that is written reads back as an entry
/// in a state in which it has not been read.
#[verifier::rlimit(60)]
#[verifier::spinoff_prover]
pub proof fn lemma_custom_reads_back(v: UnprotectedView, st: UnprotectedScan, tail: Seq<u8>)
    requires
        v.has(2),
        v.field_readable(2),
        st.custom is None,
        claim(st.len, st.claimed, 1) is Ok,
    ensures
        st.after_entry(v.field_wire(2) + tail) == Ok::<(UnprotectedScan, nat), ErrorView>(
            (v.scan_step(st, 2), v.field_wire(2).len()),
        ),
        v.field_wire(2).len() >= 1,
        type_of((v.field_wire(2) + tail)[0]) != Type::Special,
{
    reveal(UnprotectedScan::after_entry);
    let s = v.field_wire(2) + tail;
    let w = table_wire(v.custom, v.form().custom_encoding);
    let key_enc = v.form().custom_key_encoding;
    lemma_text_reads_back("custom"@, key_enc, w + tail);
    let k = text_wire("custom"@, key_enc);
    assert(s =~= k + (w + tail));
    assert(s.skip(k.len() as int) =~= w + tail);
    lemma_type_of_major(s[0]);
    lemma_table_reads_back(v.custom, v.form().custom_encoding, tail);
}

/// Whether every number in the list is the number of a field that is
/// there.
#[verifier::opaque]
pub open spec fn all_there(v: UnprotectedView, done: Seq<usize>) -> bool {
    forall|k: int| 0 <= k < done.len() ==> (#[trigger] done[k]) < 3 && v.has(done[k])
}

/// A field whose number stands in a list of fields that are there is
/// there.
pub proof fn lemma_there(v: UnprotectedView, done: Seq<usize>, index: usize)
    requires
        all_there(v, done),
        listed(done, index),
    ensures
        v.has(index),
        index < 3,
{
    reveal(all_there);
    reveal(listed);
    let k = choose|k: int| 0 <= k < done.len() && done[k] == index;
    assert(v.has(done[k]));
}

/// One where the field with the number `index` is there, nothing where it
/// is missing.
#[verifier::opaque]
pub open spec fn there(v: UnprotectedView, index: usize) -> nat {
    one_if(v.has(index))
}

/// The number of fields, by the fields.
pub proof fn lemma_count_there(v: UnprotectedView)
    ensures
        v.count() == there(v, 0) + there(v, 1) + there(v, 2),
{
    reveal(there);
}

/// A field that has been read is there; one that is there and has not been
/// read is still to come.
pub proof fn lemma_mark_there(v: UnprotectedView, done: Seq<usize>, index: usize)
    requires
        all_there(v, done),
    ensures
        mark(done, index) <= there(v, index),
        !listed(done, index) && v.has(index) ==> mark(done, index) + 1 == there(v, index),
        listed(done, index) == v.has(index) ==> mark(done, index) == there(v, index),
        v.has(index) ==> there(v, index) == 1,
{
    reveal(there);
    reveal(mark);
    if listed(done, index) {
        lemma_there(v, done, index);
    }
}

/// Numbers that are each no more than another, and one of them less, add
/// up to less than the others.
pub proof fn lemma_room(
    read_sd_claims: nat,
    has_sd_claims: nat,
    read_sd_kbt: nat,
    has_sd_kbt: nat,
    read_custom: nat,
    has_custom: nat,
)
    requires
        read_sd_claims <= has_sd_claims,
        read_sd_kbt <= has_sd_kbt,
        read_custom <= has_custom,
        read_sd_claims + 1 == has_sd_claims || read_sd_kbt + 1 == has_sd_kbt || read_custom + 1 == has_custom,
    ensures
        read_sd_claims + read_sd_kbt + read_custom + 1 <= has_sd_claims + has_sd_kbt + has_custom,
{
}

/// How many of the fields are among the fields with
/// the numbers `done`.
#[verifier::opaque]
pub open spec fn read_count(done: Seq<usize>) -> nat {
    mark(done, 0) + mark(done, 1) + mark(done, 2)
}

/// None of them is among no fields.
pub proof fn lemma_read_none()
    ensures
        read_count(Seq::empty()) == 0,
{
    reveal(read_count);
    lemma_mark_none(0);
    lemma_mark_none(1);
    lemma_mark_none(2);
}

/// One more of them is among the fields after a field that was not, and
/// as many as before after anything else.
pub proof fn lemma_read_push(done: Seq<usize>, next: usize)
    requires
        !listed(done, next),
    ensures
        read_count(done.push(next)) == read_count(done) + one_if(
            next == 0 || next == 1 || next == 2,
        ),
{
    reveal(read_count);
    lemma_mark_push(done, next, 0);
    lemma_mark_push(done, next, 1);
    lemma_mark_push(done, next, 2);
}

/// Fewer fields have been read than are there, where one that is there
/// has not been read.
pub proof fn lemma_read_below(v: UnprotectedView, done: Seq<usize>, index: usize)
    requires
        all_there(v, done),
        index < 3,
        v.has(index),
        !listed(done, index),
    ensures
        read_count(done) + 1 <= v.count(),
{
    reveal(read_count);
    lemma_count_there(v);
    lemma_mark_there(v, done, 0);
    lemma_mark_there(v, done, 1);
    lemma_mark_there(v, done, 2);
    lemma_room(
        mark(done, 0),
        there(v, 0),
        mark(done, 1),
        there(v, 1),
        mark(done, 2),
        there(v, 2),
    );
}

/// As many fields have been read as are there, where every field that is
/// there has been read and no other.
pub proof fn lemma_read_all(v: UnprotectedView, done: Seq<usize>)
    requires
        all_there(v, done),
        listed(done, 0) == v.has(0),
        listed(done, 1) == v.has(1),
        listed(done, 2) == v.has(2),
    ensures
        read_count(done) == v.count(),
{
    reveal(read_count);
    lemma_count_there(v);
    lemma_mark_there(v, done, 0);
    lemma_mark_there(v, done, 1);
    lemma_mark_there(v, done, 2);
}

/// One more entry can be claimed where a field that is there has not been
/// read.
pub proof fn lemma_can_claim(v: UnprotectedView, st: UnprotectedScan, done: Seq<usize>, index: usize)
    requires
        v.counted(st, done),
        all_there(v, done),
        index < 3,
        v.has(index),
        !listed(done, index),
        1 <= v.count() <= 3,
    ensures
        claim(st.len, st.claimed, 1) is Ok,
        st.len is Len ==> claim(st.len, st.claimed, 1)->Ok_0 == st.claimed + 1,
        st.len is Indefinite ==> claim(st.len, st.claimed, 1)->Ok_0 == st.claimed,
{
    lemma_read_below(v, done, index);
}

/// The state after the field with the number 0 holds that field and the
/// fields that the state before it held.
#[verifier::rlimit(60)]
#[verifier::spinoff_prover]
pub proof fn lemma_sd_claims_tracked(v: UnprotectedView, st: UnprotectedScan, done: Seq<usize>)
    requires
        v.tracks(st, done),
        all_there(v, done),
        1 <= v.count() <= 3,
        v.has(0),
        !listed(done, 0),
    ensures
        v.tracks(v.scan_step(st, 0), done.push(0)),
{
    lemma_listed_push(done, 0, 0);
    lemma_listed_push(done, 0, 1);
    lemma_listed_push(done, 0, 2);
    lemma_read_push(done, 0);
    lemma_can_claim(v, st, done, 0);
}

/// The state after the field with the number 1 holds that field and the
/// fields that the state before it held.
#[verifier::rlimit(60)]
#[verifier::spinoff_prover]
pub proof fn lemma_sd_kbt_tracked(v: UnprotectedView, st: UnprotectedScan, done: Seq<usize>)
    requires
        v.tracks(st, done),
        all_there(v, done),
        1 <= v.count() <= 3,
        v.has(1),
        !listed(done, 1),
    ensures
        v.tracks(v.scan_step(st, 1), done.push(1)),
{
    lemma_listed_push(done, 1, 0);
    lemma_listed_push(done, 1, 1);
    lemma_listed_push(done, 1, 2);
    lemma_read_push(done, 1);
    lemma_can_claim(v, st, done, 1);
}

/// The state after the field with the number 2 holds that field and the
/// fields that the state before it held.
#[verifier::rlimit(60)]
#[verifier::spinoff_prover]
pub proof fn lemma_custom_tracked(v: UnprotectedView, st: UnprotectedScan, done: Seq<usize>)
    requires
        v.tracks(st, done),
        all_there(v, done),
        1 <= v.count() <= 3,
        v.has(2),
        !listed(done, 2),
    ensures
        v.tracks(v.scan_step(st, 2), done.push(2)),
{
    lemma_listed_push(done, 2, 0);
    lemma_listed_push(done, 2, 1);
    lemma_listed_push(done, 2, 2);
    lemma_read_push(done, 2);
    lemma_can_claim(v, st, done, 2);
}

/// The state after a field holds that field and the fields that the state
/// before it held.
pub proof fn lemma_step_tracked(v: UnprotectedView, st: UnprotectedScan, done: Seq<usize>, index: usize)
    requires
        v.tracks(st, done),
        all_there(v, done),
        index < 3,
        v.has(index),
        !listed(done, index),
        1 <= v.count() <= 3,
    ensures
        v.tracks(v.scan_step(st, index), done.push(index)),
{
    if index == 0 {
        lemma_sd_claims_tracked(v, st, done);
    } else if index == 1 {
        lemma_sd_kbt_tracked(v, st, done);
    } else if index == 2 {
        lemma_custom_tracked(v, st, done);
    }
}

/// Nothing has been read before the first field.
pub proof fn lemma_first_tracked(v: UnprotectedView)
    requires
        1 <= v.count() <= 3,
    ensures
        v.tracks(v.first_scan(), Seq::empty()),
{
    lemma_listed_none(0);
    lemma_listed_none(1);
    lemma_listed_none(2);
    lemma_read_none();
}

/// The state after fields that are there, none of them twice, holds those
/// fields.
pub proof fn lemma_scan_tracked(v: UnprotectedView, done: Seq<usize>)
    requires
        done.no_duplicates(),
        all_there(v, done),
        1 <= v.count() <= 3,
    ensures
        v.tracks(v.scan_of(done), done),
    decreases done.len(),
{
    if done.len() == 0 {
        lemma_first_tracked(v);
        assert(done =~= Seq::<usize>::empty());
    } else {
        let fewer = done.drop_last();
        let x = done.last();
        assert(done =~= fewer.push(x));
        assert(fewer.no_duplicates());
        assert(all_there(v, fewer)) by {
            reveal(all_there);
            assert forall|k: int| 0 <= k < fewer.len() implies (#[trigger] fewer[k]) < 3 && v.has(
                fewer[k],
            ) by {
                assert(fewer[k] == done[k]);
            }
        }
        lemma_scan_tracked(v, fewer);
        assert(!listed(fewer, x)) by {
            reveal(listed);
            if fewer.contains(x) {
                let i = choose|i: int| 0 <= i < fewer.len() && fewer[i] == x;
                assert(done[i] == done[done.len() - 1]);
            }
        }
        assert(v.has(x) && x < 3) by {
            reveal(all_there);
            assert(done[done.len() - 1] == x);
        }
        lemma_step_tracked(v, v.scan_of(fewer), fewer, x);
    }
}

/// Round trip for one entry: a field that is written reads back as an
/// entry after the fields that were read before it.
pub proof fn lemma_entry_reads_back(v: UnprotectedView, done: Seq<usize>, index: usize, tail: Seq<u8>)
    requires
        index < 3,
        v.has(index),
        v.field_readable(index),
        !listed(done, index),
        done.no_duplicates(),
        all_there(v, done),
        1 <= v.count() <= 3,
    ensures
        v.scan_of(done).after_entry(v.field_wire(index) + tail) == Ok::<
            (UnprotectedScan, nat),
            ErrorView,
        >((v.scan_of(done.push(index)), v.field_wire(index).len())),
        v.field_wire(index).len() >= 1,
        type_of((v.field_wire(index) + tail)[0]) != Type::Special,
{
    let st = v.scan_of(done);
    lemma_scan_tracked(v, done);
    assert(done.push(index).drop_last() =~= done);
    assert(v.scan_of(done.push(index)) == v.scan_step(st, index));
    if index == 0 {
        lemma_can_claim(v, st, done, index);
        lemma_sd_claims_reads_back(v, st, tail);
    } else if index == 1 {
        lemma_can_claim(v, st, done, index);
        lemma_sd_kbt_reads_back(v, st, tail);
    } else if index == 2 {
        lemma_can_claim(v, st, done, index);
        lemma_custom_reads_back(v, st, tail);
    }
}

/// How many of the fields have their number in the list.
#[verifier::opaque]
pub open spec fn marked(done: Seq<usize>) -> nat {
    mark(done, 0) + mark(done, 1) + mark(done, 2)
}

/// As many fields have their number in a list of numbers of fields as the
/// list is long, where no number stands twice in it.
pub proof fn lemma_marked(done: Seq<usize>)
    requires
        done.no_duplicates(),
        forall|k: int| 0 <= k < done.len() ==> (#[trigger] done[k]) < 3,
    ensures
        marked(done) == done.len(),
    decreases done.len(),
{
    if done.len() == 0 {
        reveal(marked);
        assert(done =~= Seq::<usize>::empty());
        lemma_mark_none(0);
        lemma_mark_none(1);
        lemma_mark_none(2);
    } else {
        let fewer = done.drop_last();
        let x = done.last();
        assert(done =~= fewer.push(x));
        assert(fewer.no_duplicates());
        assert forall|k: int| 0 <= k < fewer.len() implies (#[trigger] fewer[k]) < 3 by {
            assert(fewer[k] == done[k]);
        }
        lemma_marked(fewer);
        assert(!listed(fewer, x)) by {
            reveal(listed);
            if fewer.contains(x) {
                let i = choose|i: int| 0 <= i < fewer.len() && fewer[i] == x;
                assert(done[i] == done[done.len() - 1]);
            }
        }
        assert(x < 3) by {
            assert(done[done.len() - 1] == x);
        }
        lemma_marked_push(fewer, x);
    }
}

/// One more field has its number in a list after the number of a field that
/// was not in it.
pub proof fn lemma_marked_push(done: Seq<usize>, next: usize)
    requires
        !listed(done, next),
        next < 3,
    ensures
        marked(done.push(next)) == marked(done) + 1,
{
    reveal(marked);
    lemma_mark_push(done, next, 0);
    lemma_mark_push(done, next, 1);
    lemma_mark_push(done, next, 2);
}

/// A list that holds the number of every field that is there once, and no
/// other number, is as long as there are fields.
pub proof fn lemma_order_len(v: UnprotectedView, done: Seq<usize>)
    requires
        done.no_duplicates(),
        all_there(v, done),
        forall|j: usize| j < 3 ==> (#[trigger] listed(done, j)) == v.has(j),
    ensures
        done.len() == v.count(),
{
    assert forall|k: int| 0 <= k < done.len() implies (#[trigger] done[k]) < 3 by {
        reveal(all_there);
    }
    lemma_marked(done);
    reveal(marked);
    lemma_count_there(v);
    assert(listed(done, 0) == v.has(0));
    lemma_mark_there(v, done, 0);
    assert(listed(done, 1) == v.has(1));
    lemma_mark_there(v, done, 1);
    assert(listed(done, 2) == v.has(2));
    lemma_mark_there(v, done, 2);
}

/// The fields in an order are written as the fields of that order that are
/// there.
pub proof fn lemma_fields_present(v: UnprotectedView, order: Seq<usize>)
    ensures
        v.fields_wire(order) == v.fields_wire(order.filter(v.present())),
    decreases order.len(),
{
    reveal(Seq::filter);
    if order.len() != 0 {
        lemma_fields_present(v, order.drop_last());
        let fewer = order.drop_last().filter(v.present());
        if v.has(order.last()) {
            assert(fewer.push(order.last()).drop_last() =~= fewer);
        } else {
            assert(v.field_wire(order.last()) =~= Seq::<u8>::empty());
            assert(v.fields_wire(order) =~= v.fields_wire(order.drop_last()));
        }
    }
}

/// The fields one after the other, as the generic container writes them.
pub proof fn lemma_fields_joined(v: UnprotectedView, order: Seq<usize>)
    ensures
        v.fields_wire(order) == joined(v.field_writer(), order),
    decreases order.len(),
{
    if order.len() != 0 {
        lemma_fields_joined(v, order.drop_last());
    }
}

/// The states that reading the fields that are there leads through.
pub open spec fn states_of(v: UnprotectedView) -> Seq<UnprotectedScan> {
    Seq::new(v.present_order().len(), |i: int| v.scan_of(v.present_order().take(i + 1)))
}

/// The order in which the fields of an unprotected header that reads back are
/// written holds the number of every field that is there once, and of no
/// other.
pub proof fn lemma_present_order(v: UnprotectedView)
    requires
        v.reads_back(),
    ensures
        ({
            let done = v.present_order();
            &&& done.no_duplicates()
            &&& all_there(v, done)
            &&& forall|j: usize| j < 3 ==> (#[trigger] listed(done, j)) == v.has(j)
            &&& done.len() == v.count()
            &&& 1 <= v.count() <= 3
        }),
{
    let done = v.present_order();
    reveal(all_there);
    reveal(listed);
    assert forall|k: int| 0 <= k < done.len() implies (#[trigger] done[k]) < 3 && v.has(done[k]) by {
        v.order().lemma_filter_pred(v.present(), k);
        assert(done.contains(done[k]));
        v.order().lemma_filter_contains_rev(v.present(), done[k]);
        let i = choose|i: int| 0 <= i < v.order().len() && v.order()[i] == done[k];
        assert(v.order()[i] < 3);
    }
    assert forall|j: usize| j < 3 implies (#[trigger] done.contains(j)) == v.has(j) by {
        if v.has(j) {
            assert(v.order().contains(j));
            let i = choose|i: int| 0 <= i < v.order().len() && v.order()[i] == j;
            v.order().lemma_filter_contains(v.present(), i);
        }
        if done.contains(j) {
            let k = choose|k: int| 0 <= k < done.len() && done[k] == j;
            assert(v.has(done[k]));
        }
    }
    lemma_order_len(v, done);
    assert(v.count() <= 3) by {
        reveal(there);
        lemma_count_there(v);
    }
}

/// The state after every field that is there was read makes a value that
/// holds what the unprotected header holds.
pub proof fn lemma_scan_finishes(v: UnprotectedView)
    requires
        v.reads_back(),
    ensures
        v.scan_of(v.present_order()).finished() is Ok,
        v.settled().same_content(v),
{
    let done = v.present_order();
    lemma_present_order(v);
    lemma_scan_tracked(v, done);
    assert(listed(done, 0) == v.has(0));
    assert(v.field_readable(0));
    if v.sd_claims is Some {
        lemma_salted_list_reads_back(v.sd_claims->0, v.form().sd_claims_encoding, Seq::empty());
    }
    assert(listed(done, 1) == v.has(1));
    assert(v.field_readable(1));
    assert(listed(done, 2) == v.has(2));
    assert(v.field_readable(2));
    lemma_table_reads_back(v.custom, v.form().custom_encoding, Seq::empty());
    lemma_read_all(v, done);
}

/// A field that is written reads back after the fields written before it.
pub proof fn lemma_nth_reads_back(v: UnprotectedView, i: int, tail: Seq<u8>)
    requires
        v.reads_back(),
        0 <= i < v.present_order().len(),
    ensures
        reads_as(
            unprotected_reader(v.first_scan()),
            Seq::<UnprotectedScan>::empty() + states_of(v).take(i),
            chunks(v.field_writer(), v.present_order())[i],
            tail,
            states_of(v)[i],
        ),
{
    let done = v.present_order();
    let len = v.head_len();
    let start = v.first_scan();
    let item = unprotected_reader(start);
    let ws = chunks(v.field_writer(), done);
    let vs = states_of(v);
    let none = Seq::<UnprotectedScan>::empty();
    lemma_present_order(v);
    let before = done.take(i);
    assert(UnprotectedScan::after(start, none + vs.take(i)) == v.scan_of(before)) by {
        if i == 0 {
            assert(none + vs.take(0) =~= none);
            assert(before =~= Seq::<usize>::empty());
        } else {
            assert((none + vs.take(i)).last() == vs[i - 1]);
            assert(done.take(i - 1 + 1) =~= before);
        }
    }
    assert(!listed(before, done[i])) by {
        reveal(listed);
        if before.contains(done[i]) {
            let k = choose|k: int| 0 <= k < before.len() && before[k] == done[i];
            assert(done[k] == done[i]);
        }
    }
    assert(all_there(v, before)) by {
        reveal(all_there);
        assert forall|k: int| 0 <= k < before.len() implies (#[trigger] before[k]) < 3
            && v.has(before[k]) by {
            assert(before[k] == done[k]);
        }
    }
    assert(before.no_duplicates()) by {
        assert forall|a: int, b: int| 0 <= a < before.len() && 0 <= b < before.len() && a != b
            implies before[a] != before[b] by {
            assert(before[a] == done[a]);
            assert(before[b] == done[b]);
        }
    }
    assert(v.has(done[i]) && done[i] < 3) by {
        reveal(all_there);
    }
    assert(v.field_readable(done[i]));
    lemma_entry_reads_back(v, before, done[i], tail);
    assert(before.push(done[i]) =~= done.take(i + 1));
}

/// The entries of an unprotected header that are written read back.
pub proof fn lemma_fields_read_back(v: UnprotectedView, rest: Seq<u8>)
    requires
        v.reads_back(),
    ensures
        UnprotectedView::parse_fields(
            v.fields_wire(v.order()) + v.len_encoding().ending() + rest,
            v.first_scan(),
        ) == Ok::<(UnprotectedView, nat), ErrorView>(
            (v.settled(), v.fields_wire(v.order()).len() + v.len_encoding().ending().len()),
        ),
{
    let done = v.present_order();
    let len = v.head_len();
    let start = v.first_scan();
    let item = unprotected_reader(start);
    let ws = chunks(v.field_writer(), done);
    let vs = states_of(v);
    let none = Seq::<UnprotectedScan>::empty();
    lemma_present_order(v);
    lemma_fields_present(v, v.order());
    lemma_fields_joined(v, done);
    lemma_joined_chunks(v.field_writer(), done);
    lemma_scan_finishes(v);
    assert forall|i: int, tail: Seq<u8>| 0 <= i < ws.len() implies #[trigger] reads_as(
        item,
        none + vs.take(i),
        ws[i],
        tail,
        vs[i],
    ) by {
        lemma_nth_reads_back(v, i, tail);
    }
    lemma_items_read_back(item, v.len_encoding(), none, ws, vs, rest);
    assert(none + vs =~= vs);
    assert(vs.last() == v.scan_of(done)) by {
        assert(done.take(done.len() as int) =~= done);
    }
    lemma_len_descriptor(v.len_encoding(), len, v.count() as u64);
}

impl UnprotectedView {
    /// Round trip: an unprotected header that is written reads back as an unprotected header
    /// that holds the same, whatever follows it.
    pub proof fn lemma_reads_back(self, rest: Seq<u8>)
        requires
            self.reads_back(),
        ensures
            UnprotectedView::parse(self.wire() + rest) == Ok::<(UnprotectedView, nat), ErrorView>(
                (self.settled(), self.wire().len()),
            ),
            self.settled().same_content(self),
            (self.wire() + rest).skip(self.wire().len() as int) == rest,
            self.wire().len() >= 1,
    {
        reveal(UnprotectedView::parse);
        reveal(UnprotectedView::wire);
        let len = self.head_len();
        let s = self.wire() + rest;
        let body = self.fields_wire(self.order()) + self.len_encoding().ending() + rest;
        assert(s =~= len_head(MAJOR_MAP, len) + body);
        lemma_present_order(self);
        lemma_len_descriptor(self.len_encoding(), len, self.count() as u64);
        lemma_len_head_parses(MAJOR_MAP, len, body);
        lemma_fields_read_back(self, rest);
        assert(s.skip(self.wire().len() as int) =~= rest);
        lemma_scan_finishes(self);
    }
}

impl UnprotectedView {
    /// Whether nothing in the unprotected header keeps a record of how it was written.
    pub open spec fn fresh(self) -> bool {
        &&& self.encodings is None
        &&& (self.sd_claims matches Some(v) ==> salted_fresh(v))
        &&& entries_fresh(self.custom)
    }

    /// Whether the key and the value of the field with the number `index`, if
    /// it is there, are written in the shortest form.
    pub open spec fn field_shortest(self, index: usize) -> bool {
        if index == 0 {
            self.sd_claims matches Some(v) ==> {
                &&& fitting(1111, self.form().sd_claims_key_encoding) == shortest(1111)
                &&& self.form().sd_claims_encoding.shortest_form(v.len() as u64)
                &&& salted_shortest(v)
            }
        } else if index == 1 {
            self.sd_kbt matches Some(v) ==> {
                &&& fitting(1112, self.form().sd_kbt_key_encoding) == shortest(1112)
                &&& self.form().sd_kbt_encoding.shortest_form(v.len() as u64)
            }
        } else if index == 2 {
            &&& self.form().custom_key_encoding.shortest_form(utf8_len("custom"@) as u64)
            &&& self.form().custom_encoding.shortest_form(self.custom.len() as u64)
            &&& entries_shortest(self.custom)
        } else {
            true
        }
    }

    /// Whether the head of the map, every key and every value are written in
    /// the shortest form.
    pub open spec fn shortest_form(self) -> bool {
        &&& self.len_encoding().shortest_form(self.count() as u64)
        &&& forall|j: usize| j < 3 ==> #[trigger] self.field_shortest(j)
    }

    /// Canonical form: where nothing keeps a record of how it was written, the
    /// head of the map, every key and every value are written in the shortest
    /// form.
    pub proof fn lemma_fresh_is_shortest(self)
        requires
            self.fresh(),
        ensures
            self.shortest_form(),
    {
        assert(self.field_shortest(0)) by {
            if self.sd_claims is Some {
                lemma_fresh_salted(self.sd_claims->0);
            }
        }
        assert(self.field_shortest(1));
        assert(self.field_shortest(2)) by {
            lemma_fresh_entries(self.custom);
        }
    }
}

impl UnprotectedView {
    /// Where no order is recorded, the fields are written in their own order:
    /// each field that is there once.
    pub proof fn lemma_fresh_order(self)
        requires
            self.encodings is None,
        ensures
            self.well_formed(),
            self.present_order().no_duplicates(),
            forall|j: usize| j < 3 && self.has(j) ==> #[trigger] self.order().contains(j),
    {
        let plain = seq![0usize, 1usize, 2usize];
        assert(self.order() == plain);
        assert forall|i: int| 0 <= i < 3 implies #[trigger] plain[i] == i by {
            assert(plain[0] == 0);
            assert(plain[1] == 1);
            assert(plain[2] == 2);
        }
        assert(plain.no_duplicates());
        lemma_filter_no_duplicates(plain, self.present());
        assert forall|j: usize| j < 3 implies #[trigger] plain.contains(j) by {
            assert(plain[j as int] == j);
        }
    }

    /// Round trip for what was built: an unprotected header without a record of how it
    /// was written reads back where each of its fields does.
    pub proof fn lemma_fresh_reads_back(self)
        requires
            self.encodings is None,
            forall|j: usize| j < 3 ==> #[trigger] self.field_readable(j),
        ensures
            self.reads_back(),
    {
        self.lemma_fresh_order();
    }
}

} // verus!
