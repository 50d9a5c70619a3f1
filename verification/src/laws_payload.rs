//! The laws of the codec for the set of claims.

use crate::error::ErrorView;
use crate::integer::Int;
use crate::laws_canonical::{
    digests_shortest, entries_fresh, entries_shortest, lemma_fresh_digests, lemma_fresh_entries,
};
use crate::laws_digests::{
    digests_read_back, lemma_digests_read_back, lemma_digests_written_back, settled_digests,
};
use crate::laws_lists::{
    chunks, count_writable, entry_keys, everywhere, joined, lemma_filter_all,
    lemma_filter_no_duplicates, lemma_items_read_back, lemma_items_written_back,
    lemma_joined_chunks, lemma_joined_push, lemma_listed_none, lemma_listed_push, lemma_mark_none,
    lemma_mark_push, lemma_table_reads_back, lemma_table_written_back, listed, mark, reads_as,
    settled_entries, table_reads_back, written_as,
};

use crate::laws_values::{
    lemma_bytes_read_back, lemma_bytes_written_back, lemma_fitting, lemma_len_descriptor,
    lemma_text_reads_back, lemma_text_written_back, len_writable, utf8_len,
};
use crate::ordered_hash_map::{entries_encodable, table_wire};
use crate::payload::{digest_encodings, digests_encodable, digests_wire};
use crate::payload::{all_fields, payload_reader, PayloadScan, SdPayloadEncodingView, SdPayloadView};
use crate::serialization::{
    bytes_encodable, bytes_wire, claim, fitting, parse_items, parse_text, text_encodable,
    text_wire, LenEncoding, StringEncodingView,
};
use crate::unprotected::one_if;
use crate::wire::{
    head, len_head, len_width, parse_arg, parse_len, shortest, type_of, widest, width, MAJOR_MAP,
    MAJOR_UINT,
};
use crate::wire_lemmas::{
    lemma_head_parses, lemma_head_written_back, lemma_len_head_parses, lemma_type_of_major,
};
use cbor_event::{LenSz, Sz, Type};
use vstd::prelude::*;

verus! {

broadcast use {vstd::seq_lib::lemma_seq_skip_of_skip, vstd::seq_lib::lemma_seq_skip_nothing};

impl PayloadScan {
    /// The order in which the fields were read.
    pub open spec fn order(self) -> Seq<usize> {
        self.encodings.orig_deser_order
    }

    /// Whether the field with the number `index` has been read.
    pub open spec fn has(self, index: usize) -> bool {
        if index == 0 {
            self.iss is Some
        } else if index == 1 {
            self.sub is Some
        } else if index == 2 {
            self.aud is Some
        } else if index == 3 {
            self.exp is Some
        } else if index == 4 {
            self.nbf is Some
        } else if index == 5 {
            self.iat is Some
        } else if index == 6 {
            self.cnonce is Some
        } else if index == 7 {
            self.cnf is Some
        } else if index == 8 {
            self.sd_hash is Some
        } else if index == 9 {
            self.sd_alg is Some
        } else if index == 10 {
            self.redacted_keys is Some
        } else if index == 11 {
            self.custom is Some
        } else {
            false
        }
    }

    /// How many fields have been read.
    pub open spec fn present_count(self) -> nat {
        one_if(self.iss is Some) + one_if(self.sub is Some) + one_if(self.aud is Some) + one_if(self.exp is Some)
            + one_if(self.nbf is Some) + one_if(self.iat is Some) + one_if(self.cnonce is Some) + one_if(self.cnf is Some)
            + one_if(self.sd_hash is Some) + one_if(self.sd_alg is Some) + one_if(self.redacted_keys is Some) + one_if(self.custom is Some)
    }

    /// The bytes that the field with the number `index` is written as: its
    /// key and its value, or nothing for a field that has not been read.
    pub open spec fn field_wire(self, index: usize) -> Seq<u8> {
        if index == 0 {
            match self.iss {
                Some(v) => head(MAJOR_UINT, 1, fitting(1, self.encodings.iss_key_encoding)) + text_wire(v, self.encodings.iss_encoding),
                None => Seq::empty(),
            }
        } else if index == 1 {
            match self.sub {
                Some(v) => head(MAJOR_UINT, 2, fitting(2, self.encodings.sub_key_encoding)) + text_wire(v, self.encodings.sub_encoding),
                None => Seq::empty(),
            }
        } else if index == 2 {
            match self.aud {
                Some(v) => head(MAJOR_UINT, 3, fitting(3, self.encodings.aud_key_encoding)) + text_wire(v, self.encodings.aud_encoding),
                None => Seq::empty(),
            }
        } else if index == 3 {
            match self.exp {
                Some(v) => head(MAJOR_UINT, 4, fitting(4, self.encodings.exp_key_encoding)) + v.wire(),
                None => Seq::empty(),
            }
        } else if index == 4 {
            match self.nbf {
                Some(v) => head(MAJOR_UINT, 5, fitting(5, self.encodings.nbf_key_encoding)) + v.wire(),
                None => Seq::empty(),
            }
        } else if index == 5 {
            match self.iat {
                Some(v) => head(MAJOR_UINT, 6, fitting(6, self.encodings.iat_key_encoding)) + v.wire(),
                None => Seq::empty(),
            }
        } else if index == 6 {
            match self.cnonce {
                Some(v) => head(MAJOR_UINT, 39, fitting(39, self.encodings.cnonce_key_encoding)) + bytes_wire(v, self.encodings.cnonce_encoding),
                None => Seq::empty(),
            }
        } else if index == 7 {
            match self.cnf {
                Some(v) => head(MAJOR_UINT, 8, fitting(8, self.encodings.cnf_key_encoding)) + table_wire(v, self.encodings.cnf_encoding),
                None => Seq::empty(),
            }
        } else if index == 8 {
            match self.sd_hash {
                Some(v) => head(MAJOR_UINT, 1113, fitting(1113, self.encodings.sd_hash_key_encoding)) + bytes_wire(v, self.encodings.sd_hash_encoding),
                None => Seq::empty(),
            }
        } else if index == 9 {
            match self.sd_alg {
                Some(v) => head(MAJOR_UINT, 1114, fitting(1114, self.encodings.sd_alg_key_encoding)) + v.wire(),
                None => Seq::empty(),
            }
        } else if index == 10 {
            match self.redacted_keys {
                Some(v) => head(MAJOR_UINT, 1115, fitting(1115, self.encodings.redacted_keys_key_encoding)) + digests_wire(v, self.encodings.redacted_keys_elem_encodings, self.encodings.redacted_keys_encoding),
                None => Seq::empty(),
            }
        } else if index == 11 {
            match self.custom {
                Some(v) => text_wire("custom"@, self.encodings.custom_key_encoding) + table_wire(v, self.encodings.custom_encoding),
                None => Seq::empty(),
            }
        } else {
            Seq::empty()
        }
    }

    /// Whether the field with the number `index` can be written as it
    /// stands.
    pub open spec fn field_encodable(self, index: usize) -> bool {
        if index == 0 {
            self.iss matches Some(v) ==> text_encodable(v, self.encodings.iss_encoding)
        } else if index == 1 {
            self.sub matches Some(v) ==> text_encodable(v, self.encodings.sub_encoding)
        } else if index == 2 {
            self.aud matches Some(v) ==> text_encodable(v, self.encodings.aud_encoding)
        } else if index == 3 {
            self.exp matches Some(v) ==> true
        } else if index == 4 {
            self.nbf matches Some(v) ==> true
        } else if index == 5 {
            self.iat matches Some(v) ==> true
        } else if index == 6 {
            self.cnonce matches Some(v) ==> bytes_encodable(v, self.encodings.cnonce_encoding)
        } else if index == 7 {
            self.cnf matches Some(v) ==> entries_encodable(v)
        } else if index == 8 {
            self.sd_hash matches Some(v) ==> bytes_encodable(v, self.encodings.sd_hash_encoding)
        } else if index == 9 {
            self.sd_alg matches Some(v) ==> true
        } else if index == 10 {
            self.redacted_keys matches Some(v) ==> digests_encodable(v, self.encodings.redacted_keys_elem_encodings)
        } else if index == 11 {
            self.custom matches Some(v) ==> text_encodable("custom"@, self.encodings.custom_key_encoding) && entries_encodable(v)
        } else {
            true
        }
    }

    /// Whether the field with the number `index`, if it has been read, is one
    /// that reads back after it was written.
    pub open spec fn field_readable(self, index: usize) -> bool {
        if index == 0 {
            self.iss matches Some(v) ==> len_writable(utf8_len(v), self.encodings.iss_encoding) && text_encodable(v, self.encodings.iss_encoding)
        } else if index == 1 {
            self.sub matches Some(v) ==> len_writable(utf8_len(v), self.encodings.sub_encoding) && text_encodable(v, self.encodings.sub_encoding)
        } else if index == 2 {
            self.aud matches Some(v) ==> len_writable(utf8_len(v), self.encodings.aud_encoding) && text_encodable(v, self.encodings.aud_encoding)
        } else if index == 3 {
            self.exp matches Some(v) ==> true
        } else if index == 4 {
            self.nbf matches Some(v) ==> true
        } else if index == 5 {
            self.iat matches Some(v) ==> true
        } else if index == 6 {
            self.cnonce matches Some(v) ==> len_writable(v.len(), self.encodings.cnonce_encoding) && bytes_encodable(v, self.encodings.cnonce_encoding)
        } else if index == 7 {
            self.cnf matches Some(v) ==> table_reads_back(v, self.encodings.cnf_encoding)
        } else if index == 8 {
            self.sd_hash matches Some(v) ==> len_writable(v.len(), self.encodings.sd_hash_encoding) && bytes_encodable(v, self.encodings.sd_hash_encoding)
        } else if index == 9 {
            self.sd_alg matches Some(v) ==> true
        } else if index == 10 {
            self.redacted_keys matches Some(v) ==> digests_read_back(v, self.encodings.redacted_keys_elem_encodings) && count_writable(v.len(), self.encodings.redacted_keys_encoding)
        } else if index == 11 {
            self.custom matches Some(v) ==> len_writable(utf8_len("custom"@), self.encodings.custom_key_encoding) && text_encodable("custom"@, self.encodings.custom_key_encoding) && table_reads_back(v, self.encodings.custom_encoding)
        } else {
            true
        }
    }

    /// Whether the field with the number `index` is the same in both
    /// states: its value and the way it is written.
    pub open spec fn same_field(self, other: PayloadScan, index: usize) -> bool {
        if index == 0 {
            &&& self.iss == other.iss
            &&& self.encodings.iss_encoding == other.encodings.iss_encoding
            &&& self.encodings.iss_key_encoding == other.encodings.iss_key_encoding
        } else if index == 1 {
            &&& self.sub == other.sub
            &&& self.encodings.sub_encoding == other.encodings.sub_encoding
            &&& self.encodings.sub_key_encoding == other.encodings.sub_key_encoding
        } else if index == 2 {
            &&& self.aud == other.aud
            &&& self.encodings.aud_encoding == other.encodings.aud_encoding
            &&& self.encodings.aud_key_encoding == other.encodings.aud_key_encoding
        } else if index == 3 {
            &&& self.exp == other.exp
            &&& self.encodings.exp_key_encoding == other.encodings.exp_key_encoding
        } else if index == 4 {
            &&& self.nbf == other.nbf
            &&& self.encodings.nbf_key_encoding == other.encodings.nbf_key_encoding
        } else if index == 5 {
            &&& self.iat == other.iat
            &&& self.encodings.iat_key_encoding == other.encodings.iat_key_encoding
        } else if index == 6 {
            &&& self.cnonce == other.cnonce
            &&& self.encodings.cnonce_encoding == other.encodings.cnonce_encoding
            &&& self.encodings.cnonce_key_encoding == other.encodings.cnonce_key_encoding
        } else if index == 7 {
            &&& self.cnf == other.cnf
            &&& self.encodings.cnf_encoding == other.encodings.cnf_encoding
            &&& self.encodings.cnf_key_encoding == other.encodings.cnf_key_encoding
        } else if index == 8 {
            &&& self.sd_hash == other.sd_hash
            &&& self.encodings.sd_hash_encoding == other.encodings.sd_hash_encoding
            &&& self.encodings.sd_hash_key_encoding == other.encodings.sd_hash_key_encoding
        } else if index == 9 {
            &&& self.sd_alg == other.sd_alg
            &&& self.encodings.sd_alg_key_encoding == other.encodings.sd_alg_key_encoding
        } else if index == 10 {
            &&& self.redacted_keys == other.redacted_keys
            &&& self.encodings.redacted_keys_encoding == other.encodings.redacted_keys_encoding
            &&& self.encodings.redacted_keys_elem_encodings == other.encodings.redacted_keys_elem_encodings
            &&& self.encodings.redacted_keys_key_encoding == other.encodings.redacted_keys_key_encoding
        } else if index == 11 {
            &&& self.custom == other.custom
            &&& self.encodings.custom_encoding == other.encodings.custom_encoding
            &&& self.encodings.custom_key_encoding == other.encodings.custom_key_encoding
        } else {
            true
        }
    }

    /// The bytes of the entry that was read last.
    pub open spec fn last_wire(self) -> Seq<u8> {
        if self.order().len() == 0 {
            Seq::empty()
        } else {
            self.field_wire(self.order().last())
        }
    }

    /// The fields with the given numbers, one after the other.
    pub open spec fn fields_wire(self, order: Seq<usize>) -> Seq<u8>
        decreases order.len(),
    {
        if order.len() == 0 {
            Seq::empty()
        } else {
            self.fields_wire(order.drop_last()) + self.field_wire(order.last())
        }
    }

    /// Whether `next` is this state after one more entry was read: a field
    /// that had not been read has been read and can be written, and the
    /// other fields are as they were.
    pub open spec fn extends(self, next: PayloadScan) -> bool {
        let index = next.order().last();
        &&& next.order().len() == self.order().len() + 1
        &&& next.order() == self.order().push(index)
        &&& index < 12
        &&& !self.has(index)
        &&& next.has(index)
        &&& next.field_encodable(index)
        &&& next.field_readable(index)
        &&& next.encodings.len_encoding == self.encodings.len_encoding
        &&& forall|j: usize| j < 12 && j != index ==> #[trigger] next.same_field(self, j)
    }

    /// Whether the state is one that reading entries leads to: as many
    /// fields have been read as the order holds, each field in the order has
    /// been read, can be written and reads back, and the order holds each
    /// field that has been read once.
    pub open spec fn sound(self) -> bool {
        &&& self.order().len() == self.present_count()
        &&& forall|k: int|
            0 <= k < self.order().len() ==> (#[trigger] self.order()[k]) < 12 && self.has(
                self.order()[k],
            ) && self.field_encodable(self.order()[k]) && self.field_readable(self.order()[k])
        &&& self.order().no_duplicates()
        &&& forall|j: usize| j < 12 && self.has(j) ==> #[trigger] self.order().contains(j)
    }
}

/// A field that is the same in two states has been read in both or in
/// neither, and is written the same way.
pub proof fn lemma_same_field(a: PayloadScan, b: PayloadScan, j: usize)
    requires
        a.same_field(b, j),
    ensures
        a.has(j) == b.has(j),
        a.field_wire(j) == b.field_wire(j),
        a.field_encodable(j) == b.field_encodable(j),
        a.field_readable(j) == b.field_readable(j),
{
}

/// Fields that are the same in two states are written the same way.
pub proof fn lemma_same_fields(a: PayloadScan, b: PayloadScan, order: Seq<usize>)
    requires
        forall|k: int| 0 <= k < order.len() ==> a.same_field(b, #[trigger] order[k]),
    ensures
        a.fields_wire(order) == b.fields_wire(order),
    decreases order.len(),
{
    if order.len() != 0 {
        let fewer = order.drop_last();
        assert forall|k: int| 0 <= k < fewer.len() implies a.same_field(b, #[trigger] fewer[k]) by {
            assert(fewer[k] == order[k]);
        }
        lemma_same_fields(a, b, fewer);
        assert(a.same_field(b, order[order.len() - 1]));
        lemma_same_field(a, b, order.last());
    }
}

/// The entry of the key 1 that is read is written back as the bytes it
/// was read from, and leaves the other fields as they were.
pub proof fn lemma_iss_written_back(st: PayloadScan, key_enc: Sz, body: Seq<u8>)
    requires
        st.after_uint_key(1, key_enc, body) is Ok,
        1 <= widest(key_enc),
    ensures
        ({
            let (next, m) = st.after_uint_key(1, key_enc, body)->Ok_0;
            &&& 1 <= m <= body.len()
            &&& st.extends(next)
            &&& next.order().last() == 0
            &&& next.field_wire(0) == head(MAJOR_UINT, 1, key_enc) + body.subrange(
                0,
                m as int,
            )
        }),
{
    let (next, m) = st.after_uint_key(1, key_enc, body)->Ok_0;
    lemma_text_written_back(body);
    assert(next.order() =~= st.order().push(0));
    assert forall|j: usize| j < 12 && j != 0 implies #[trigger] next.same_field(st, j) by {
    }
}

/// The entry of the key 2 that is read is written back as the bytes it
/// was read from, and leaves the other fields as they were.
pub proof fn lemma_sub_written_back(st: PayloadScan, key_enc: Sz, body: Seq<u8>)
    requires
        st.after_uint_key(2, key_enc, body) is Ok,
        2 <= widest(key_enc),
    ensures
        ({
            let (next, m) = st.after_uint_key(2, key_enc, body)->Ok_0;
            &&& 1 <= m <= body.len()
            &&& st.extends(next)
            &&& next.order().last() == 1
            &&& next.field_wire(1) == head(MAJOR_UINT, 2, key_enc) + body.subrange(
                0,
                m as int,
            )
        }),
{
    let (next, m) = st.after_uint_key(2, key_enc, body)->Ok_0;
    lemma_text_written_back(body);
    assert(next.order() =~= st.order().push(1));
    assert forall|j: usize| j < 12 && j != 1 implies #[trigger] next.same_field(st, j) by {
    }
}

/// The entry of the key 3 that is read is written back as the bytes it
/// was read from, and leaves the other fields as they were.
pub proof fn lemma_aud_written_back(st: PayloadScan, key_enc: Sz, body: Seq<u8>)
    requires
        st.after_uint_key(3, key_enc, body) is Ok,
        3 <= widest(key_enc),
    ensures
        ({
            let (next, m) = st.after_uint_key(3, key_enc, body)->Ok_0;
            &&& 1 <= m <= body.len()
            &&& st.extends(next)
            &&& next.order().last() == 2
            &&& next.field_wire(2) == head(MAJOR_UINT, 3, key_enc) + body.subrange(
                0,
                m as int,
            )
        }),
{
    let (next, m) = st.after_uint_key(3, key_enc, body)->Ok_0;
    lemma_text_written_back(body);
    assert(next.order() =~= st.order().push(2));
    assert forall|j: usize| j < 12 && j != 2 implies #[trigger] next.same_field(st, j) by {
    }
}

/// The entry of the key 4 that is read is written back as the bytes it
/// was read from, and leaves the other fields as they were.
pub proof fn lemma_exp_written_back(st: PayloadScan, key_enc: Sz, body: Seq<u8>)
    requires
        st.after_uint_key(4, key_enc, body) is Ok,
        4 <= widest(key_enc),
    ensures
        ({
            let (next, m) = st.after_uint_key(4, key_enc, body)->Ok_0;
            &&& 1 <= m <= body.len()
            &&& st.extends(next)
            &&& next.order().last() == 3
            &&& next.field_wire(3) == head(MAJOR_UINT, 4, key_enc) + body.subrange(
                0,
                m as int,
            )
        }),
{
    let (next, m) = st.after_uint_key(4, key_enc, body)->Ok_0;
    Int::lemma_written_back(body);
    assert(next.order() =~= st.order().push(3));
    assert forall|j: usize| j < 12 && j != 3 implies #[trigger] next.same_field(st, j) by {
    }
}

/// The entry of the key 5 that is read is written back as the bytes it
/// was read from, and leaves the other fields as they were.
pub proof fn lemma_nbf_written_back(st: PayloadScan, key_enc: Sz, body: Seq<u8>)
    requires
        st.after_uint_key(5, key_enc, body) is Ok,
        5 <= widest(key_enc),
    ensures
        ({
            let (next, m) = st.after_uint_key(5, key_enc, body)->Ok_0;
            &&& 1 <= m <= body.len()
            &&& st.extends(next)
            &&& next.order().last() == 4
            &&& next.field_wire(4) == head(MAJOR_UINT, 5, key_enc) + body.subrange(
                0,
                m as int,
            )
        }),
{
    let (next, m) = st.after_uint_key(5, key_enc, body)->Ok_0;
    Int::lemma_written_back(body);
    assert(next.order() =~= st.order().push(4));
    assert forall|j: usize| j < 12 && j != 4 implies #[trigger] next.same_field(st, j) by {
    }
}

/// The entry of the key 6 that is read is written back as the bytes it
/// was read from, and leaves the other fields as they were.
pub proof fn lemma_iat_written_back(st: PayloadScan, key_enc: Sz, body: Seq<u8>)
    requires
        st.after_uint_key(6, key_enc, body) is Ok,
        6 <= widest(key_enc),
    ensures
        ({
            let (next, m) = st.after_uint_key(6, key_enc, body)->Ok_0;
            &&& 1 <= m <= body.len()
            &&& st.extends(next)
            &&& next.order().last() == 5
            &&& next.field_wire(5) == head(MAJOR_UINT, 6, key_enc) + body.subrange(
                0,
                m as int,
            )
        }),
{
    let (next, m) = st.after_uint_key(6, key_enc, body)->Ok_0;
    Int::lemma_written_back(body);
    assert(next.order() =~= st.order().push(5));
    assert forall|j: usize| j < 12 && j != 5 implies #[trigger] next.same_field(st, j) by {
    }
}

/// The entry of the key 39 that is read is written back as the bytes it
/// was read from, and leaves the other fields as they were.
pub proof fn lemma_cnonce_written_back(st: PayloadScan, key_enc: Sz, body: Seq<u8>)
    requires
        st.after_uint_key(39, key_enc, body) is Ok,
        39 <= widest(key_enc),
    ensures
        ({
            let (next, m) = st.after_uint_key(39, key_enc, body)->Ok_0;
            &&& 1 <= m <= body.len()
            &&& st.extends(next)
            &&& next.order().last() == 6
            &&& next.field_wire(6) == head(MAJOR_UINT, 39, key_enc) + body.subrange(
                0,
                m as int,
            )
        }),
{
    let (next, m) = st.after_uint_key(39, key_enc, body)->Ok_0;
    lemma_bytes_written_back(body);
    assert(next.order() =~= st.order().push(6));
    assert forall|j: usize| j < 12 && j != 6 implies #[trigger] next.same_field(st, j) by {
    }
}

/// The entry of the key 8 that is read is written back as the bytes it
/// was read from, and leaves the other fields as they were.
pub proof fn lemma_cnf_written_back(st: PayloadScan, key_enc: Sz, body: Seq<u8>)
    requires
        st.after_uint_key(8, key_enc, body) is Ok,
        8 <= widest(key_enc),
    ensures
        ({
            let (next, m) = st.after_uint_key(8, key_enc, body)->Ok_0;
            &&& 1 <= m <= body.len()
            &&& st.extends(next)
            &&& next.order().last() == 7
            &&& next.field_wire(7) == head(MAJOR_UINT, 8, key_enc) + body.subrange(
                0,
                m as int,
            )
        }),
{
    let (next, m) = st.after_uint_key(8, key_enc, body)->Ok_0;
    lemma_table_written_back(body);
    assert(next.order() =~= st.order().push(7));
    assert forall|j: usize| j < 12 && j != 7 implies #[trigger] next.same_field(st, j) by {
    }
}

/// The entry of the key 1113 that is read is written back as the bytes it
/// was read from, and leaves the other fields as they were.
pub proof fn lemma_sd_hash_written_back(st: PayloadScan, key_enc: Sz, body: Seq<u8>)
    requires
        st.after_uint_key(1113, key_enc, body) is Ok,
        1113 <= widest(key_enc),
    ensures
        ({
            let (next, m) = st.after_uint_key(1113, key_enc, body)->Ok_0;
            &&& 1 <= m <= body.len()
            &&& st.extends(next)
            &&& next.order().last() == 8
            &&& next.field_wire(8) == head(MAJOR_UINT, 1113, key_enc) + body.subrange(
                0,
                m as int,
            )
        }),
{
    let (next, m) = st.after_uint_key(1113, key_enc, body)->Ok_0;
    lemma_bytes_written_back(body);
    assert(next.order() =~= st.order().push(8));
    assert forall|j: usize| j < 12 && j != 8 implies #[trigger] next.same_field(st, j) by {
    }
}

/// The entry of the key 1114 that is read is written back as the bytes it
/// was read from, and leaves the other fields as they were.
pub proof fn lemma_sd_alg_written_back(st: PayloadScan, key_enc: Sz, body: Seq<u8>)
    requires
        st.after_uint_key(1114, key_enc, body) is Ok,
        1114 <= widest(key_enc),
    ensures
        ({
            let (next, m) = st.after_uint_key(1114, key_enc, body)->Ok_0;
            &&& 1 <= m <= body.len()
            &&& st.extends(next)
            &&& next.order().last() == 9
            &&& next.field_wire(9) == head(MAJOR_UINT, 1114, key_enc) + body.subrange(
                0,
                m as int,
            )
        }),
{
    let (next, m) = st.after_uint_key(1114, key_enc, body)->Ok_0;
    Int::lemma_written_back(body);
    assert(next.order() =~= st.order().push(9));
    assert forall|j: usize| j < 12 && j != 9 implies #[trigger] next.same_field(st, j) by {
    }
}

/// The entry of the key 1115 that is read is written back as the bytes it
/// was read from, and leaves the other fields as they were.
pub proof fn lemma_redacted_keys_written_back(st: PayloadScan, key_enc: Sz, body: Seq<u8>)
    requires
        st.after_uint_key(1115, key_enc, body) is Ok,
        1115 <= widest(key_enc),
    ensures
        ({
            let (next, m) = st.after_uint_key(1115, key_enc, body)->Ok_0;
            &&& 1 <= m <= body.len()
            &&& st.extends(next)
            &&& next.order().last() == 10
            &&& next.field_wire(10) == head(MAJOR_UINT, 1115, key_enc) + body.subrange(
                0,
                m as int,
            )
        }),
{
    let (next, m) = st.after_uint_key(1115, key_enc, body)->Ok_0;
    lemma_digests_written_back(body);
    assert(next.order() =~= st.order().push(10));
    assert forall|j: usize| j < 12 && j != 10 implies #[trigger] next.same_field(st, j) by {
    }
}

/// The extension entries that are read are written back as the bytes they
/// were read from, and leave the other fields as they were.
pub proof fn lemma_custom_written_back(st: PayloadScan, key_enc: StringEncodingView, body: Seq<u8>)
    requires
        st.after_text_key("custom"@, key_enc, body) is Ok,
        text_encodable("custom"@, key_enc),
        len_writable(utf8_len("custom"@), key_enc),
    ensures
        ({
            let (next, m) = st.after_text_key("custom"@, key_enc, body)->Ok_0;
            &&& 1 <= m <= body.len()
            &&& st.extends(next)
            &&& next.order().last() == 11
            &&& next.field_wire(11) == text_wire("custom"@, key_enc) + body.subrange(0, m as int)
        }),
{
    let (next, m) = st.after_text_key("custom"@, key_enc, body)->Ok_0;
    lemma_table_written_back(body);
    assert(next.order() =~= st.order().push(11));
    assert forall|j: usize| j < 12 && j != 11 implies #[trigger] next.same_field(st, j) by {
    }
}

/// Byte preservation for one entry: an entry that is read is written back
/// as the bytes it was read from, and leaves the other fields as they were.
pub proof fn lemma_entry_written_back(st: PayloadScan, t: Seq<u8>)
    requires
        st.after_entry(t) is Ok,
    ensures
        ({
            let (next, m) = st.after_entry(t)->Ok_0;
            &&& 1 <= m <= t.len()
            &&& st.extends(next)
            &&& next.last_wire() == t.subrange(0, m as int)
        }),
{
    reveal(PayloadScan::after_entry);
    let (next, m) = st.after_entry(t)->Ok_0;
    lemma_type_of_major(t[0]);
    if type_of(t[0]) == Type::UnsignedInteger {
        lemma_head_written_back(MAJOR_UINT, t);
        let (key, key_enc) = parse_arg(MAJOR_UINT, t)->0;
        let start = 1 + width(key_enc);
        let body = t.skip(start as int);
        if key == 1 {
            lemma_iss_written_back(st, key_enc, body);
        } else if key == 2 {
            lemma_sub_written_back(st, key_enc, body);
        } else if key == 3 {
            lemma_aud_written_back(st, key_enc, body);
        } else if key == 4 {
            lemma_exp_written_back(st, key_enc, body);
        } else if key == 5 {
            lemma_nbf_written_back(st, key_enc, body);
        } else if key == 6 {
            lemma_iat_written_back(st, key_enc, body);
        } else if key == 8 {
            lemma_cnf_written_back(st, key_enc, body);
        } else if key == 39 {
            lemma_cnonce_written_back(st, key_enc, body);
        } else if key == 1113 {
            lemma_sd_hash_written_back(st, key_enc, body);
        } else if key == 1114 {
            lemma_sd_alg_written_back(st, key_enc, body);
        } else if key == 1115 {
            lemma_redacted_keys_written_back(st, key_enc, body);
        }
        assert(t.subrange(0, m as int) =~= t.subrange(0, start as int) + body.subrange(
            0,
            (m - start) as int,
        ));
    } else {
        lemma_text_written_back(t);
        let (key, key_enc, k) = parse_text(t)->0;
        let body = t.skip(k as int);
        lemma_custom_written_back(st, key_enc, body);
        assert(t.subrange(0, m as int) =~= t.subrange(0, k as int) + body.subrange(
            0,
            (m - k) as int,
        ));
    }
}

/// How the entry that a state was read from last is written.
pub open spec fn scan_wire() -> spec_fn(PayloadScan) -> Seq<u8> {
    |st: PayloadScan| st.last_wire()
}

/// Whether a state is the state before it after one more entry.
pub open spec fn scan_step(start: PayloadScan) -> spec_fn(Seq<PayloadScan>, PayloadScan) -> bool {
    |acc: Seq<PayloadScan>, st: PayloadScan| PayloadScan::after(start, acc).extends(st)
}

/// The states that reading entries leads through: each is sound, and the
/// entries that led to it, one after the other, are what its fields are
/// written as in the order in which they were read.
pub proof fn lemma_chain(start: PayloadScan, all: Seq<PayloadScan>, i: nat)
    requires
        start.order().len() == 0,
        start.present_count() == 0,
        i <= all.len(),
        forall|k: int| 0 <= k < all.len() ==> #[trigger] scan_step(start)(all.take(k), all[k]),
    ensures
        ({
            let st = PayloadScan::after(start, all.take(i as int));
            &&& st.sound()
            &&& st.order().len() == i
            &&& st.fields_wire(st.order()) == joined(scan_wire(), all.take(i as int))
            &&& st.encodings.len_encoding == start.encodings.len_encoding
        }),
    decreases i,
{
    if i == 0 {
        assert(all.take(0) =~= Seq::<PayloadScan>::empty());
    } else {
        lemma_chain(start, all, (i - 1) as nat);
        let prev = PayloadScan::after(start, all.take(i - 1));
        let st = all[i - 1];
        assert(scan_step(start)(all.take(i - 1), all[i - 1]));
        assert(all.take(i as int).last() == st);
        assert(all.take(i as int).drop_last() =~= all.take(i - 1));
        let index = st.order().last();
        assert(st.order().drop_last() =~= prev.order());
        assert forall|k: int| 0 <= k < prev.order().len() implies st.same_field(
            prev,
            #[trigger] prev.order()[k],
        ) by {
            assert(prev.has(prev.order()[k]));
        }
        lemma_same_fields(st, prev, prev.order());
        lemma_joined_push(scan_wire(), all.take(i - 1), st);
        assert(all.take(i - 1).push(st) =~= all.take(i as int));
        assert(st.order() == prev.order().push(index));
        assert(!prev.order().contains(index)) by {
            if prev.order().contains(index) {
                let k = choose|k: int| 0 <= k < prev.order().len() && prev.order()[k] == index;
                assert(prev.has(prev.order()[k]));
            }
        }
        assert(st.order().no_duplicates()) by {
            assert forall|a: int, b: int|
                0 <= a < st.order().len() && 0 <= b < st.order().len() && a != b implies st.order()[a]
                != st.order()[b] by {
                if a < prev.order().len() {
                    assert(prev.order().contains(prev.order()[a]));
                }
                if b < prev.order().len() {
                    assert(prev.order().contains(prev.order()[b]));
                }
            }
        }
        assert forall|j: usize| j < 12 && st.has(j) implies #[trigger] st.order().contains(j) by {
            if j == index {
                assert(st.order()[st.order().len() - 1] == j);
            } else {
                assert(st.same_field(prev, j));
                lemma_same_field(st, prev, j);
                assert(prev.order().contains(j));
                let k = choose|k: int| 0 <= k < prev.order().len() && prev.order()[k] == j;
                assert(st.order()[k] == j);
            }
        }
        assert forall|k: int| 0 <= k < st.order().len() implies (
        #[trigger] st.order()[k]) < 12 && st.has(st.order()[k]) && st.field_encodable(
            st.order()[k],
        ) && st.field_readable(st.order()[k]) by {
            if k < prev.order().len() {
                assert(st.order()[k] == prev.order()[k]);
                assert(st.same_field(prev, prev.order()[k]));
                lemma_same_field(st, prev, prev.order()[k]);
            }
        }
        lemma_count_grows(prev, st);
    }
}

/// One more field has been read after one more entry.
pub proof fn lemma_count_grows(prev: PayloadScan, st: PayloadScan)
    requires
        prev.extends(st),
    ensures
        st.present_count() == prev.present_count() + 1,
{
    let index = st.order().last();
    if index != 0 {
        assert(st.same_field(prev, 0));
    }
    if index != 1 {
        assert(st.same_field(prev, 1));
    }
    if index != 2 {
        assert(st.same_field(prev, 2));
    }
    if index != 3 {
        assert(st.same_field(prev, 3));
    }
    if index != 4 {
        assert(st.same_field(prev, 4));
    }
    if index != 5 {
        assert(st.same_field(prev, 5));
    }
    if index != 6 {
        assert(st.same_field(prev, 6));
    }
    if index != 7 {
        assert(st.same_field(prev, 7));
    }
    if index != 8 {
        assert(st.same_field(prev, 8));
    }
    if index != 9 {
        assert(st.same_field(prev, 9));
    }
    if index != 10 {
        assert(st.same_field(prev, 10));
    }
    if index != 11 {
        assert(st.same_field(prev, 11));
    }
}

/// The fields of a value are written the way the fields of the state that
/// it was made from are written.
pub proof fn lemma_view_fields(v: SdPayloadView, st: PayloadScan, order: Seq<usize>)
    requires
        st.finished() == Ok::<_, crate::error::FailureView>(v),
    ensures
        v.fields_wire(order) == st.fields_wire(order),
    decreases order.len(),
{
    if order.len() != 0 {
        lemma_view_fields(v, st, order.drop_last());
        lemma_view_field(v, st, order.last());
    }
}

/// A field of a value is written the way the field of the state that it was
/// made from is written.
pub proof fn lemma_view_field(v: SdPayloadView, st: PayloadScan, index: usize)
    requires
        st.finished() == Ok::<_, crate::error::FailureView>(v),
    ensures
        v.field_wire(index) == st.field_wire(index),
        index < 12 && st.has(index) ==> v.field_encodable(index) == st.field_encodable(index),
        index < 12 && st.has(index) ==> v.field_readable(index) == st.field_readable(index),
        index < 12 ==> v.has(index) == st.has(index),
{
}

/// The value that a sound state makes is written in the order in which its
/// fields were read, the way they were read, and can be written.
pub proof fn lemma_finished(st: PayloadScan)
    requires
        st.finished() is Ok,
        st.sound(),
    ensures
        ({
            let v = st.finished()->Ok_0;
            &&& v.count() == st.order().len()
            &&& v.order() == st.order()
            &&& v.fields_wire(v.order()) == st.fields_wire(st.order())
            &&& v.len_encoding() == st.encodings.len_encoding
            &&& v.well_formed()
            &&& v.encodable()
            &&& v.reads_back()
        }),
{
    let v = st.finished()->Ok_0;
    assert(v.count() == st.present_count());
    assert(v.order() == st.order());
    lemma_view_fields(v, st, st.order());
    assert forall|i: int| 0 <= i < v.order().len() implies v.field_encodable(
        #[trigger] v.order()[i],
    ) by {
        assert(st.has(st.order()[i]));
        lemma_view_field(v, st, v.order()[i]);
    }
    assert forall|j: usize| j < 12 implies (#[trigger] v.field_readable(j)) && v.has(j) == st.has(j) by {
        lemma_view_field(v, st, j);
        if st.has(j) {
            assert(st.order().contains(j));
            let k = choose|k: int| 0 <= k < st.order().len() && st.order()[k] == j;
            assert(st.field_readable(st.order()[k]));
        }
    }
    assert forall|k: int| 0 <= k < v.order().len() implies (v.present())(#[trigger] v.order()[k]) by {
        assert(st.has(st.order()[k]));
        lemma_view_field(v, st, v.order()[k]);
    }
    lemma_filter_all(v.order(), v.present());
    assert forall|j: usize| j < 12 && v.has(j) implies #[trigger] v.order().contains(j) by {
        lemma_view_field(v, st, j);
    }
}

/// Any place is a place to read an entry.
pub open spec fn good_place() -> spec_fn(Seq<PayloadScan>, Seq<u8>) -> bool {
    |acc: Seq<PayloadScan>, s: Seq<u8>| true
}

/// Any place is good everywhere.
pub proof fn lemma_good_everywhere(
    item: spec_fn(Seq<PayloadScan>, Seq<u8>) -> Result<(PayloadScan, nat), ErrorView>,
    len: LenSz,
    acc: Seq<PayloadScan>,
    s: Seq<u8>,
)
    ensures
        everywhere(good_place(), item, len, acc, s),
    decreases s.len(),
{
    if crate::laws_lists::wants_more(len, acc.len()) && s.len() != 0 && type_of(s[0])
        != Type::Special {
        match item(acc, s) {
            Ok((v, used)) => {
                if 0 < used <= s.len() {
                    lemma_good_everywhere(item, len, acc.push(v), s.skip(used as int));
                }
            },
            Err(_) => {},
        }
    }
}

/// The entries of the set of claims that are read are written back as the
/// bytes they were read from.
pub proof fn lemma_fields_written_back(s: Seq<u8>, start: PayloadScan)
    requires
        SdPayloadView::parse_fields(s, start) is Ok,
        start == PayloadScan::start(start.len, start.claimed),
    ensures
        ({
            let (v, n) = SdPayloadView::parse_fields(s, start)->Ok_0;
            &&& n <= s.len()
            &&& v.well_formed()
            &&& v.encodable()
            &&& v.reads_back()
            &&& v.len_encoding() == LenEncoding::of(start.len)
            &&& start.len matches LenSz::Len(m, _) ==> v.count() == m
            &&& v.fields_wire(v.order()) + LenEncoding::of(start.len).ending() == s.subrange(
                0,
                n as int,
            )
        }),
{
    let none = Seq::<PayloadScan>::empty();
    let item = payload_reader(start);
    assert forall|a: Seq<PayloadScan>, t: Seq<u8>| (#[trigger] good_place()(a, t)) && item(a, t) is Ok
        implies ({
        let (v, used) = item(a, t)->Ok_0;
        written_as(scan_wire(), scan_step(start), a, t, v, used)
    }) by {
        lemma_entry_written_back(PayloadScan::after(start, a), t);
    }
    lemma_good_everywhere(item, start.len, none, s);
    lemma_items_written_back(item, scan_wire(), scan_step(start), good_place(), start.len, none, s);
    let (all, n) = parse_items(item, start.len, none, s)->Ok_0;
    lemma_chain(start, all, all.len());
    assert(all.take(all.len() as int) =~= all);
    let last = PayloadScan::after(start, all);
    lemma_finished(last);
    assert(joined(scan_wire(), none) =~= Seq::<u8>::empty());
}

impl SdPayloadView {
    /// Byte preservation: a set of claims that is read is written back as the
    /// bytes it was read from.
    pub proof fn lemma_written_back(s: Seq<u8>)
        requires
            SdPayloadView::parse(s) is Ok,
        ensures
            ({
                let (v, n) = SdPayloadView::parse(s)->Ok_0;
                &&& 1 <= n <= s.len()
                &&& v.well_formed()
                &&& v.encodable()
                &&& v.reads_back()
                &&& v.wire() == s.subrange(0, n as int)
            }),
    {
        reveal(SdPayloadView::parse);
        reveal(SdPayloadView::wire);
        let (v, n) = SdPayloadView::parse(s)->Ok_0;
        let len = parse_len(MAJOR_MAP, s)->0;
        let start_at = 1 + len_width(len);
        lemma_head_written_back(MAJOR_MAP, s);
        let body = s.skip(start_at as int);
        lemma_fields_written_back(body, PayloadScan::start(len, 0));
        lemma_len_descriptor(v.len_encoding(), len, v.count() as u64);
        assert(s.subrange(0, n as int) =~= s.subrange(0, start_at as int) + body.subrange(
            0,
            (n - start_at) as int,
        ));
    }
}

impl SdPayloadView {
    /// Whether the field with the number `index` is there.
    pub open spec fn has(self, index: usize) -> bool {
        if index == 0 {
            self.iss is Some
        } else if index == 1 {
            self.sub is Some
        } else if index == 2 {
            true
        } else if index == 3 {
            self.exp is Some
        } else if index == 4 {
            self.nbf is Some
        } else if index == 5 {
            true
        } else if index == 6 {
            self.cnonce is Some
        } else if index == 7 {
            self.cnf is Some
        } else if index == 8 {
            self.sd_hash is Some
        } else if index == 9 {
            self.sd_alg is Some
        } else if index == 10 {
            self.redacted_keys is Some
        } else if index == 11 {
            true
        } else {
            false
        }
    }

    /// Whether a field is there.
    pub open spec fn present(self) -> spec_fn(usize) -> bool {
        |index: usize| self.has(index)
    }

    /// The order in which the fields that are there are written.
    pub open spec fn present_order(self) -> Seq<usize> {
        self.order().filter(self.present())
    }

    /// Whether the field with the number `index`, if it is there, is one
    /// that reads back after it was written.
    pub open spec fn field_readable(self, index: usize) -> bool {
        if index == 0 {
            self.iss matches Some(v) ==> len_writable(utf8_len(v), self.form().iss_encoding) && text_encodable(v, self.form().iss_encoding)
        } else if index == 1 {
            self.sub matches Some(v) ==> len_writable(utf8_len(v), self.form().sub_encoding) && text_encodable(v, self.form().sub_encoding)
        } else if index == 2 {
            len_writable(utf8_len(self.aud), self.form().aud_encoding) && text_encodable(self.aud, self.form().aud_encoding)
        } else if index == 3 {
            self.exp matches Some(v) ==> true
        } else if index == 4 {
            self.nbf matches Some(v) ==> true
        } else if index == 5 {
            true
        } else if index == 6 {
            self.cnonce matches Some(v) ==> len_writable(v.len(), self.form().cnonce_encoding) && bytes_encodable(v, self.form().cnonce_encoding)
        } else if index == 7 {
            self.cnf matches Some(v) ==> table_reads_back(v, self.form().cnf_encoding)
        } else if index == 8 {
            self.sd_hash matches Some(v) ==> len_writable(v.len(), self.form().sd_hash_encoding) && bytes_encodable(v, self.form().sd_hash_encoding)
        } else if index == 9 {
            self.sd_alg matches Some(v) ==> true
        } else if index == 10 {
            self.redacted_keys matches Some(v) ==> digests_read_back(v, self.form().redacted_keys_elem_encodings) && count_writable(v.len(), self.form().redacted_keys_encoding)
        } else if index == 11 {
            len_writable(utf8_len("custom"@), self.form().custom_key_encoding) && text_encodable("custom"@, self.form().custom_key_encoding) && table_reads_back(self.custom, self.form().custom_encoding)
        } else {
            true
        }
    }

    /// Whether the set of claims is one that reads back after it was written:
    /// every field that is there is written once and reads back.
    pub open spec fn reads_back(self) -> bool {
        &&& self.well_formed()
        &&& self.present_order().no_duplicates()
        &&& forall|j: usize| j < 12 && self.has(j) ==> #[trigger] self.order().contains(j)
        &&& forall|j: usize| j < 12 ==> #[trigger] self.field_readable(j)
    }

    /// The head of the map.
    pub open spec fn head_len(self) -> LenSz {
        self.len_encoding().head_for(self.count() as u64)
    }

    /// What has been found before the first field is read from what the
    /// set of claims is written as.
    pub open spec fn first_scan(self) -> PayloadScan {
        PayloadScan::start(self.head_len(), 0)
    }

    /// The state `st` after the field with the number `index` is read from
    /// what the set of claims is written as.
    pub open spec fn scan_step(self, st: PayloadScan, index: usize) -> PayloadScan {
        if index == 0 {
            match self.iss {
                Some(v) => PayloadScan {
                    iss: Some(v),
                    encodings: SdPayloadEncodingView {
                        iss_encoding: self.form().iss_encoding.settled(utf8_len(v) as u64),
                        iss_key_encoding: Some(fitting(1, self.form().iss_key_encoding)),
                        orig_deser_order: st.encodings.orig_deser_order.push(0),
                        ..st.encodings
                    },
                    claimed: claim(st.len, st.claimed, 1)->Ok_0,
                    ..st
                },
                None => st,
            }
        } else if index == 1 {
            match self.sub {
                Some(v) => PayloadScan {
                    sub: Some(v),
                    encodings: SdPayloadEncodingView {
                        sub_encoding: self.form().sub_encoding.settled(utf8_len(v) as u64),
                        sub_key_encoding: Some(fitting(2, self.form().sub_key_encoding)),
                        orig_deser_order: st.encodings.orig_deser_order.push(1),
                        ..st.encodings
                    },
                    claimed: claim(st.len, st.claimed, 1)->Ok_0,
                    ..st
                },
                None => st,
            }
        } else if index == 2 {
            PayloadScan {
                aud: Some(self.aud),
                encodings: SdPayloadEncodingView {
                    aud_encoding: self.form().aud_encoding.settled(utf8_len(self.aud) as u64),
                    aud_key_encoding: Some(fitting(3, self.form().aud_key_encoding)),
                    orig_deser_order: st.encodings.orig_deser_order.push(2),
                    ..st.encodings
                },
                claimed: claim(st.len, st.claimed, 1)->Ok_0,
                ..st
            }
        } else if index == 3 {
            match self.exp {
                Some(v) => PayloadScan {
                    exp: Some(v.settled()),
                    encodings: SdPayloadEncodingView {
                        exp_key_encoding: Some(fitting(4, self.form().exp_key_encoding)),
                        orig_deser_order: st.encodings.orig_deser_order.push(3),
                        ..st.encodings
                    },
                    claimed: claim(st.len, st.claimed, 1)->Ok_0,
                    ..st
                },
                None => st,
            }
        } else if index == 4 {
            match self.nbf {
                Some(v) => PayloadScan {
                    nbf: Some(v.settled()),
                    encodings: SdPayloadEncodingView {
                        nbf_key_encoding: Some(fitting(5, self.form().nbf_key_encoding)),
                        orig_deser_order: st.encodings.orig_deser_order.push(4),
                        ..st.encodings
                    },
                    claimed: claim(st.len, st.claimed, 1)->Ok_0,
                    ..st
                },
                None => st,
            }
        } else if index == 5 {
            PayloadScan {
                iat: Some(self.iat.settled()),
                encodings: SdPayloadEncodingView {
                    iat_key_encoding: Some(fitting(6, self.form().iat_key_encoding)),
                    orig_deser_order: st.encodings.orig_deser_order.push(5),
                    ..st.encodings
                },
                claimed: claim(st.len, st.claimed, 1)->Ok_0,
                ..st
            }
        } else if index == 6 {
            match self.cnonce {
                Some(v) => PayloadScan {
                    cnonce: Some(v),
                    encodings: SdPayloadEncodingView {
                        cnonce_encoding: self.form().cnonce_encoding.settled(v.len() as u64),
                        cnonce_key_encoding: Some(fitting(39, self.form().cnonce_key_encoding)),
                        orig_deser_order: st.encodings.orig_deser_order.push(6),
                        ..st.encodings
                    },
                    claimed: claim(st.len, st.claimed, 1)->Ok_0,
                    ..st
                },
                None => st,
            }
        } else if index == 7 {
            match self.cnf {
                Some(v) => PayloadScan {
                    cnf: Some(settled_entries(v)),
                    encodings: SdPayloadEncodingView {
                        cnf_encoding: self.form().cnf_encoding.settled(v.len() as u64),
                        cnf_key_encoding: Some(fitting(8, self.form().cnf_key_encoding)),
                        orig_deser_order: st.encodings.orig_deser_order.push(7),
                        ..st.encodings
                    },
                    claimed: claim(st.len, st.claimed, 1)->Ok_0,
                    ..st
                },
                None => st,
            }
        } else if index == 8 {
            match self.sd_hash {
                Some(v) => PayloadScan {
                    sd_hash: Some(v),
                    encodings: SdPayloadEncodingView {
                        sd_hash_encoding: self.form().sd_hash_encoding.settled(v.len() as u64),
                        sd_hash_key_encoding: Some(fitting(1113, self.form().sd_hash_key_encoding)),
                        orig_deser_order: st.encodings.orig_deser_order.push(8),
                        ..st.encodings
                    },
                    claimed: claim(st.len, st.claimed, 1)->Ok_0,
                    ..st
                },
                None => st,
            }
        } else if index == 9 {
            match self.sd_alg {
                Some(v) => PayloadScan {
                    sd_alg: Some(v.settled()),
                    encodings: SdPayloadEncodingView {
                        sd_alg_key_encoding: Some(fitting(1114, self.form().sd_alg_key_encoding)),
                        orig_deser_order: st.encodings.orig_deser_order.push(9),
                        ..st.encodings
                    },
                    claimed: claim(st.len, st.claimed, 1)->Ok_0,
                    ..st
                },
                None => st,
            }
        } else if index == 10 {
            match self.redacted_keys {
                Some(v) => PayloadScan {
                    redacted_keys: Some(v),
                    encodings: SdPayloadEncodingView {
                        redacted_keys_encoding: self.form().redacted_keys_encoding.settled(v.len() as u64),
                        redacted_keys_elem_encodings: digest_encodings(settled_digests(v, self.form().redacted_keys_elem_encodings)),
                        redacted_keys_key_encoding: Some(fitting(1115, self.form().redacted_keys_key_encoding)),
                        orig_deser_order: st.encodings.orig_deser_order.push(10),
                        ..st.encodings
                    },
                    claimed: claim(st.len, st.claimed, 1)->Ok_0,
                    ..st
                },
                None => st,
            }
        } else if index == 11 {
            PayloadScan {
                custom: Some(settled_entries(self.custom)),
                encodings: SdPayloadEncodingView {
                    custom_encoding: self.form().custom_encoding.settled(self.custom.len() as u64),
                    custom_key_encoding: self.form().custom_key_encoding.settled(utf8_len("custom"@) as u64),
                    orig_deser_order: st.encodings.orig_deser_order.push(11),
                    ..st.encodings
                },
                claimed: claim(st.len, st.claimed, 1)->Ok_0,
                ..st
            }
        } else {
            st
        }
    }

    /// What has been found after the fields with the numbers `done` were
    /// read, in that order, from what the set of claims is written as.
    pub open spec fn scan_of(self, done: Seq<usize>) -> PayloadScan
        decreases done.len(),
    {
        if done.len() == 0 {
            self.first_scan()
        } else {
            self.scan_step(self.scan_of(done.drop_last()), done.last())
        }
    }

    /// Whether the state `st` holds the fields with the numbers `done` of the
    /// set of claims, and no others.
    pub open spec fn tracks(self, st: PayloadScan, done: Seq<usize>) -> bool {
        &&& st.iss == if listed(done, 0) {
            Some(self.iss->0)
        } else {
            None
        }
        &&& st.sub == if listed(done, 1) {
            Some(self.sub->0)
        } else {
            None
        }
        &&& st.aud == if listed(done, 2) {
            Some(self.aud)
        } else {
            None
        }
        &&& st.exp == if listed(done, 3) {
            Some(self.exp->0.settled())
        } else {
            None
        }
        &&& st.nbf == if listed(done, 4) {
            Some(self.nbf->0.settled())
        } else {
            None
        }
        &&& st.iat == if listed(done, 5) {
            Some(self.iat.settled())
        } else {
            None
        }
        &&& st.cnonce == if listed(done, 6) {
            Some(self.cnonce->0)
        } else {
            None
        }
        &&& st.cnf == if listed(done, 7) {
            Some(settled_entries(self.cnf->0))
        } else {
            None
        }
        &&& st.sd_hash == if listed(done, 8) {
            Some(self.sd_hash->0)
        } else {
            None
        }
        &&& st.sd_alg == if listed(done, 9) {
            Some(self.sd_alg->0.settled())
        } else {
            None
        }
        &&& st.redacted_keys == if listed(done, 10) {
            Some(self.redacted_keys->0)
        } else {
            None
        }
        &&& st.custom == if listed(done, 11) {
            Some(settled_entries(self.custom))
        } else {
            None
        }
        &&& st.encodings.orig_deser_order == done
        &&& st.encodings.len_encoding == self.len_encoding().settled(self.count() as u64)
        &&& self.counted(st, done)
    }

    /// Whether the state `st` has counted the fields with the numbers `done`
    /// of the set of claims.
    pub open spec fn counted(self, st: PayloadScan, done: Seq<usize>) -> bool {
        match st.len {
            LenSz::Len(n, _) => n == self.count() && st.claimed == read_count(done),
            LenSz::Indefinite => st.claimed == 0,
        }
    }

    /// The set of claims as it is read after it was written.
    pub open spec fn settled(self) -> SdPayloadView {
        self.scan_of(self.present_order()).finished()->Ok_0
    }

    /// Whether two values hold the same, whatever the way they are written.
    pub open spec fn same_content(self, other: SdPayloadView) -> bool {
        &&& match (self.iss, other.iss) {
            (Some(a), Some(b)) => a == b,
            (None, None) => true,
            _ => false,
        }
        &&& match (self.sub, other.sub) {
            (Some(a), Some(b)) => a == b,
            (None, None) => true,
            _ => false,
        }
        &&& self.aud == other.aud
        &&& match (self.exp, other.exp) {
            (Some(a), Some(b)) => a.number() == b.number(),
            (None, None) => true,
            _ => false,
        }
        &&& match (self.nbf, other.nbf) {
            (Some(a), Some(b)) => a.number() == b.number(),
            (None, None) => true,
            _ => false,
        }
        &&& self.iat.number() == other.iat.number()
        &&& match (self.cnonce, other.cnonce) {
            (Some(a), Some(b)) => a == b,
            (None, None) => true,
            _ => false,
        }
        &&& match (self.cnf, other.cnf) {
            (Some(a), Some(b)) => entry_keys(a) == entry_keys(b),
            (None, None) => true,
            _ => false,
        }
        &&& match (self.sd_hash, other.sd_hash) {
            (Some(a), Some(b)) => a == b,
            (None, None) => true,
            _ => false,
        }
        &&& match (self.sd_alg, other.sd_alg) {
            (Some(a), Some(b)) => a.number() == b.number(),
            (None, None) => true,
            _ => false,
        }
        &&& match (self.redacted_keys, other.redacted_keys) {
            (Some(a), Some(b)) => a == b,
            (None, None) => true,
            _ => false,
        }
        &&& entry_keys(self.custom) == entry_keys(other.custom)
    }

    /// How a field is written.
    pub open spec fn field_writer(self) -> spec_fn(usize) -> Seq<u8> {
        |index: usize| self.field_wire(index)
    }
}

/// The field with the number 0 that is written reads back as an entry
/// in a state in which it has not been read.
#[verifier::rlimit(60)]
#[verifier::spinoff_prover]
pub proof fn lemma_iss_reads_back(v: SdPayloadView, st: PayloadScan, tail: Seq<u8>)
    requires
        v.has(0),
        v.field_readable(0),
        st.iss is None,
        claim(st.len, st.claimed, 1) is Ok,
    ensures
        st.after_entry(v.field_wire(0) + tail) == Ok::<(PayloadScan, nat), ErrorView>(
            (v.scan_step(st, 0), v.field_wire(0).len()),
        ),
        v.field_wire(0).len() >= 1,
        type_of((v.field_wire(0) + tail)[0]) != Type::Special,
{
    reveal(PayloadScan::after_entry);
    let s = v.field_wire(0) + tail;
    let w = text_wire(v.iss->0, v.form().iss_encoding);
    let key_enc = fitting(1, v.form().iss_key_encoding);
    lemma_fitting(1, v.form().iss_key_encoding);
    let k = head(MAJOR_UINT, 1, key_enc);
    lemma_head_parses(MAJOR_UINT, 1, key_enc, w + tail);
    assert(s =~= k + (w + tail));
    assert(s.skip(k.len() as int) =~= w + tail);
    lemma_type_of_major(s[0]);
    lemma_text_reads_back(v.iss->0, v.form().iss_encoding, tail);
}

/// The field with the number 1 that is written reads back as an entry
/// in a state in which it has not been read.
#[verifier::rlimit(60)]
#[verifier::spinoff_prover]
pub proof fn lemma_sub_reads_back(v: SdPayloadView, st: PayloadScan, tail: Seq<u8>)
    requires
        v.has(1),
        v.field_readable(1),
        st.sub is None,
        claim(st.len, st.claimed, 1) is Ok,
    ensures
        st.after_entry(v.field_wire(1) + tail) == Ok::<(PayloadScan, nat), ErrorView>(
            (v.scan_step(st, 1), v.field_wire(1).len()),
        ),
        v.field_wire(1).len() >= 1,
        type_of((v.field_wire(1) + tail)[0]) != Type::Special,
{
    reveal(PayloadScan::after_entry);
    let s = v.field_wire(1) + tail;
    let w = text_wire(v.sub->0, v.form().sub_encoding);
    let key_enc = fitting(2, v.form().sub_key_encoding);
    lemma_fitting(2, v.form().sub_key_encoding);
    let k = head(MAJOR_UINT, 2, key_enc);
    lemma_head_parses(MAJOR_UINT, 2, key_enc, w + tail);
    assert(s =~= k + (w + tail));
    assert(s.skip(k.len() as int) =~= w + tail);
    lemma_type_of_major(s[0]);
    lemma_text_reads_back(v.sub->0, v.form().sub_encoding, tail);
}

/// The field with the number 2 that is written reads back as an entry
/// in a state in which it has not been read.
#[verifier::rlimit(60)]
#[verifier::spinoff_prover]
pub proof fn lemma_aud_reads_back(v: SdPayloadView, st: PayloadScan, tail: Seq<u8>)
    requires
        v.has(2),
        v.field_readable(2),
        st.aud is None,
        claim(st.len, st.claimed, 1) is Ok,
    ensures
        st.after_entry(v.field_wire(2) + tail) == Ok::<(PayloadScan, nat), ErrorView>(
            (v.scan_step(st, 2), v.field_wire(2).len()),
        ),
        v.field_wire(2).len() >= 1,
        type_of((v.field_wire(2) + tail)[0]) != Type::Special,
{
    reveal(PayloadScan::after_entry);
    let s = v.field_wire(2) + tail;
    let w = text_wire(v.aud, v.form().aud_encoding);
    let key_enc = fitting(3, v.form().aud_key_encoding);
    lemma_fitting(3, v.form().aud_key_encoding);
    let k = head(MAJOR_UINT, 3, key_enc);
    lemma_head_parses(MAJOR_UINT, 3, key_enc, w + tail);
    assert(s =~= k + (w + tail));
    assert(s.skip(k.len() as int) =~= w + tail);
    lemma_type_of_major(s[0]);
    lemma_text_reads_back(v.aud, v.form().aud_encoding, tail);
}

/// The field with the number 3 that is written reads back as an entry
/// in a state in which it has not been read.
#[verifier::rlimit(60)]
#[verifier::spinoff_prover]
pub proof fn lemma_exp_reads_back(v: SdPayloadView, st: PayloadScan, tail: Seq<u8>)
    requires
        v.has(3),
        v.field_readable(3),
        st.exp is None,
        claim(st.len, st.claimed, 1) is Ok,
    ensures
        st.after_entry(v.field_wire(3) + tail) == Ok::<(PayloadScan, nat), ErrorView>(
            (v.scan_step(st, 3), v.field_wire(3).len()),
        ),
        v.field_wire(3).len() >= 1,
        type_of((v.field_wire(3) + tail)[0]) != Type::Special,
{
    reveal(PayloadScan::after_entry);
    let s = v.field_wire(3) + tail;
    let w = v.exp->0.wire();
    let key_enc = fitting(4, v.form().exp_key_encoding);
    lemma_fitting(4, v.form().exp_key_encoding);
    let k = head(MAJOR_UINT, 4, key_enc);
    lemma_head_parses(MAJOR_UINT, 4, key_enc, w + tail);
    assert(s =~= k + (w + tail));
    assert(s.skip(k.len() as int) =~= w + tail);
    lemma_type_of_major(s[0]);
    v.exp->0.lemma_reads_back(tail);
}

/// The field with the number 4 that is written reads back as an entry
/// in a state in which it has not been read.
#[verifier::rlimit(60)]
#[verifier::spinoff_prover]
pub proof fn lemma_nbf_reads_back(v: SdPayloadView, st: PayloadScan, tail: Seq<u8>)
    requires
        v.has(4),
        v.field_readable(4),
        st.nbf is None,
        claim(st.len, st.claimed, 1) is Ok,
    ensures
        st.after_entry(v.field_wire(4) + tail) == Ok::<(PayloadScan, nat), ErrorView>(
            (v.scan_step(st, 4), v.field_wire(4).len()),
        ),
        v.field_wire(4).len() >= 1,
        type_of((v.field_wire(4) + tail)[0]) != Type::Special,
{
    reveal(PayloadScan::after_entry);
    let s = v.field_wire(4) + tail;
    let w = v.nbf->0.wire();
    let key_enc = fitting(5, v.form().nbf_key_encoding);
    lemma_fitting(5, v.form().nbf_key_encoding);
    let k = head(MAJOR_UINT, 5, key_enc);
    lemma_head_parses(MAJOR_UINT, 5, key_enc, w + tail);
    assert(s =~= k + (w + tail));
    assert(s.skip(k.len() as int) =~= w + tail);
    lemma_type_of_major(s[0]);
    v.nbf->0.lemma_reads_back(tail);
}

/// The field with the number 5 that is written reads back as an entry
/// in a state in which it has not been read.
#[verifier::rlimit(60)]
#[verifier::spinoff_prover]
pub proof fn lemma_iat_reads_back(v: SdPayloadView, st: PayloadScan, tail: Seq<u8>)
    requires
        v.has(5),
        v.field_readable(5),
        st.iat is None,
        claim(st.len, st.claimed, 1) is Ok,
    ensures
        st.after_entry(v.field_wire(5) + tail) == Ok::<(PayloadScan, nat), ErrorView>(
            (v.scan_step(st, 5), v.field_wire(5).len()),
        ),
        v.field_wire(5).len() >= 1,
        type_of((v.field_wire(5) + tail)[0]) != Type::Special,
{
    reveal(PayloadScan::after_entry);
    let s = v.field_wire(5) + tail;
    let w = v.iat.wire();
    let key_enc = fitting(6, v.form().iat_key_encoding);
    lemma_fitting(6, v.form().iat_key_encoding);
    let k = head(MAJOR_UINT, 6, key_enc);
    lemma_head_parses(MAJOR_UINT, 6, key_enc, w + tail);
    assert(s =~= k + (w + tail));
    assert(s.skip(k.len() as int) =~= w + tail);
    lemma_type_of_major(s[0]);
    v.iat.lemma_reads_back(tail);
}

/// The field with the number 6 that is written reads back as an entry
/// in a state in which it has not been read.
#[verifier::rlimit(60)]
#[verifier::spinoff_prover]
pub proof fn lemma_cnonce_reads_back(v: SdPayloadView, st: PayloadScan, tail: Seq<u8>)
    requires
        v.has(6),
        v.field_readable(6),
        st.cnonce is None,
        claim(st.len, st.claimed, 1) is Ok,
    ensures
        st.after_entry(v.field_wire(6) + tail) == Ok::<(PayloadScan, nat), ErrorView>(
            (v.scan_step(st, 6), v.field_wire(6).len()),
        ),
        v.field_wire(6).len() >= 1,
        type_of((v.field_wire(6) + tail)[0]) != Type::Special,
{
    reveal(PayloadScan::after_entry);
    let s = v.field_wire(6) + tail;
    let w = bytes_wire(v.cnonce->0, v.form().cnonce_encoding);
    let key_enc = fitting(39, v.form().cnonce_key_encoding);
    lemma_fitting(39, v.form().cnonce_key_encoding);
    let k = head(MAJOR_UINT, 39, key_enc);
    lemma_head_parses(MAJOR_UINT, 39, key_enc, w + tail);
    assert(s =~= k + (w + tail));
    assert(s.skip(k.len() as int) =~= w + tail);
    lemma_type_of_major(s[0]);
    lemma_bytes_read_back(v.cnonce->0, v.form().cnonce_encoding, tail);
}

/// The field with the number 7 that is written reads back as an entry
/// in a state in which it has not been read.
#[verifier::rlimit(60)]
#[verifier::spinoff_prover]
pub proof fn lemma_cnf_reads_back(v: SdPayloadView, st: PayloadScan, tail: Seq<u8>)
    requires
        v.has(7),
        v.field_readable(7),
        st.cnf is None,
        claim(st.len, st.claimed, 1) is Ok,
    ensures
        st.after_entry(v.field_wire(7) + tail) == Ok::<(PayloadScan, nat), ErrorView>(
            (v.scan_step(st, 7), v.field_wire(7).len()),
        ),
        v.field_wire(7).len() >= 1,
        type_of((v.field_wire(7) + tail)[0]) != Type::Special,
{
    reveal(PayloadScan::after_entry);
    let s = v.field_wire(7) + tail;
    let w = table_wire(v.cnf->0, v.form().cnf_encoding);
    let key_enc = fitting(8, v.form().cnf_key_encoding);
    lemma_fitting(8, v.form().cnf_key_encoding);
    let k = head(MAJOR_UINT, 8, key_enc);
    lemma_head_parses(MAJOR_UINT, 8, key_enc, w + tail);
    assert(s =~= k + (w + tail));
    assert(s.skip(k.len() as int) =~= w + tail);
    lemma_type_of_major(s[0]);
    lemma_table_reads_back(v.cnf->0, v.form().cnf_encoding, tail);
}

/// The field with the number 8 that is written reads back as an entry
/// in a state in which it has not been read.
#[verifier::rlimit(60)]
#[verifier::spinoff_prover]
pub proof fn lemma_sd_hash_reads_back(v: SdPayloadView, st: PayloadScan, tail: Seq<u8>)
    requires
        v.has(8),
        v.field_readable(8),
        st.sd_hash is None,
        claim(st.len, st.claimed, 1) is Ok,
    ensures
        st.after_entry(v.field_wire(8) + tail) == Ok::<(PayloadScan, nat), ErrorView>(
            (v.scan_step(st, 8), v.field_wire(8).len()),
        ),
        v.field_wire(8).len() >= 1,
        type_of((v.field_wire(8) + tail)[0]) != Type::Special,
{
    reveal(PayloadScan::after_entry);
    let s = v.field_wire(8) + tail;
    let w = bytes_wire(v.sd_hash->0, v.form().sd_hash_encoding);
    let key_enc = fitting(1113, v.form().sd_hash_key_encoding);
    lemma_fitting(1113, v.form().sd_hash_key_encoding);
    let k = head(MAJOR_UINT, 1113, key_enc);
    lemma_head_parses(MAJOR_UINT, 1113, key_enc, w + tail);
    assert(s =~= k + (w + tail));
    assert(s.skip(k.len() as int) =~= w + tail);
    lemma_type_of_major(s[0]);
    lemma_bytes_read_back(v.sd_hash->0, v.form().sd_hash_encoding, tail);
}

/// The field with the number 9 that is written reads back as an entry
/// in a state in which it has not been read.
#[verifier::rlimit(60)]
#[verifier::spinoff_prover]
pub proof fn lemma_sd_alg_reads_back(v: SdPayloadView, st: PayloadScan, tail: Seq<u8>)
    requires
        v.has(9),
        v.field_readable(9),
        st.sd_alg is None,
        claim(st.len, st.claimed, 1) is Ok,
    ensures
        st.after_entry(v.field_wire(9) + tail) == Ok::<(PayloadScan, nat), ErrorView>(
            (v.scan_step(st, 9), v.field_wire(9).len()),
        ),
        v.field_wire(9).len() >= 1,
        type_of((v.field_wire(9) + tail)[0]) != Type::Special,
{
    reveal(PayloadScan::after_entry);
    let s = v.field_wire(9) + tail;
    let w = v.sd_alg->0.wire();
    let key_enc = fitting(1114, v.form().sd_alg_key_encoding);
    lemma_fitting(1114, v.form().sd_alg_key_encoding);
    let k = head(MAJOR_UINT, 1114, key_enc);
    lemma_head_parses(MAJOR_UINT, 1114, key_enc, w + tail);
    assert(s =~= k + (w + tail));
    assert(s.skip(k.len() as int) =~= w + tail);
    lemma_type_of_major(s[0]);
    v.sd_alg->0.lemma_reads_back(tail);
}

/// The field with the number 10 that is written reads back as an entry
/// in a state in which it has not been read.
#[verifier::rlimit(60)]
#[verifier::spinoff_prover]
pub proof fn lemma_redacted_keys_reads_back(v: SdPayloadView, st: PayloadScan, tail: Seq<u8>)
    requires
        v.has(10),
        v.field_readable(10),
        st.redacted_keys is None,
        claim(st.len, st.claimed, 1) is Ok,
    ensures
        st.after_entry(v.field_wire(10) + tail) == Ok::<(PayloadScan, nat), ErrorView>(
            (v.scan_step(st, 10), v.field_wire(10).len()),
        ),
        v.field_wire(10).len() >= 1,
        type_of((v.field_wire(10) + tail)[0]) != Type::Special,
{
    reveal(PayloadScan::after_entry);
    let s = v.field_wire(10) + tail;
    let w = digests_wire(v.redacted_keys->0, v.form().redacted_keys_elem_encodings, v.form().redacted_keys_encoding);
    let key_enc = fitting(1115, v.form().redacted_keys_key_encoding);
    lemma_fitting(1115, v.form().redacted_keys_key_encoding);
    let k = head(MAJOR_UINT, 1115, key_enc);
    lemma_head_parses(MAJOR_UINT, 1115, key_enc, w + tail);
    assert(s =~= k + (w + tail));
    assert(s.skip(k.len() as int) =~= w + tail);
    lemma_type_of_major(s[0]);
    lemma_digests_read_back(v.redacted_keys->0, v.form().redacted_keys_elem_encodings, v.form().redacted_keys_encoding, tail);
}

/// The field with the number 11 that is written reads back as an entry
/// in a state in which it has not been read.
#[verifier::rlimit(60)]
#[verifier::spinoff_prover]
pub proof fn lemma_custom_reads_back(v: SdPayloadView, st: PayloadScan, tail: Seq<u8>)
    requires
        v.has(11),
        v.field_readable(11),
        st.custom is None,
        claim(st.len, st.claimed, 1) is Ok,
    ensures
        st.after_entry(v.field_wire(11) + tail) == Ok::<(PayloadScan, nat), ErrorView>(
            (v.scan_step(st, 11), v.field_wire(11).len()),
        ),
        v.field_wire(11).len() >= 1,
        type_of((v.field_wire(11) + tail)[0]) != Type::Special,
{
    reveal(PayloadScan::after_entry);
    let s = v.field_wire(11) + tail;
    let w = table_wire(v.custom, v.form().custom_encoding);
    let key_enc = v.form().custom_key_encoding;
    lemma_text_reads_back("custom"@, key_enc, w + tail);
    let k = text_wire("custom"@, key_enc);
    assert(s =~= k + (w + tail));
    assert(s.skip(k.len() as int) =~= w + tail);
    lemma_type_of_major(s[0]);
    lemma_table_reads_back(v.custom, v.form().custom_encoding, tail);
}

/// Whether every number in the list is the number of a field that is
/// there.
#[verifier::opaque]
pub open spec fn all_there(v: SdPayloadView, done: Seq<usize>) -> bool {
    forall|k: int| 0 <= k < done.len() ==> (#[trigger] done[k]) < 12 && v.has(done[k])
}

/// A field whose number stands in a list of fields that are there is
/// there.
pub proof fn lemma_there(v: SdPayloadView, done: Seq<usize>, index: usize)
    requires
        all_there(v, done),
        listed(done, index),
    ensures
        v.has(index),
        index < 12,
{
    reveal(all_there);
    reveal(listed);
    let k = choose|k: int| 0 <= k < done.len() && done[k] == index;
    assert(v.has(done[k]));
}

/// One where the field with the number `index` is there, nothing where it
/// is missing.
#[verifier::opaque]
pub open spec fn there(v: SdPayloadView, index: usize) -> nat {
    one_if(v.has(index))
}

/// The number of fields, by the fields.
pub proof fn lemma_count_there(v: SdPayloadView)
    ensures
        v.count() == there(v, 0) + there(v, 1) + there(v, 2) + there(v, 3) + there(v, 4) + there(v, 5) + there(v, 6) + there(v, 7) + there(v, 8) + there(v, 9) + there(v, 10) + there(v, 11),
{
    reveal(there);
}

/// A field that has been read is there; one that is there and has not been
/// read is still to come.
pub proof fn lemma_mark_there(v: SdPayloadView, done: Seq<usize>, index: usize)
    requires
        all_there(v, done),
    ensures
        mark(done, index) <= there(v, index),
        !listed(done, index) && v.has(index) ==> mark(done, index) + 1 == there(v, index),
        listed(done, index) == v.has(index) ==> mark(done, index) == there(v, index),
        v.has(index) ==> there(v, index) == 1,
{
    reveal(there);
    reveal(mark);
    if listed(done, index) {
        lemma_there(v, done, index);
    }
}

/// Numbers that are each no more than another, and one of them less, add
/// up to less than the others.
pub proof fn lemma_room(
    read_iss: nat,
    has_iss: nat,
    read_sub: nat,
    has_sub: nat,
    read_aud: nat,
    has_aud: nat,
    read_exp: nat,
    has_exp: nat,
    read_nbf: nat,
    has_nbf: nat,
    read_iat: nat,
    has_iat: nat,
    read_cnonce: nat,
    has_cnonce: nat,
    read_cnf: nat,
    has_cnf: nat,
    read_sd_hash: nat,
    has_sd_hash: nat,
    read_sd_alg: nat,
    has_sd_alg: nat,
    read_redacted_keys: nat,
    has_redacted_keys: nat,
    read_custom: nat,
    has_custom: nat,
)
    requires
        read_iss <= has_iss,
        read_sub <= has_sub,
        read_aud <= has_aud,
        read_exp <= has_exp,
        read_nbf <= has_nbf,
        read_iat <= has_iat,
        read_cnonce <= has_cnonce,
        read_cnf <= has_cnf,
        read_sd_hash <= has_sd_hash,
        read_sd_alg <= has_sd_alg,
        read_redacted_keys <= has_redacted_keys,
        read_custom <= has_custom,
        read_iss + 1 == has_iss || read_sub + 1 == has_sub || read_aud + 1 == has_aud || read_exp + 1 == has_exp || read_nbf + 1 == has_nbf || read_iat + 1 == has_iat || read_cnonce + 1 == has_cnonce || read_cnf + 1 == has_cnf || read_sd_hash + 1 == has_sd_hash || read_sd_alg + 1 == has_sd_alg || read_redacted_keys + 1 == has_redacted_keys || read_custom + 1 == has_custom,
    ensures
        read_iss + read_sub + read_aud + read_exp + read_nbf + read_iat + read_cnonce + read_cnf + read_sd_hash + read_sd_alg + read_redacted_keys + read_custom + 1 <= has_iss + has_sub + has_aud + has_exp + has_nbf + has_iat + has_cnonce + has_cnf + has_sd_hash + has_sd_alg + has_redacted_keys + has_custom,
{
}

/// How many of the fields are among the fields with
/// the numbers `done`.
#[verifier::opaque]
pub open spec fn read_count(done: Seq<usize>) -> nat {
    mark(done, 0) + mark(done, 1) + mark(done, 2) + mark(done, 3) + mark(done, 4) + mark(done, 5) + mark(done, 6) + mark(done, 7) + mark(done, 8) + mark(done, 9) + mark(done, 10) + mark(done, 11)
}

/// None of them is among no fields.
pub proof fn lemma_read_none()
    ensures
        read_count(Seq::empty()) == 0,
{
    reveal(read_count);
    lemma_mark_none(0);
    lemma_mark_none(1);
    lemma_mark_none(2);
    lemma_mark_none(3);
    lemma_mark_none(4);
    lemma_mark_none(5);
    lemma_mark_none(6);
    lemma_mark_none(7);
    lemma_mark_none(8);
    lemma_mark_none(9);
    lemma_mark_none(10);
    lemma_mark_none(11);
}

/// One more of them is among the fields after a field that was not, and
/// as many as before after anything else.
pub proof fn lemma_read_push(done: Seq<usize>, next: usize)
    requires
        !listed(done, next),
    ensures
        read_count(done.push(next)) == read_count(done) + one_if(
            next == 0 || next == 1 || next == 2 || next == 3 || next == 4 || next == 5 || next == 6 || next == 7 || next == 8 || next == 9 || next == 10 || next == 11,
        ),
{
    reveal(read_count);
    lemma_mark_push(done, next, 0);
    lemma_mark_push(done, next, 1);
    lemma_mark_push(done, next, 2);
    lemma_mark_push(done, next, 3);
    lemma_mark_push(done, next, 4);
    lemma_mark_push(done, next, 5);
    lemma_mark_push(done, next, 6);
    lemma_mark_push(done, next, 7);
    lemma_mark_push(done, next, 8);
    lemma_mark_push(done, next, 9);
    lemma_mark_push(done, next, 10);
    lemma_mark_push(done, next, 11);
}

/// Fewer fields have been read than are there, where one that is there
/// has not been read.
pub proof fn lemma_read_below(v: SdPayloadView, done: Seq<usize>, index: usize)
    requires
        all_there(v, done),
        index < 12,
        v.has(index),
        !listed(done, index),
    ensures
        read_count(done) + 1 <= v.count(),
{
    reveal(read_count);
    lemma_count_there(v);
    lemma_mark_there(v, done, 0);
    lemma_mark_there(v, done, 1);
    lemma_mark_there(v, done, 2);
    lemma_mark_there(v, done, 3);
    lemma_mark_there(v, done, 4);
    lemma_mark_there(v, done, 5);
    lemma_mark_there(v, done, 6);
    lemma_mark_there(v, done, 7);
    lemma_mark_there(v, done, 8);
    lemma_mark_there(v, done, 9);
    lemma_mark_there(v, done, 10);
    lemma_mark_there(v, done, 11);
    lemma_room(
        mark(done, 0),
        there(v, 0),
        mark(done, 1),
        there(v, 1),
        mark(done, 2),
        there(v, 2),
        mark(done, 3),
        there(v, 3),
        mark(done, 4),
        there(v, 4),
        mark(done, 5),
        there(v, 5),
        mark(done, 6),
        there(v, 6),
        mark(done, 7),
        there(v, 7),
        mark(done, 8),
        there(v, 8),
        mark(done, 9),
        there(v, 9),
        mark(done, 10),
        there(v, 10),
        mark(done, 11),
        there(v, 11),
    );
}

/// As many fields have been read as are there, where every field that is
/// there has been read and no other.
pub proof fn lemma_read_all(v: SdPayloadView, done: Seq<usize>)
    requires
        all_there(v, done),
        listed(done, 0) == v.has(0),
        listed(done, 1) == v.has(1),
        listed(done, 2) == v.has(2),
        listed(done, 3) == v.has(3),
        listed(done, 4) == v.has(4),
        listed(done, 5) == v.has(5),
        listed(done, 6) == v.has(6),
        listed(done, 7) == v.has(7),
        listed(done, 8) == v.has(8),
        listed(done, 9) == v.has(9),
        listed(done, 10) == v.has(10),
        listed(done, 11) == v.has(11),
    ensures
        read_count(done) == v.count(),
{
    reveal(read_count);
    lemma_count_there(v);
    lemma_mark_there(v, done, 0);
    lemma_mark_there(v, done, 1);
    lemma_mark_there(v, done, 2);
    lemma_mark_there(v, done, 3);
    lemma_mark_there(v, done, 4);
    lemma_mark_there(v, done, 5);
    lemma_mark_there(v, done, 6);
    lemma_mark_there(v, done, 7);
    lemma_mark_there(v, done, 8);
    lemma_mark_there(v, done, 9);
    lemma_mark_there(v, done, 10);
    lemma_mark_there(v, done, 11);
}

/// One more entry can be claimed where a field that is there has not been
/// read.
pub proof fn lemma_can_claim(v: SdPayloadView, st: PayloadScan, done: Seq<usize>, index: usize)
    requires
        v.counted(st, done),
        all_there(v, done),
        index < 12,
        v.has(index),
        !listed(done, index),
        3 <= v.count() <= 12,
    ensures
        claim(st.len, st.claimed, 1) is Ok,
        st.len is Len ==> claim(st.len, st.claimed, 1)->Ok_0 == st.claimed + 1,
        st.len is Indefinite ==> claim(st.len, st.claimed, 1)->Ok_0 == st.claimed,
{
    lemma_read_below(v, done, index);
}

/// The state after the field with the number 0 holds that field and the
/// fields that the state before it held.
#[verifier::rlimit(60)]
#[verifier::spinoff_prover]
pub proof fn lemma_iss_tracked(v: SdPayloadView, st: PayloadScan, done: Seq<usize>)
    requires
        v.tracks(st, done),
        all_there(v, done),
        3 <= v.count() <= 12,
        v.has(0),
        !listed(done, 0),
    ensures
        v.tracks(v.scan_step(st, 0), done.push(0)),
{
    lemma_listed_push(done, 0, 0);
    lemma_listed_push(done, 0, 1);
    lemma_listed_push(done, 0, 2);
    lemma_listed_push(done, 0, 3);
    lemma_listed_push(done, 0, 4);
    lemma_listed_push(done, 0, 5);
    lemma_listed_push(done, 0, 6);
    lemma_listed_push(done, 0, 7);
    lemma_listed_push(done, 0, 8);
    lemma_listed_push(done, 0, 9);
    lemma_listed_push(done, 0, 10);
    lemma_listed_push(done, 0, 11);
    lemma_read_push(done, 0);
    lemma_can_claim(v, st, done, 0);
}

/// The state after the field with the number 1 holds that field and the
/// fields that the state before it held.
#[verifier::rlimit(60)]
#[verifier::spinoff_prover]
pub proof fn lemma_sub_tracked(v: SdPayloadView, st: PayloadScan, done: Seq<usize>)
    requires
        v.tracks(st, done),
        all_there(v, done),
        3 <= v.count() <= 12,
        v.has(1),
        !listed(done, 1),
    ensures
        v.tracks(v.scan_step(st, 1), done.push(1)),
{
    lemma_listed_push(done, 1, 0);
    lemma_listed_push(done, 1, 1);
    lemma_listed_push(done, 1, 2);
    lemma_listed_push(done, 1, 3);
    lemma_listed_push(done, 1, 4);
    lemma_listed_push(done, 1, 5);
    lemma_listed_push(done, 1, 6);
    lemma_listed_push(done, 1, 7);
    lemma_listed_push(done, 1, 8);
    lemma_listed_push(done, 1, 9);
    lemma_listed_push(done, 1, 10);
    lemma_listed_push(done, 1, 11);
    lemma_read_push(done, 1);
    lemma_can_claim(v, st, done, 1);
}

/// The state after the field with the number 2 holds that field and the
/// fields that the state before it held.
#[verifier::rlimit(60)]
#[verifier::spinoff_prover]
pub proof fn lemma_aud_tracked(v: SdPayloadView, st: PayloadScan, done: Seq<usize>)
    requires
        v.tracks(st, done),
        all_there(v, done),
        3 <= v.count() <= 12,
        v.has(2),
        !listed(done, 2),
    ensures
        v.tracks(v.scan_step(st, 2), done.push(2)),
{
    lemma_listed_push(done, 2, 0);
    lemma_listed_push(done, 2, 1);
    lemma_listed_push(done, 2, 2);
    lemma_listed_push(done, 2, 3);
    lemma_listed_push(done, 2, 4);
    lemma_listed_push(done, 2, 5);
    lemma_listed_push(done, 2, 6);
    lemma_listed_push(done, 2, 7);
    lemma_listed_push(done, 2, 8);
    lemma_listed_push(done, 2, 9);
    lemma_listed_push(done, 2, 10);
    lemma_listed_push(done, 2, 11);
    lemma_read_push(done, 2);
    lemma_can_claim(v, st, done, 2);
}

/// The state after the field with the number 3 holds that field and the
/// fields that the state before it held.
#[verifier::rlimit(60)]
#[verifier::spinoff_prover]
pub proof fn lemma_exp_tracked(v: SdPayloadView, st: PayloadScan, done: Seq<usize>)
    requires
        v.tracks(st, done),
        all_there(v, done),
        3 <= v.count() <= 12,
        v.has(3),
        !listed(done, 3),
    ensures
        v.tracks(v.scan_step(st, 3), done.push(3)),
{
    lemma_listed_push(done, 3, 0);
    lemma_listed_push(done, 3, 1);
    lemma_listed_push(done, 3, 2);
    lemma_listed_push(done, 3, 3);
    lemma_listed_push(done, 3, 4);
    lemma_listed_push(done, 3, 5);
    lemma_listed_push(done, 3, 6);
    lemma_listed_push(done, 3, 7);
    lemma_listed_push(done, 3, 8);
    lemma_listed_push(done, 3, 9);
    lemma_listed_push(done, 3, 10);
    lemma_listed_push(done, 3, 11);
    lemma_read_push(done, 3);
    lemma_can_claim(v, st, done, 3);
}

/// The state after the field with the number 4 holds that field and the
/// fields that the state before it held.
#[verifier::rlimit(60)]
#[verifier::spinoff_prover]
pub proof fn lemma_nbf_tracked(v: SdPayloadView, st: PayloadScan, done: Seq<usize>)
    requires
        v.tracks(st, done),
        all_there(v, done),
        3 <= v.count() <= 12,
        v.has(4),
        !listed(done, 4),
    ensures
        v.tracks(v.scan_step(st, 4), done.push(4)),
{
    lemma_listed_push(done, 4, 0);
    lemma_listed_push(done, 4, 1);
    lemma_listed_push(done, 4, 2);
    lemma_listed_push(done, 4, 3);
    lemma_listed_push(done, 4, 4);
    lemma_listed_push(done, 4, 5);
    lemma_listed_push(done, 4, 6);
    lemma_listed_push(done, 4, 7);
    lemma_listed_push(done, 4, 8);
    lemma_listed_push(done, 4, 9);
    lemma_listed_push(done, 4, 10);
    lemma_listed_push(done, 4, 11);
    lemma_read_push(done, 4);
    lemma_can_claim(v, st, done, 4);
}

/// The state after the field with the number 5 holds that field and the
/// fields that the state before it held.
#[verifier::rlimit(60)]
#[verifier::spinoff_prover]
pub proof fn lemma_iat_tracked(v: SdPayloadView, st: PayloadScan, done: Seq<usize>)
    requires
        v.tracks(st, done),
        all_there(v, done),
        3 <= v.count() <= 12,
        v.has(5),
        !listed(done, 5),
    ensures
        v.tracks(v.scan_step(st, 5), done.push(5)),
{
    lemma_listed_push(done, 5, 0);
    lemma_listed_push(done, 5, 1);
    lemma_listed_push(done, 5, 2);
    lemma_listed_push(done, 5, 3);
    lemma_listed_push(done, 5, 4);
    lemma_listed_push(done, 5, 5);
    lemma_listed_push(done, 5, 6);
    lemma_listed_push(done, 5, 7);
    lemma_listed_push(done, 5, 8);
    lemma_listed_push(done, 5, 9);
    lemma_listed_push(done, 5, 10);
    lemma_listed_push(done, 5, 11);
    lemma_read_push(done, 5);
    lemma_can_claim(v, st, done, 5);
}

/// The state after the field with the number 6 holds that field and the
/// fields that the state before it held.
#[verifier::rlimit(60)]
#[verifier::spinoff_prover]
pub proof fn lemma_cnonce_tracked(v: SdPayloadView, st: PayloadScan, done: Seq<usize>)
    requires
        v.tracks(st, done),
        all_there(v, done),
        3 <= v.count() <= 12,
        v.has(6),
        !listed(done, 6),
    ensures
        v.tracks(v.scan_step(st, 6), done.push(6)),
{
    lemma_listed_push(done, 6, 0);
    lemma_listed_push(done, 6, 1);
    lemma_listed_push(done, 6, 2);
    lemma_listed_push(done, 6, 3);
    lemma_listed_push(done, 6, 4);
    lemma_listed_push(done, 6, 5);
    lemma_listed_push(done, 6, 6);
    lemma_listed_push(done, 6, 7);
    lemma_listed_push(done, 6, 8);
    lemma_listed_push(done, 6, 9);
    lemma_listed_push(done, 6, 10);
    lemma_listed_push(done, 6, 11);
    lemma_read_push(done, 6);
    lemma_can_claim(v, st, done, 6);
}

/// The state after the field with the number 7 holds that field and the
/// fields that the state before it held.
#[verifier::rlimit(60)]
#[verifier::spinoff_prover]
pub proof fn lemma_cnf_tracked(v: SdPayloadView, st: PayloadScan, done: Seq<usize>)
    requires
        v.tracks(st, done),
        all_there(v, done),
        3 <= v.count() <= 12,
        v.has(7),
        !listed(done, 7),
    ensures
        v.tracks(v.scan_step(st, 7), done.push(7)),
{
    lemma_listed_push(done, 7, 0);
    lemma_listed_push(done, 7, 1);
    lemma_listed_push(done, 7, 2);
    lemma_listed_push(done, 7, 3);
    lemma_listed_push(done, 7, 4);
    lemma_listed_push(done, 7, 5);
    lemma_listed_push(done, 7, 6);
    lemma_listed_push(done, 7, 7);
    lemma_listed_push(done, 7, 8);
    lemma_listed_push(done, 7, 9);
    lemma_listed_push(done, 7, 10);
    lemma_listed_push(done, 7, 11);
    lemma_read_push(done, 7);
    lemma_can_claim(v, st, done, 7);
}

/// The state after the field with the number 8 holds that field and the
/// fields that the state before it held.
#[verifier::rlimit(60)]
#[verifier::spinoff_prover]
pub proof fn lemma_sd_hash_tracked(v: SdPayloadView, st: PayloadScan, done: Seq<usize>)
    requires
        v.tracks(st, done),
        all_there(v, done),
        3 <= v.count() <= 12,
        v.has(8),
        !listed(done, 8),
    ensures
        v.tracks(v.scan_step(st, 8), done.push(8)),
{
    lemma_listed_push(done, 8, 0);
    lemma_listed_push(done, 8, 1);
    lemma_listed_push(done, 8, 2);
    lemma_listed_push(done, 8, 3);
    lemma_listed_push(done, 8, 4);
    lemma_listed_push(done, 8, 5);
    lemma_listed_push(done, 8, 6);
    lemma_listed_push(done, 8, 7);
    lemma_listed_push(done, 8, 8);
    lemma_listed_push(done, 8, 9);
    lemma_listed_push(done, 8, 10);
    lemma_listed_push(done, 8, 11);
    lemma_read_push(done, 8);
    lemma_can_claim(v, st, done, 8);
}

/// The state after the field with the number 9 holds that field and the
/// fields that the state before it held.
#[verifier::rlimit(60)]
#[verifier::spinoff_prover]
pub proof fn lemma_sd_alg_tracked(v: SdPayloadView, st: PayloadScan, done: Seq<usize>)
    requires
        v.tracks(st, done),
        all_there(v, done),
        3 <= v.count() <= 12,
        v.has(9),
        !listed(done, 9),
    ensures
        v.tracks(v.scan_step(st, 9), done.push(9)),
{
    lemma_listed_push(done, 9, 0);
    lemma_listed_push(done, 9, 1);
    lemma_listed_push(done, 9, 2);
    lemma_listed_push(done, 9, 3);
    lemma_listed_push(done, 9, 4);
    lemma_listed_push(done, 9, 5);
    lemma_listed_push(done, 9, 6);
    lemma_listed_push(done, 9, 7);
    lemma_listed_push(done, 9, 8);
    lemma_listed_push(done, 9, 9);
    lemma_listed_push(done, 9, 10);
    lemma_listed_push(done, 9, 11);
    lemma_read_push(done, 9);
    lemma_can_claim(v, st, done, 9);
}

/// The state after the field with the number 10 holds that field and the
/// fields that the state before it held.
#[verifier::rlimit(60)]
#[verifier::spinoff_prover]
pub proof fn lemma_redacted_keys_tracked(v: SdPayloadView, st: PayloadScan, done: Seq<usize>)
    requires
        v.tracks(st, done),
        all_there(v, done),
        3 <= v.count() <= 12,
        v.has(10),
        !listed(done, 10),
    ensures
        v.tracks(v.scan_step(st, 10), done.push(10)),
{
    lemma_listed_push(done, 10, 0);
    lemma_listed_push(done, 10, 1);
    lemma_listed_push(done, 10, 2);
    lemma_listed_push(done, 10, 3);
    lemma_listed_push(done, 10, 4);
    lemma_listed_push(done, 10, 5);
    lemma_listed_push(done, 10, 6);
    lemma_listed_push(done, 10, 7);
    lemma_listed_push(done, 10, 8);
    lemma_listed_push(done, 10, 9);
    lemma_listed_push(done, 10, 10);
    lemma_listed_push(done, 10, 11);
    lemma_read_push(done, 10);
    lemma_can_claim(v, st, done, 10);
}

/// The state after the field with the number 11 holds that field and the
/// fields that the state before it held.
#[verifier::rlimit(60)]
#[verifier::spinoff_prover]
pub proof fn lemma_custom_tracked(v: SdPayloadView, st: PayloadScan, done: Seq<usize>)
    requires
        v.tracks(st, done),
        all_there(v, done),
        3 <= v.count() <= 12,
        v.has(11),
        !listed(done, 11),
    ensures
        v.tracks(v.scan_step(st, 11), done.push(11)),
{
    lemma_listed_push(done, 11, 0);
    lemma_listed_push(done, 11, 1);
    lemma_listed_push(done, 11, 2);
    lemma_listed_push(done, 11, 3);
    lemma_listed_push(done, 11, 4);
    lemma_listed_push(done, 11, 5);
    lemma_listed_push(done, 11, 6);
    lemma_listed_push(done, 11, 7);
    lemma_listed_push(done, 11, 8);
    lemma_listed_push(done, 11, 9);
    lemma_listed_push(done, 11, 10);
    lemma_listed_push(done, 11, 11);
    lemma_read_push(done, 11);
    lemma_can_claim(v, st, done, 11);
}

/// The state after a field holds that field and the fields that the state
/// before it held.
pub proof fn lemma_step_tracked(v: SdPayloadView, st: PayloadScan, done: Seq<usize>, index: usize)
    requires
        v.tracks(st, done),
        all_there(v, done),
        index < 12,
        v.has(index),
        !listed(done, index),
        3 <= v.count() <= 12,
    ensures
        v.tracks(v.scan_step(st, index), done.push(index)),
{
    if index == 0 {
        lemma_iss_tracked(v, st, done);
    } else if index == 1 {
        lemma_sub_tracked(v, st, done);
    } else if index == 2 {
        lemma_aud_tracked(v, st, done);
    } else if index == 3 {
        lemma_exp_tracked(v, st, done);
    } else if index == 4 {
        lemma_nbf_tracked(v, st, done);
    } else if index == 5 {
        lemma_iat_tracked(v, st, done);
    } else if index == 6 {
        lemma_cnonce_tracked(v, st, done);
    } else if index == 7 {
        lemma_cnf_tracked(v, st, done);
    } else if index == 8 {
        lemma_sd_hash_tracked(v, st, done);
    } else if index == 9 {
        lemma_sd_alg_tracked(v, st, done);
    } else if index == 10 {
        lemma_redacted_keys_tracked(v, st, done);
    } else if index == 11 {
        lemma_custom_tracked(v, st, done);
    }
}

/// Nothing has been read before the first field.
pub proof fn lemma_first_tracked(v: SdPayloadView)
    requires
        3 <= v.count() <= 12,
    ensures
        v.tracks(v.first_scan(), Seq::empty()),
{
    lemma_listed_none(0);
    lemma_listed_none(1);
    lemma_listed_none(2);
    lemma_listed_none(3);
    lemma_listed_none(4);
    lemma_listed_none(5);
    lemma_listed_none(6);
    lemma_listed_none(7);
    lemma_listed_none(8);
    lemma_listed_none(9);
    lemma_listed_none(10);
    lemma_listed_none(11);
    lemma_read_none();
}

/// The state after fields that are there, none of them twice, holds those
/// fields.
pub proof fn lemma_scan_tracked(v: SdPayloadView, done: Seq<usize>)
    requires
        done.no_duplicates(),
        all_there(v, done),
        3 <= v.count() <= 12,
    ensures
        v.tracks(v.scan_of(done), done),
    decreases done.len(),
{
    if done.len() == 0 {
        lemma_first_tracked(v);
        assert(done =~= Seq::<usize>::empty());
    } else {
        let fewer = done.drop_last();
        let x = done.last();
        assert(done =~= fewer.push(x));
        assert(fewer.no_duplicates());
        assert(all_there(v, fewer)) by {
            reveal(all_there);
            assert forall|k: int| 0 <= k < fewer.len() implies (#[trigger] fewer[k]) < 12 && v.has(
                fewer[k],
            ) by {
                assert(fewer[k] == done[k]);
            }
        }
        lemma_scan_tracked(v, fewer);
        assert(!listed(fewer, x)) by {
            reveal(listed);
            if fewer.contains(x) {
                let i = choose|i: int| 0 <= i < fewer.len() && fewer[i] == x;
                assert(done[i] == done[done.len() - 1]);
            }
        }
        assert(v.has(x) && x < 12) by {
            reveal(all_there);
            assert(done[done.len() - 1] == x);
        }
        lemma_step_tracked(v, v.scan_of(fewer), fewer, x);
    }
}

/// Round trip for one entry: a field that is written reads back as an
/// entry after the fields that were read before it.
pub proof fn lemma_entry_reads_back(v: SdPayloadView, done: Seq<usize>, index: usize, tail: Seq<u8>)
    requires
        index < 12,
        v.has(index),
        v.field_readable(index),
        !listed(done, index),
        done.no_duplicates(),
        all_there(v, done),
        3 <= v.count() <= 12,
    ensures
        v.scan_of(done).after_entry(v.field_wire(index) + tail) == Ok::<
            (PayloadScan, nat),
            ErrorView,
        >((v.scan_of(done.push(index)), v.field_wire(index).len())),
        v.field_wire(index).len() >= 1,
        type_of((v.field_wire(index) + tail)[0]) != Type::Special,
{
    let st = v.scan_of(done);
    lemma_scan_tracked(v, done);
    assert(done.push(index).drop_last() =~= done);
    assert(v.scan_of(done.push(index)) == v.scan_step(st, index));
    if index == 0 {
        lemma_can_claim(v, st, done, index);
        lemma_iss_reads_back(v, st, tail);
    } else if index == 1 {
        lemma_can_claim(v, st, done, index);
        lemma_sub_reads_back(v, st, tail);
    } else if index == 2 {
        lemma_can_claim(v, st, done, index);
        lemma_aud_reads_back(v, st, tail);
    } else if index == 3 {
        lemma_can_claim(v, st, done, index);
        lemma_exp_reads_back(v, st, tail);
    } else if index == 4 {
        lemma_can_claim(v, st, done, index);
        lemma_nbf_reads_back(v, st, tail);
    } else if index == 5 {
        lemma_can_claim(v, st, done, index);
        lemma_iat_reads_back(v, st, tail);
    } else if index == 6 {
        lemma_can_claim(v, st, done, index);
        lemma_cnonce_reads_back(v, st, tail);
    } else if index == 7 {
        lemma_can_claim(v, st, done, index);
        lemma_cnf_reads_back(v, st, tail);
    } else if index == 8 {
        lemma_can_claim(v, st, done, index);
        lemma_sd_hash_reads_back(v, st, tail);
    } else if index == 9 {
        lemma_can_claim(v, st, done, index);
        lemma_sd_alg_reads_back(v, st, tail);
    } else if index == 10 {
        lemma_can_claim(v, st, done, index);
        lemma_redacted_keys_reads_back(v, st, tail);
    } else if index == 11 {
        lemma_can_claim(v, st, done, index);
        lemma_custom_reads_back(v, st, tail);
    }
}

/// How many of the fields have their number in the list.
#[verifier::opaque]
pub open spec fn marked(done: Seq<usize>) -> nat {
    mark(done, 0) + mark(done, 1) + mark(done, 2) + mark(done, 3) + mark(done, 4) + mark(done, 5)
        + mark(done, 6) + mark(done, 7) + mark(done, 8) + mark(done, 9) + mark(done, 10) + mark(done, 11)
}

/// As many fields have their number in a list of numbers of fields as the
/// list is long, where no number stands twice in it.
pub proof fn lemma_marked(done: Seq<usize>)
    requires
        done.no_duplicates(),
        forall|k: int| 0 <= k < done.len() ==> (#[trigger] done[k]) < 12,
    ensures
        marked(done) == done.len(),
    decreases done.len(),
{
    if done.len() == 0 {
        reveal(marked);
        assert(done =~= Seq::<usize>::empty());
        lemma_mark_none(0);
        lemma_mark_none(1);
        lemma_mark_none(2);
        lemma_mark_none(3);
        lemma_mark_none(4);
        lemma_mark_none(5);
        lemma_mark_none(6);
        lemma_mark_none(7);
        lemma_mark_none(8);
        lemma_mark_none(9);
        lemma_mark_none(10);
        lemma_mark_none(11);
    } else {
        let fewer = done.drop_last();
        let x = done.last();
        assert(done =~= fewer.push(x));
        assert(fewer.no_duplicates());
        assert forall|k: int| 0 <= k < fewer.len() implies (#[trigger] fewer[k]) < 12 by {
            assert(fewer[k] == done[k]);
        }
        lemma_marked(fewer);
        assert(!listed(fewer, x)) by {
            reveal(listed);
            if fewer.contains(x) {
                let i = choose|i: int| 0 <= i < fewer.len() && fewer[i] == x;
                assert(done[i] == done[done.len() - 1]);
            }
        }
        assert(x < 12) by {
            assert(done[done.len() - 1] == x);
        }
        lemma_marked_push(fewer, x);
    }
}

/// One more field has its number in a list after the number of a field that
/// was not in it.
pub proof fn lemma_marked_push(done: Seq<usize>, next: usize)
    requires
        !listed(done, next),
        next < 12,
    ensures
        marked(done.push(next)) == marked(done) + 1,
{
    reveal(marked);
    lemma_mark_push(done, next, 0);
    lemma_mark_push(done, next, 1);
    lemma_mark_push(done, next, 2);
    lemma_mark_push(done, next, 3);
    lemma_mark_push(done, next, 4);
    lemma_mark_push(done, next, 5);
    lemma_mark_push(done, next, 6);
    lemma_mark_push(done, next, 7);
    lemma_mark_push(done, next, 8);
    lemma_mark_push(done, next, 9);
    lemma_mark_push(done, next, 10);
    lemma_mark_push(done, next, 11);
}

/// A list that holds the number of every field that is there once, and no
/// other number, is as long as there are fields.
pub proof fn lemma_order_len(v: SdPayloadView, done: Seq<usize>)
    requires
        done.no_duplicates(),
        all_there(v, done),
        forall|j: usize| j < 12 ==> (#[trigger] listed(done, j)) == v.has(j),
    ensures
        done.len() == v.count(),
{
    assert forall|k: int| 0 <= k < done.len() implies (#[trigger] done[k]) < 12 by {
        reveal(all_there);
    }
    lemma_marked(done);
    reveal(marked);
    lemma_count_there(v);
    assert(listed(done, 0) == v.has(0));
    lemma_mark_there(v, done, 0);
    assert(listed(done, 1) == v.has(1));
    lemma_mark_there(v, done, 1);
    assert(listed(done, 2) == v.has(2));
    lemma_mark_there(v, done, 2);
    assert(listed(done, 3) == v.has(3));
    lemma_mark_there(v, done, 3);
    assert(listed(done, 4) == v.has(4));
    lemma_mark_there(v, done, 4);
    assert(listed(done, 5) == v.has(5));
    lemma_mark_there(v, done, 5);
    assert(listed(done, 6) == v.has(6));
    lemma_mark_there(v, done, 6);
    assert(listed(done, 7) == v.has(7));
    lemma_mark_there(v, done, 7);
    assert(listed(done, 8) == v.has(8));
    lemma_mark_there(v, done, 8);
    assert(listed(done, 9) == v.has(9));
    lemma_mark_there(v, done, 9);
    assert(listed(done, 10) == v.has(10));
    lemma_mark_there(v, done, 10);
    assert(listed(done, 11) == v.has(11));
    lemma_mark_there(v, done, 11);
}

/// The fields in an order are written as the fields of that order that are
/// there.
pub proof fn lemma_fields_present(v: SdPayloadView, order: Seq<usize>)
    ensures
        v.fields_wire(order) == v.fields_wire(order.filter(v.present())),
    decreases order.len(),
{
    reveal(Seq::filter);
    if order.len() != 0 {
        lemma_fields_present(v, order.drop_last());
        let fewer = order.drop_last().filter(v.present());
        if v.has(order.last()) {
            assert(fewer.push(order.last()).drop_last() =~= fewer);
        } else {
            assert(v.field_wire(order.last()) =~= Seq::<u8>::empty());
            assert(v.fields_wire(order) =~= v.fields_wire(order.drop_last()));
        }
    }
}

/// The fields one after the other, as the generic container writes them.
pub proof fn lemma_fields_joined(v: SdPayloadView, order: Seq<usize>)
    ensures
        v.fields_wire(order) == joined(v.field_writer(), order),
    decreases order.len(),
{
    if order.len() != 0 {
        lemma_fields_joined(v, order.drop_last());
    }
}

/// The states that reading the fields that are there leads through.
pub open spec fn states_of(v: SdPayloadView) -> Seq<PayloadScan> {
    Seq::new(v.present_order().len(), |i: int| v.scan_of(v.present_order().take(i + 1)))
}

/// The order in which the fields of a set of claims that reads back are
/// written holds the number of every field that is there once, and of no
/// other.
pub proof fn lemma_present_order(v: SdPayloadView)
    requires
        v.reads_back(),
    ensures
        ({
            let done = v.present_order();
            &&& done.no_duplicates()
            &&& all_there(v, done)
            &&& forall|j: usize| j < 12 ==> (#[trigger] listed(done, j)) == v.has(j)
            &&& done.len() == v.count()
            &&& 3 <= v.count() <= 12
        }),
{
    let done = v.present_order();
    reveal(all_there);
    reveal(listed);
    assert forall|k: int| 0 <= k < done.len() implies (#[trigger] done[k]) < 12 && v.has(done[k]) by {
        v.order().lemma_filter_pred(v.present(), k);
        assert(done.contains(done[k]));
        v.order().lemma_filter_contains_rev(v.present(), done[k]);
        let i = choose|i: int| 0 <= i < v.order().len() && v.order()[i] == done[k];
        assert(v.order()[i] < 12);
    }
    assert forall|j: usize| j < 12 implies (#[trigger] done.contains(j)) == v.has(j) by {
        if v.has(j) {
            assert(v.order().contains(j));
            let i = choose|i: int| 0 <= i < v.order().len() && v.order()[i] == j;
            v.order().lemma_filter_contains(v.present(), i);
        }
        if done.contains(j) {
            let k = choose|k: int| 0 <= k < done.len() && done[k] == j;
            assert(v.has(done[k]));
        }
    }
    lemma_order_len(v, done);
    assert(v.count() <= 12) by {
        reveal(there);
        lemma_count_there(v);
    }
}

/// The state after every field that is there was read makes a value that
/// holds what the set of claims holds.
pub proof fn lemma_scan_finishes(v: SdPayloadView)
    requires
        v.reads_back(),
    ensures
        v.scan_of(v.present_order()).finished() is Ok,
        v.settled().same_content(v),
{
    let done = v.present_order();
    lemma_present_order(v);
    lemma_scan_tracked(v, done);
    assert(listed(done, 0) == v.has(0));
    assert(v.field_readable(0));
    assert(listed(done, 1) == v.has(1));
    assert(v.field_readable(1));
    assert(listed(done, 2) == v.has(2));
    assert(v.field_readable(2));
    assert(listed(done, 3) == v.has(3));
    assert(v.field_readable(3));
    if v.exp is Some {
        v.exp->0.lemma_reads_back(Seq::empty());
    }
    assert(listed(done, 4) == v.has(4));
    assert(v.field_readable(4));
    if v.nbf is Some {
        v.nbf->0.lemma_reads_back(Seq::empty());
    }
    assert(listed(done, 5) == v.has(5));
    assert(v.field_readable(5));
    v.iat.lemma_reads_back(Seq::empty());
    assert(listed(done, 6) == v.has(6));
    assert(v.field_readable(6));
    assert(listed(done, 7) == v.has(7));
    assert(v.field_readable(7));
    if v.cnf is Some {
        lemma_table_reads_back(v.cnf->0, v.form().cnf_encoding, Seq::empty());
    }
    assert(listed(done, 8) == v.has(8));
    assert(v.field_readable(8));
    assert(listed(done, 9) == v.has(9));
    assert(v.field_readable(9));
    if v.sd_alg is Some {
        v.sd_alg->0.lemma_reads_back(Seq::empty());
    }
    assert(listed(done, 10) == v.has(10));
    assert(v.field_readable(10));
    assert(listed(done, 11) == v.has(11));
    assert(v.field_readable(11));
    lemma_table_reads_back(v.custom, v.form().custom_encoding, Seq::empty());
    lemma_read_all(v, done);
}

/// A field that is written reads back after the fields written before it.
pub proof fn lemma_nth_reads_back(v: SdPayloadView, i: int, tail: Seq<u8>)
    requires
        v.reads_back(),
        0 <= i < v.present_order().len(),
    ensures
        reads_as(
            payload_reader(v.first_scan()),
            Seq::<PayloadScan>::empty() + states_of(v).take(i),
            chunks(v.field_writer(), v.present_order())[i],
            tail,
            states_of(v)[i],
        ),
{
    let done = v.present_order();
    let len = v.head_len();
    let start = v.first_scan();
    let item = payload_reader(start);
    let ws = chunks(v.field_writer(), done);
    let vs = states_of(v);
    let none = Seq::<PayloadScan>::empty();
    lemma_present_order(v);
    let before = done.take(i);
    assert(PayloadScan::after(start, none + vs.take(i)) == v.scan_of(before)) by {
        if i == 0 {
            assert(none + vs.take(0) =~= none);
            assert(before =~= Seq::<usize>::empty());
        } else {
            assert((none + vs.take(i)).last() == vs[i - 1]);
            assert(done.take(i - 1 + 1) =~= before);
        }
    }
    assert(!listed(before, done[i])) by {
        reveal(listed);
        if before.contains(done[i]) {
            let k = choose|k: int| 0 <= k < before.len() && before[k] == done[i];
            assert(done[k] == done[i]);
        }
    }
    assert(all_there(v, before)) by {
        reveal(all_there);
        assert forall|k: int| 0 <= k < before.len() implies (#[trigger] before[k]) < 12
            && v.has(before[k]) by {
            assert(before[k] == done[k]);
        }
    }
    assert(before.no_duplicates()) by {
        assert forall|a: int, b: int| 0 <= a < before.len() && 0 <= b < before.len() && a != b
            implies before[a] != before[b] by {
            assert(before[a] == done[a]);
            assert(before[b] == done[b]);
        }
    }
    assert(v.has(done[i]) && done[i] < 12) by {
        reveal(all_there);
    }
    assert(v.field_readable(done[i]));
    lemma_entry_reads_back(v, before, done[i], tail);
    assert(before.push(done[i]) =~= done.take(i + 1));
}

/// The entries of a set of claims that are written read back.
pub proof fn lemma_fields_read_back(v: SdPayloadView, rest: Seq<u8>)
    requires
        v.reads_back(),
    ensures
        SdPayloadView::parse_fields(
            v.fields_wire(v.order()) + v.len_encoding().ending() + rest,
            v.first_scan(),
        ) == Ok::<(SdPayloadView, nat), ErrorView>(
            (v.settled(), v.fields_wire(v.order()).len() + v.len_encoding().ending().len()),
        ),
{
    let done = v.present_order();
    let len = v.head_len();
    let start = v.first_scan();
    let item = payload_reader(start);
    let ws = chunks(v.field_writer(), done);
    let vs = states_of(v);
    let none = Seq::<PayloadScan>::empty();
    lemma_present_order(v);
    lemma_fields_present(v, v.order());
    lemma_fields_joined(v, done);
    lemma_joined_chunks(v.field_writer(), done);
    lemma_scan_finishes(v);
    assert forall|i: int, tail: Seq<u8>| 0 <= i < ws.len() implies #[trigger] reads_as(
        item,
        none + vs.take(i),
        ws[i],
        tail,
        vs[i],
    ) by {
        lemma_nth_reads_back(v, i, tail);
    }
    lemma_items_read_back(item, v.len_encoding(), none, ws, vs, rest);
    assert(none + vs =~= vs);
    assert(vs.last() == v.scan_of(done)) by {
        assert(done.take(done.len() as int) =~= done);
    }
    lemma_len_descriptor(v.len_encoding(), len, v.count() as u64);
}

impl SdPayloadView {
    /// Round trip: a set of claims that is written reads back as a set of claims
    /// that holds the same, whatever follows it.
    pub proof fn lemma_reads_back(self, rest: Seq<u8>)
        requires
            self.reads_back(),
        ensures
            SdPayloadView::parse(self.wire() + rest) == Ok::<(SdPayloadView, nat), ErrorView>(
                (self.settled(), self.wire().len()),
            ),
            self.settled().same_content(self),
            (self.wire() + rest).skip(self.wire().len() as int) == rest,
            self.wire().len() >= 1,
    {
        reveal(SdPayloadView::parse);
        reveal(SdPayloadView::wire);
        let len = self.head_len();
        let s = self.wire() + rest;
        let body = self.fields_wire(self.order()) + self.len_encoding().ending() + rest;
        assert(s =~= len_head(MAJOR_MAP, len) + body);
        lemma_present_order(self);
        lemma_len_descriptor(self.len_encoding(), len, self.count() as u64);
        lemma_len_head_parses(MAJOR_MAP, len, body);
        lemma_fields_read_back(self, rest);
        assert(s.skip(self.wire().len() as int) =~= rest);
        lemma_scan_finishes(self);
    }
}

impl SdPayloadView {
    /// Whether nothing in the set of claims keeps a record of how it was written.
    pub open spec fn fresh(self) -> bool {
        &&& self.encodings is None
        &&& (self.exp matches Some(v) ==> v.bare() == v)
        &&& (self.nbf matches Some(v) ==> v.bare() == v)
        &&& self.iat.bare() == self.iat
        &&& (self.cnf matches Some(v) ==> entries_fresh(v))
        &&& (self.sd_alg matches Some(v) ==> v.bare() == v)
        &&& entries_fresh(self.custom)
    }

    /// Whether the key and the value of the field with the number `index`, if
    /// it is there, are written in the shortest form.
    pub open spec fn field_shortest(self, index: usize) -> bool {
        if index == 0 {
            self.iss matches Some(v) ==> {
                &&& fitting(1, self.form().iss_key_encoding) == shortest(1)
                &&& self.form().iss_encoding.shortest_form(utf8_len(v) as u64)
            }
        } else if index == 1 {
            self.sub matches Some(v) ==> {
                &&& fitting(2, self.form().sub_key_encoding) == shortest(2)
                &&& self.form().sub_encoding.shortest_form(utf8_len(v) as u64)
            }
        } else if index == 2 {
            &&& fitting(3, self.form().aud_key_encoding) == shortest(3)
            &&& self.form().aud_encoding.shortest_form(utf8_len(self.aud) as u64)
        } else if index == 3 {
            self.exp matches Some(v) ==> {
                &&& fitting(4, self.form().exp_key_encoding) == shortest(4)
                &&& v.shortest_form()
            }
        } else if index == 4 {
            self.nbf matches Some(v) ==> {
                &&& fitting(5, self.form().nbf_key_encoding) == shortest(5)
                &&& v.shortest_form()
            }
        } else if index == 5 {
            &&& fitting(6, self.form().iat_key_encoding) == shortest(6)
            &&& self.iat.shortest_form()
        } else if index == 6 {
            self.cnonce matches Some(v) ==> {
                &&& fitting(39, self.form().cnonce_key_encoding) == shortest(39)
                &&& self.form().cnonce_encoding.shortest_form(v.len() as u64)
            }
        } else if index == 7 {
            self.cnf matches Some(v) ==> {
                &&& fitting(8, self.form().cnf_key_encoding) == shortest(8)
                &&& self.form().cnf_encoding.shortest_form(v.len() as u64)
                &&& entries_shortest(v)
            }
        } else if index == 8 {
            self.sd_hash matches Some(v) ==> {
                &&& fitting(1113, self.form().sd_hash_key_encoding) == shortest(1113)
                &&& self.form().sd_hash_encoding.shortest_form(v.len() as u64)
            }
        } else if index == 9 {
            self.sd_alg matches Some(v) ==> {
                &&& fitting(1114, self.form().sd_alg_key_encoding) == shortest(1114)
                &&& v.shortest_form()
            }
        } else if index == 10 {
            self.redacted_keys matches Some(v) ==> {
                &&& fitting(1115, self.form().redacted_keys_key_encoding) == shortest(1115)
                &&& self.form().redacted_keys_encoding.shortest_form(v.len() as u64)
                &&& digests_shortest(v, self.form().redacted_keys_elem_encodings)
            }
        } else if index == 11 {
            &&& self.form().custom_key_encoding.shortest_form(utf8_len("custom"@) as u64)
            &&& self.form().custom_encoding.shortest_form(self.custom.len() as u64)
            &&& entries_shortest(self.custom)
        } else {
            true
        }
    }

    /// Whether the head of the map, every key and every value are written in
    /// the shortest form.
    pub open spec fn shortest_form(self) -> bool {
        &&& self.len_encoding().shortest_form(self.count() as u64)
        &&& forall|j: usize| j < 12 ==> #[trigger] self.field_shortest(j)
    }

    /// Canonical form: where nothing keeps a record of how it was written, the
    /// head of the map, every key and every value are written in the shortest
    /// form.
    pub proof fn lemma_fresh_is_shortest(self)
        requires
            self.fresh(),
        ensures
            self.shortest_form(),
    {
        assert(self.field_shortest(0));
        assert(self.field_shortest(1));
        assert(self.field_shortest(2));
        assert(self.field_shortest(3)) by {
            if self.exp is Some {
                self.exp->0.lemma_fresh_is_shortest(Sz::Eight);
            }
        }
        assert(self.field_shortest(4)) by {
            if self.nbf is Some {
                self.nbf->0.lemma_fresh_is_shortest(Sz::Eight);
            }
        }
        assert(self.field_shortest(5)) by {
            self.iat.lemma_fresh_is_shortest(Sz::Eight);
        }
        assert(self.field_shortest(6));
        assert(self.field_shortest(7)) by {
            if self.cnf is Some {
                lemma_fresh_entries(self.cnf->0);
            }
        }
        assert(self.field_shortest(8));
        assert(self.field_shortest(9)) by {
            if self.sd_alg is Some {
                self.sd_alg->0.lemma_fresh_is_shortest(Sz::Eight);
            }
        }
        assert(self.field_shortest(10)) by {
            if self.redacted_keys is Some {
                lemma_fresh_digests(self.redacted_keys->0);
            }
        }
        assert(self.field_shortest(11)) by {
            lemma_fresh_entries(self.custom);
        }
    }
}

impl SdPayloadView {
    /// Where no order is recorded, the fields are written in their own order:
    /// each field that is there once.
    pub proof fn lemma_fresh_order(self)
        requires
            self.encodings is None,
        ensures
            self.well_formed(),
            self.present_order().no_duplicates(),
            forall|j: usize| j < 12 && self.has(j) ==> #[trigger] self.order().contains(j),
    {
        let plain = all_fields();
        assert(self.order() == plain);
        assert forall|i: int| 0 <= i < 12 implies #[trigger] plain[i] == i by {
            assert(plain[0] == 0);
            assert(plain[1] == 1);
            assert(plain[2] == 2);
            assert(plain[3] == 3);
            assert(plain[4] == 4);
            assert(plain[5] == 5);
            assert(plain[6] == 6);
            assert(plain[7] == 7);
            assert(plain[8] == 8);
            assert(plain[9] == 9);
            assert(plain[10] == 10);
            assert(plain[11] == 11);
        }
        assert(plain.no_duplicates());
        lemma_filter_no_duplicates(plain, self.present());
        assert forall|j: usize| j < 12 implies #[trigger] plain.contains(j) by {
            assert(plain[j as int] == j);
        }
    }

    /// Round trip for what was built: a set of claims without a record of how it
    /// was written reads back where each of its fields does.
    pub proof fn lemma_fresh_reads_back(self)
        requires
            self.encodings is None,
            forall|j: usize| j < 12 ==> #[trigger] self.field_readable(j),
        ensures
            self.reads_back(),
    {
        self.lemma_fresh_order();
    }
}

} // verus!
