//! Canonical form: a value that keeps no record of how it was written is
//! written with every number, every length and every string in the shortest
//! form, and no form that can carry them is shorter.

use crate::anyy::Anyy;
use crate::int_or_text::IntOrTextView;
use crate::laws_values::utf8_len;
use crate::ordered_hash_map::EntryView;
use crate::payload::digest_encoding;
use crate::salted::{
    item_len_encoding, item_salt_encoding, SaltedClaimItemView, SaltedElementItemView, SaltedView,
};
use crate::serialization::{bytes_wire, text_wire, LenEncoding, StringEncodingView};
use crate::wire::{head, len_head, shortest, widest, StringForm, MAJOR_BYTES, MAJOR_TEXT};
use crate::wire_lemmas::{lemma_head_len, lemma_shortest_is_least};
use cbor_event::{LenSz, Sz};
use vstd::prelude::*;
use vstd::utf8::encode_utf8;

verus! {

impl LenEncoding {
    /// Whether a container of `len` elements is written with the shortest
    /// head.
    pub open spec fn shortest_form(self, len: u64) -> bool {
        self.head_for(len) == LenSz::Len(len, shortest(len))
    }
}

impl StringEncodingView {
    /// Whether a string of `len` bytes is written in one piece with the
    /// shortest head.
    pub open spec fn shortest_form(self, len: u64) -> bool {
        self.form_for(len) == StringForm::Definite(shortest(len))
    }
}

/// A length without a recorded form is written in the shortest form, and no
/// head that can carry it is shorter.
pub proof fn lemma_fresh_len(major: u8, len: u64, sz: Sz)
    requires
        len <= widest(sz),
    ensures
        LenEncoding::Canonical.shortest_form(len),
        len_head(major, LenEncoding::Canonical.head_for(len)).len() <= head(major, len, sz).len(),
{
    lemma_shortest_is_least(len, sz);
    lemma_head_len(major, len, sz);
    lemma_head_len(major, len, shortest(len));
}

/// A byte string without a recorded layout is written as the shortest head
/// that can carry its length, and its bytes.
pub proof fn lemma_fresh_bytes(data: Seq<u8>, enc: StringEncodingView)
    requires
        enc.shortest_form(data.len() as u64),
    ensures
        StringEncodingView::Canonical.shortest_form(data.len() as u64),
        bytes_wire(data, enc) == head(
            MAJOR_BYTES,
            data.len() as u64,
            shortest(data.len() as u64),
        ) + data,
{
    reveal(bytes_wire);
}

/// A text without a recorded layout is written as the shortest head that
/// can carry its length, and its bytes.
pub proof fn lemma_fresh_text(text: Seq<char>, enc: StringEncodingView)
    requires
        enc.shortest_form(utf8_len(text) as u64),
    ensures
        StringEncodingView::Canonical.shortest_form(utf8_len(text) as u64),
        text_wire(text, enc) == head(
            MAJOR_TEXT,
            utf8_len(text) as u64,
            shortest(utf8_len(text) as u64),
        ) + encode_utf8(text),
{
    reveal(text_wire);
    reveal(utf8_len);
}

impl Anyy {
    /// Whether the value keeps no record of how it was written.
    pub open spec fn fresh(self) -> bool {
        self.encodings is None
    }

    /// Whether the value is written in the shortest form.
    pub open spec fn shortest_form(self) -> bool {
        &&& self.len_encoding().shortest_form(1)
        &&& self.index_0_width() == shortest(0)
    }

    /// Canonical form: a value that keeps no record of how it was written is
    /// written in the shortest form.
    pub proof fn lemma_fresh_is_shortest(self)
        requires
            self.fresh(),
        ensures
            self.shortest_form(),
    {
    }
}

impl IntOrTextView {
    /// Whether the value keeps no record of how it was written.
    pub open spec fn fresh(self) -> bool {
        match self {
            IntOrTextView::Int(i) => i.bare() == i,
            IntOrTextView::Text { text_encoding, .. } => text_encoding
                == StringEncodingView::Canonical,
        }
    }

    /// Whether the value is written in the shortest form.
    pub open spec fn shortest_form(self) -> bool {
        match self {
            IntOrTextView::Int(i) => i.shortest_form(),
            IntOrTextView::Text { text, text_encoding } => text_encoding.shortest_form(
                utf8_len(text) as u64,
            ),
        }
    }

    /// Canonical form: a value that keeps no record of how it was written is
    /// written in the shortest form.
    pub proof fn lemma_fresh_is_shortest(self)
        requires
            self.fresh(),
        ensures
            self.shortest_form(),
    {
        match self {
            IntOrTextView::Int(i) => {
                i.lemma_fresh_is_shortest(Sz::Eight);
            },
            IntOrTextView::Text { .. } => {},
        }
    }
}

impl SaltedClaimItemView {
    /// Whether the claim and what it holds keep no record of how they were
    /// written.
    pub open spec fn fresh(self) -> bool {
        &&& self.encodings is None
        &&& self.index_1.fresh()
        &&& self.value.fresh()
    }

    /// Whether the claim and what it holds are written in the shortest
    /// form.
    pub open spec fn shortest_form(self) -> bool {
        &&& item_len_encoding(self.encodings).shortest_form(3)
        &&& item_salt_encoding(self.encodings).shortest_form(self.salt.len() as u64)
        &&& self.index_1.shortest_form()
        &&& self.value.shortest_form()
    }

    /// Canonical form: a claim that keeps no record of how it was written is
    /// written in the shortest form.
    pub proof fn lemma_fresh_is_shortest(self)
        requires
            self.fresh(),
        ensures
            self.shortest_form(),
    {
        self.index_1.lemma_fresh_is_shortest();
        self.value.lemma_fresh_is_shortest();
    }
}

impl SaltedElementItemView {
    /// Whether the element and what it holds keep no record of how they
    /// were written.
    pub open spec fn fresh(self) -> bool {
        &&& self.encodings is None
        &&& self.value.fresh()
    }

    /// Whether the element and what it holds are written in the shortest
    /// form.
    pub open spec fn shortest_form(self) -> bool {
        &&& item_len_encoding(self.encodings).shortest_form(2)
        &&& item_salt_encoding(self.encodings).shortest_form(self.salt.len() as u64)
        &&& self.value.shortest_form()
    }

    /// Canonical form: an element that keeps no record of how it was written
    /// is written in the shortest form.
    pub proof fn lemma_fresh_is_shortest(self)
        requires
            self.fresh(),
        ensures
            self.shortest_form(),
    {
        self.value.lemma_fresh_is_shortest();
    }
}

impl SaltedView {
    /// Whether the disclosure and what it holds keep no record of how they
    /// were written.
    pub open spec fn fresh(self) -> bool {
        match self {
            SaltedView::SaltedClaim { salted_claim, salted_claim_bytes_encoding } => {
                &&& salted_claim.fresh()
                &&& salted_claim_bytes_encoding == StringEncodingView::Canonical
            },
            SaltedView::SaltedElement { salted_element, salted_element_bytes_encoding } => {
                &&& salted_element.fresh()
                &&& salted_element_bytes_encoding == StringEncodingView::Canonical
            },
        }
    }

    /// Whether the disclosure and what it holds are written in the shortest
    /// form.
    pub open spec fn shortest_form(self) -> bool {
        match self {
            SaltedView::SaltedClaim { salted_claim, salted_claim_bytes_encoding } => {
                &&& salted_claim.shortest_form()
                &&& salted_claim_bytes_encoding.shortest_form(salted_claim.wire().len() as u64)
            },
            SaltedView::SaltedElement { salted_element, salted_element_bytes_encoding } => {
                &&& salted_element.shortest_form()
                &&& salted_element_bytes_encoding.shortest_form(
                    salted_element.wire().len() as u64,
                )
            },
        }
    }

    /// Canonical form: a disclosure that keeps no record of how it was
    /// written is written in the shortest form.
    pub proof fn lemma_fresh_is_shortest(self)
        requires
            self.fresh(),
        ensures
            self.shortest_form(),
    {
        match self {
            SaltedView::SaltedClaim { salted_claim, .. } => {
                salted_claim.lemma_fresh_is_shortest();
            },
            SaltedView::SaltedElement { salted_element, .. } => {
                salted_element.lemma_fresh_is_shortest();
            },
        }
    }
}

/// Whether no entry of a map keeps a record of how it was written.
pub open spec fn entries_fresh(entries: Seq<EntryView>) -> bool {
    forall|i: int|
        0 <= i < entries.len() ==> (#[trigger] entries[i]).0.fresh() && entries[i].1.fresh()
}

/// Whether every entry of a map is written in the shortest form.
pub open spec fn entries_shortest(entries: Seq<EntryView>) -> bool {
    forall|i: int|
        0 <= i < entries.len() ==> (#[trigger] entries[i]).0.shortest_form()
            && entries[i].1.shortest_form()
}

/// Canonical form: the entries of a map that keep no record of how they were
/// written are written in the shortest form.
pub proof fn lemma_fresh_entries(entries: Seq<EntryView>)
    requires
        entries_fresh(entries),
    ensures
        entries_shortest(entries),
{
    assert forall|i: int| 0 <= i < entries.len() implies (#[trigger] entries[i]).0.shortest_form()
        && entries[i].1.shortest_form() by {
        entries[i].0.lemma_fresh_is_shortest();
        entries[i].1.lemma_fresh_is_shortest();
    }
}

/// Whether no disclosure of a list keeps a record of how it was written.
pub open spec fn salted_fresh(items: Seq<SaltedView>) -> bool {
    forall|i: int| 0 <= i < items.len() ==> (#[trigger] items[i]).fresh()
}

/// Whether every disclosure of a list is written in the shortest form.
pub open spec fn salted_shortest(items: Seq<SaltedView>) -> bool {
    forall|i: int| 0 <= i < items.len() ==> (#[trigger] items[i]).shortest_form()
}

/// Canonical form: the disclosures of a list that keep no record of how they
/// were written are written in the shortest form.
pub proof fn lemma_fresh_salted(items: Seq<SaltedView>)
    requires
        salted_fresh(items),
    ensures
        salted_shortest(items),
{
    assert forall|i: int| 0 <= i < items.len() implies (#[trigger] items[i]).shortest_form() by {
        items[i].lemma_fresh_is_shortest();
    }
}

/// Whether every digest of a list is written in the shortest form.
pub open spec fn digests_shortest(items: Seq<Seq<u8>>, encodings: Seq<StringEncodingView>) -> bool {
    forall|i: int|
        0 <= i < items.len() ==> digest_encoding(encodings, i).shortest_form(
            (#[trigger] items[i]).len() as u64,
        )
}

/// Canonical form: digests for which no layout is recorded are written in
/// the shortest form.
pub proof fn lemma_fresh_digests(items: Seq<Seq<u8>>)
    ensures
        digests_shortest(items, Seq::empty()),
{
}

} // verus!
