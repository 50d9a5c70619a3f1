//! The laws of the codec for salted disclosures.

use crate::anyy::Anyy;
use crate::cbor_encodings::SaltedItemEncodingView;
use crate::error::ErrorView;
use crate::int_or_text::{IntOrText, IntOrTextView, KeyIdentity};
use crate::laws_values::{
    lemma_bytes_read_back, lemma_bytes_written_back, lemma_closing_reads_back, lemma_bytes_settle,
    lemma_closing_written_back, len_writable,
};
use crate::salted::{
    item_len_encoding, item_salt_encoding, parse_salt, SaltedClaimItemView, SaltedElementItemView,
    SaltedView,
};
use crate::serialization::{
    bytes_encodable, bytes_wire, parse_bytes, parse_closing, StringEncodingView,
};
use crate::wire::{len_head, len_width, parse_len, type_of, MAJOR_ARRAY};
use crate::wire_lemmas::{lemma_head_written_back, lemma_len_head_parses, lemma_type_of_major};
use cbor_event::Type;
use vstd::prelude::*;

verus! {

broadcast use {vstd::seq_lib::lemma_seq_skip_of_skip, vstd::seq_lib::lemma_seq_skip_nothing};

/// The wire form of a salted item as it is read after it was written with
/// `count` elements.
pub open spec fn settled_item_encoding(
    encodings: Option<SaltedItemEncodingView>,
    count: u64,
) -> Option<SaltedItemEncodingView> {
    Some(
        SaltedItemEncodingView {
            len_encoding: item_len_encoding(encodings).settled(count),
            salt_encoding: item_salt_encoding(encodings).settled(16),
        },
    )
}

/// A salt that is written reads back.
pub proof fn lemma_salt_reads_back(salt: Seq<u8>, enc: StringEncodingView, rest: Seq<u8>)
    requires
        salt.len() == 16,
        bytes_encodable(salt, enc),
    ensures
        parse_salt(bytes_wire(salt, enc) + rest) == Ok::<
            ((Seq<u8>, StringEncodingView), nat),
            ErrorView,
        >(((salt, enc.settled(16)), bytes_wire(salt, enc).len())),
        (bytes_wire(salt, enc) + rest).skip(bytes_wire(salt, enc).len() as int) == rest,
{
    reveal(parse_salt);
    lemma_bytes_read_back(salt, enc, rest);
}

impl SaltedElementItemView {
    /// What the element holds, whatever the way it is written.
    pub open spec fn content(self) -> Seq<u8> {
        self.salt
    }

    /// Whether the element is one that reads back after it was written: its
    /// salt has sixteen bytes and can be written.
    pub open spec fn reads_back(self) -> bool {
        &&& self.salt.len() == 16
        &&& self.encodable()
    }

    /// The element as it is read after it was written.
    pub open spec fn settled(self) -> SaltedElementItemView {
        SaltedElementItemView {
            salt: self.salt,
            value: self.value.settled(),
            encodings: settled_item_encoding(self.encodings, 2),
        }
    }

    /// Round trip: an element that is written reads back with the same
    /// salt, whatever follows it.
    pub proof fn lemma_reads_back(self, rest: Seq<u8>)
        requires
            self.reads_back(),
        ensures
            SaltedElementItemView::parse(self.wire() + rest) == Ok::<
                (SaltedElementItemView, nat),
                ErrorView,
            >((self.settled(), self.wire().len())),
            self.settled().content() == self.content(),
            self.settled().reads_back(),
            self.settled().wire() == self.wire(),
            (self.wire() + rest).skip(self.wire().len() as int) == rest,
    {
        let le = item_len_encoding(self.encodings);
        let se = item_salt_encoding(self.encodings);
        let len = le.head_for(2);
        let s = self.wire() + rest;
        let after_value = le.ending() + rest;
        let after_salt = self.value.wire() + after_value;
        let after_head = bytes_wire(self.salt, se) + after_salt;
        assert(s =~= len_head(MAJOR_ARRAY, len) + after_head);
        lemma_len_head_parses(MAJOR_ARRAY, len, after_head);
        lemma_salt_reads_back(self.salt, se, after_salt);
        self.value.lemma_reads_back(after_value);
        lemma_closing_reads_back(le, 2, rest);
        assert(s.skip(self.wire().len() as int) =~= rest);
        lemma_bytes_settle(self.salt, se);
        assert(self.settled().wire() =~= self.wire());
    }

    /// Byte preservation: an element that is read is written back as the
    /// bytes it was read from.
    pub proof fn lemma_written_back(s: Seq<u8>)
        requires
            SaltedElementItemView::parse(s) is Ok,
        ensures
            ({
                let (v, n) = SaltedElementItemView::parse(s)->Ok_0;
                &&& 1 <= n <= s.len()
                &&& v.reads_back()
                &&& v.settled() == v
                &&& v.wire() == s.subrange(0, n as int)
            }),
    {
        let (v, n) = SaltedElementItemView::parse(s)->Ok_0;
        let len = parse_len(MAJOR_ARRAY, s)->0;
        let start = 1 + len_width(len);
        lemma_head_written_back(MAJOR_ARRAY, s);
        let body = s.skip(start as int);
        reveal(parse_salt);
        lemma_bytes_written_back(body);
        let (salt, se, a) = parse_bytes(body)->0;
        Anyy::lemma_written_back(body.skip(a as int));
        let (value, b) = Anyy::parse(body.skip(a as int))->Ok_0;
        lemma_closing_written_back(body.skip((a + b) as int), len);
        let (_, c) = parse_closing(body.skip((a + b) as int), len)->Ok_0;
        assert(n == start + a + b + c);
        assert(s.subrange(0, n as int) =~= s.subrange(0, start as int) + body.subrange(0, a as int)
            + body.skip(a as int).subrange(0, b as int) + body.skip((a + b) as int).subrange(
            0,
            c as int,
        ));
        assert(v.wire() =~= s.subrange(0, n as int));
    }
}

impl SaltedClaimItemView {
    /// What the claim holds, whatever the way it is written.
    pub open spec fn content(self) -> (Seq<u8>, KeyIdentity) {
        (self.salt, self.index_1.identity())
    }

    /// Whether the claim is one that reads back after it was written: its
    /// salt has sixteen bytes and can be written, and its index is a text
    /// that can be written.
    pub open spec fn reads_back(self) -> bool {
        &&& self.salt.len() == 16
        &&& bytes_encodable(self.salt, item_salt_encoding(self.encodings))
        &&& self.index_1.reads_back()
    }

    /// The claim as it is read after it was written.
    pub open spec fn settled(self) -> SaltedClaimItemView {
        SaltedClaimItemView {
            salt: self.salt,
            index_1: self.index_1.settled(),
            value: self.value.settled(),
            encodings: settled_item_encoding(self.encodings, 3),
        }
    }

    /// Round trip: a claim that is written reads back with the same salt and
    /// the same index, whatever follows it.
    #[verifier::rlimit(60)]
    #[verifier::spinoff_prover]
    pub proof fn lemma_reads_back(self, rest: Seq<u8>)
        requires
            self.reads_back(),
        ensures
            SaltedClaimItemView::parse(self.wire() + rest) == Ok::<
                (SaltedClaimItemView, nat),
                ErrorView,
            >((self.settled(), self.wire().len())),
            self.settled().content() == self.content(),
            self.settled().reads_back(),
            self.settled().wire() == self.wire(),
            (self.wire() + rest).skip(self.wire().len() as int) == rest,
    {
        let le = item_len_encoding(self.encodings);
        let se = item_salt_encoding(self.encodings);
        let len = le.head_for(3);
        let s = self.wire() + rest;
        let after_value = le.ending() + rest;
        let after_index = self.value.wire() + after_value;
        let after_salt = self.index_1.wire() + after_index;
        let after_head = bytes_wire(self.salt, se) + after_salt;
        assert(s =~= len_head(MAJOR_ARRAY, len) + after_head);
        lemma_len_head_parses(MAJOR_ARRAY, len, after_head);
        lemma_salt_reads_back(self.salt, se, after_salt);
        self.index_1.lemma_reads_back(IntOrText::name(), after_index);
        self.value.lemma_reads_back(after_value);
        lemma_closing_reads_back(le, 3, rest);
        let a = bytes_wire(self.salt, se).len();
        let b = self.index_1.wire().len();
        let c = self.value.wire().len();
        assert(after_head.skip(a as int) == after_salt);
        assert(after_head.skip((a + b) as int) =~= after_index);
        assert(after_head.skip((a + b + c) as int) =~= after_value);
        assert(SaltedClaimItemView::parse_body(after_head, len) == Ok::<
            (SaltedClaimItemView, nat),
            ErrorView,
        >((self.settled(), (a + b + c + le.ending().len()) as nat)));
        assert(s.skip(self.wire().len() as int) =~= rest);
        lemma_bytes_settle(self.salt, se);
        assert(self.settled().wire() =~= self.wire());
    }

    /// Byte preservation: a claim that is read is written back as the bytes
    /// it was read from.
    pub proof fn lemma_written_back(s: Seq<u8>)
        requires
            SaltedClaimItemView::parse(s) is Ok,
        ensures
            ({
                let (v, n) = SaltedClaimItemView::parse(s)->Ok_0;
                &&& 1 <= n <= s.len()
                &&& v.reads_back()
                &&& v.settled() == v
                &&& v.wire() == s.subrange(0, n as int)
            }),
    {
        let (v, n) = SaltedClaimItemView::parse(s)->Ok_0;
        let len = parse_len(MAJOR_ARRAY, s)->0;
        let start = 1 + len_width(len);
        lemma_head_written_back(MAJOR_ARRAY, s);
        let body = s.skip(start as int);
        reveal(parse_salt);
        lemma_bytes_written_back(body);
        let (salt, se, a) = parse_bytes(body)->0;
        IntOrTextView::lemma_written_back(IntOrText::name(), body.skip(a as int));
        let (index, b) = IntOrTextView::parse(IntOrText::name(), body.skip(a as int))->Ok_0;
        Anyy::lemma_written_back(body.skip((a + b) as int));
        let (value, c) = Anyy::parse(body.skip((a + b) as int))->Ok_0;
        lemma_closing_written_back(body.skip((a + b + c) as int), len);
        let (_, d) = parse_closing(body.skip((a + b + c) as int), len)->Ok_0;
        assert(n == start + a + b + c + d);
        assert(s.subrange(0, n as int) =~= s.subrange(0, start as int) + body.subrange(0, a as int)
            + body.skip(a as int).subrange(0, b as int) + body.skip((a + b) as int).subrange(
            0,
            c as int,
        ) + body.skip((a + b + c) as int).subrange(0, d as int));
        assert(v.wire() =~= s.subrange(0, n as int));
    }

    /// An element that is written does not read as a claim.
    pub proof fn lemma_element_is_no_claim(element: SaltedElementItemView, rest: Seq<u8>)
        requires
            element.reads_back(),
        ensures
            SaltedClaimItemView::parse(element.wire() + rest) is Err,
    {
        let le = item_len_encoding(element.encodings);
        let se = item_salt_encoding(element.encodings);
        let len = le.head_for(2);
        let s = element.wire() + rest;
        let after_value = le.ending() + rest;
        let after_salt = element.value.wire() + after_value;
        let after_head = bytes_wire(element.salt, se) + after_salt;
        assert(s =~= len_head(MAJOR_ARRAY, len) + after_head);
        lemma_len_head_parses(MAJOR_ARRAY, len, after_head);
        lemma_salt_reads_back(element.salt, se, after_salt);
        element.value.lemma_reads_back(after_value);
        lemma_type_of_major(after_salt[0]);
        reveal(IntOrTextView::parse);
        reveal(crate::integer::Int::parse);
    }
}

/// What a salted disclosure holds, whatever the way it is written.
pub enum SaltedContent {
    Claim(Seq<u8>, KeyIdentity),
    Element(Seq<u8>),
}

impl SaltedView {
    /// What the disclosure holds, whatever the way it is written.
    pub open spec fn content(self) -> SaltedContent {
        match self {
            SaltedView::SaltedClaim { salted_claim, .. } => SaltedContent::Claim(
                salted_claim.salt,
                salted_claim.index_1.identity(),
            ),
            SaltedView::SaltedElement { salted_element, .. } => SaltedContent::Element(
                salted_element.salt,
            ),
        }
    }

    /// Whether the disclosure is one that reads back after it was written:
    /// the claim or element reads back, and its encoding can be written as
    /// a byte string.
    pub open spec fn reads_back(self) -> bool {
        match self {
            SaltedView::SaltedClaim { salted_claim, salted_claim_bytes_encoding } => {
                &&& salted_claim.reads_back()
                &&& len_writable(salted_claim.wire().len(), salted_claim_bytes_encoding)
                &&& bytes_encodable(salted_claim.wire(), salted_claim_bytes_encoding)
            },
            SaltedView::SaltedElement { salted_element, salted_element_bytes_encoding } => {
                &&& salted_element.reads_back()
                &&& len_writable(salted_element.wire().len(), salted_element_bytes_encoding)
                &&& bytes_encodable(salted_element.wire(), salted_element_bytes_encoding)
            },
        }
    }

    /// The disclosure as it is read after it was written.
    pub open spec fn settled(self) -> SaltedView {
        match self {
            SaltedView::SaltedClaim { salted_claim, salted_claim_bytes_encoding } => {
                SaltedView::SaltedClaim {
                    salted_claim: salted_claim.settled(),
                    salted_claim_bytes_encoding: salted_claim_bytes_encoding.settled(
                        salted_claim.wire().len() as u64,
                    ),
                }
            },
            SaltedView::SaltedElement { salted_element, salted_element_bytes_encoding } => {
                SaltedView::SaltedElement {
                    salted_element: salted_element.settled(),
                    salted_element_bytes_encoding: salted_element_bytes_encoding.settled(
                        salted_element.wire().len() as u64,
                    ),
                }
            },
        }
    }

    /// Round trip: a disclosure that is written reads back as a disclosure of
    /// the same kind with the same salt and index, whatever follows it.
    pub proof fn lemma_reads_back(self, rest: Seq<u8>)
        requires
            self.reads_back(),
        ensures
            SaltedView::parse(self.wire() + rest) == Ok::<(SaltedView, nat), ErrorView>(
                (self.settled(), self.wire().len()),
            ),
            self.settled().content() == self.content(),
            self.settled().reads_back(),
            self.settled().wire() == self.wire(),
            (self.wire() + rest).skip(self.wire().len() as int) == rest,
            self.wire().len() >= 1,
            type_of((self.wire() + rest)[0]) == Type::Bytes,
    {
        match self {
            SaltedView::SaltedClaim { salted_claim, salted_claim_bytes_encoding } => {
                let inner = salted_claim.wire();
                lemma_bytes_read_back(inner, salted_claim_bytes_encoding, rest);
                salted_claim.lemma_reads_back(Seq::empty());
                assert(inner + Seq::<u8>::empty() =~= inner);
                lemma_bytes_settle(inner, salted_claim_bytes_encoding);
            },
            SaltedView::SaltedElement { salted_element, salted_element_bytes_encoding } => {
                let inner = salted_element.wire();
                lemma_bytes_read_back(inner, salted_element_bytes_encoding, rest);
                salted_element.lemma_reads_back(Seq::empty());
                SaltedClaimItemView::lemma_element_is_no_claim(salted_element, Seq::empty());
                assert(inner + Seq::<u8>::empty() =~= inner);
                lemma_bytes_settle(inner, salted_element_bytes_encoding);
            },
        }
    }

    /// Byte preservation: a disclosure that is read is written back as the
    /// bytes it was read from.
    pub proof fn lemma_written_back(s: Seq<u8>)
        requires
            SaltedView::parse(s) is Ok,
        ensures
            ({
                let (v, n) = SaltedView::parse(s)->Ok_0;
                &&& 1 <= n <= s.len()
                &&& v.reads_back()
                &&& v.settled() == v
                &&& v.wire() == s.subrange(0, n as int)
            }),
    {
        lemma_bytes_written_back(s);
        let (inner, enc, n) = parse_bytes(s)->0;
        if SaltedView::parse_claim(s) is Ok {
            SaltedClaimItemView::lemma_written_back(inner);
            assert(inner.subrange(0, inner.len() as int) =~= inner);
        } else {
            SaltedElementItemView::lemma_written_back(inner);
            assert(inner.subrange(0, inner.len() as int) =~= inner);
        }
    }
}

} // verus!
