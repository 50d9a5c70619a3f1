//! The laws of the codec for the token.

use crate::error::ErrorView;
use crate::laws_values::{
    lemma_bytes_read_back, lemma_bytes_written_back, lemma_closing_reads_back,
    lemma_closing_written_back, lemma_fitting, lemma_len_descriptor, len_writable,
};
use crate::payload::SdPayloadView;
use crate::protected::SdProtectedView;
use crate::sd_cwt::{
    parse_signature, parse_wrapped_payload, parse_wrapped_protected, SdCwtEncodingView, SdCwtView,
};
use crate::serialization::{
    bytes_encodable, bytes_wire, fitting, parse_bytes, parse_closing, LenEncoding,
    StringEncodingView,
};
use crate::unprotected::UnprotectedView;
use crate::wire::{
    head, len_head, len_width, parse_arg, parse_len, shortest, width, MAJOR_ARRAY, MAJOR_TAG,
};
use crate::wire_lemmas::{
    lemma_head_parses, lemma_head_written_back, lemma_len_head_parses, lemma_shortest_is_least,
};
use cbor_event::{LenSz, Sz};
use vstd::prelude::*;

verus! {

broadcast use {vstd::seq_lib::lemma_seq_skip_of_skip, vstd::seq_lib::lemma_seq_skip_nothing};

/// A protected header that is read from a byte string is written back as the
/// bytes it was read from.
pub proof fn lemma_wrapped_protected_written_back(s: Seq<u8>)
    requires
        parse_wrapped_protected(s) is Ok,
    ensures
        ({
            let ((v, enc), n) = parse_wrapped_protected(s)->Ok_0;
            &&& 1 <= n <= s.len()
            &&& v.well_formed()
            &&& v.encodable()
            &&& v.reads_back()
            &&& len_writable(v.wire().len(), enc)
            &&& bytes_encodable(v.wire(), enc)
            &&& bytes_wire(v.wire(), enc) == s.subrange(0, n as int)
        }),
{
    reveal(parse_wrapped_protected);
    lemma_bytes_written_back(s);
    let (inner, enc, n) = parse_bytes(s)->0;
    SdProtectedView::lemma_written_back(inner);
    assert(inner.subrange(0, inner.len() as int) =~= inner);
}

/// Claims that are read from a byte string are written back as the bytes
/// they were read from.
pub proof fn lemma_wrapped_payload_written_back(s: Seq<u8>)
    requires
        parse_wrapped_payload(s) is Ok,
    ensures
        ({
            let ((v, enc), n) = parse_wrapped_payload(s)->Ok_0;
            &&& 1 <= n <= s.len()
            &&& v.well_formed()
            &&& v.encodable()
            &&& v.reads_back()
            &&& len_writable(v.wire().len(), enc)
            &&& bytes_encodable(v.wire(), enc)
            &&& bytes_wire(v.wire(), enc) == s.subrange(0, n as int)
        }),
{
    reveal(parse_wrapped_payload);
    lemma_bytes_written_back(s);
    let (inner, enc, n) = parse_bytes(s)->0;
    SdPayloadView::lemma_written_back(inner);
    assert(inner.subrange(0, inner.len() as int) =~= inner);
}

/// A signature that is read is written back as the bytes it was read from.
pub proof fn lemma_signature_written_back(s: Seq<u8>)
    requires
        parse_signature(s) is Ok,
    ensures
        ({
            let ((v, enc), n) = parse_signature(s)->Ok_0;
            &&& 1 <= n <= s.len()
            &&& len_writable(v.len(), enc)
            &&& bytes_encodable(v, enc)
            &&& bytes_wire(v, enc) == s.subrange(0, n as int)
        }),
{
    reveal(parse_signature);
    lemma_bytes_written_back(s);
}

impl SdCwtView {
    /// Whether the token can be handed to the writer, and is written.
    #[verifier::opaque]
    pub open spec fn writable(self) -> bool {
        self.well_formed() && self.encodable()
    }

    /// The bytes that the elements of the token are written as, and what
    /// ends the array.
    #[verifier::opaque]
    pub open spec fn body_wire(self) -> Seq<u8> {
        bytes_wire(self.protected.wire(), self.form().protected_bytes_encoding)
            + self.unprotected.wire() + bytes_wire(
            self.payload.wire(),
            self.form().payload_bytes_encoding,
        ) + bytes_wire(self.signature, self.form().signature_encoding)
            + self.form().len_encoding.ending()
    }

    /// The token is written as its tag, the head of its array, and its
    /// elements.
    pub proof fn lemma_wire_parts(self)
        ensures
            self.wire() == head(MAJOR_TAG, 18, fitting(18, self.form().tag_encoding)) + len_head(
                MAJOR_ARRAY,
                self.form().len_encoding.head_for(4),
            ) + self.body_wire(),
    {
        reveal(SdCwtView::body_wire);
        assert(self.wire() =~= head(MAJOR_TAG, 18, fitting(18, self.form().tag_encoding))
            + len_head(MAJOR_ARRAY, self.form().len_encoding.head_for(4)) + self.body_wire());
    }

    /// What follows the head of the array is written back as the bytes it
    /// was read from.
    pub proof fn lemma_body_written_back(s: Seq<u8>, tag_enc: Sz, len: LenSz)
        requires
            SdCwtView::parse_body(s, tag_enc, len) is Ok,
        ensures
            ({
                let (v, n) = SdCwtView::parse_body(s, tag_enc, len)->Ok_0;
                &&& n <= s.len()
                &&& v.writable()
                &&& v.reads_back()
                &&& v.form().tag_encoding == Some(tag_enc)
                &&& v.form().len_encoding == LenEncoding::of(len)
                &&& v.body_wire() == s.subrange(0, n as int)
            }),
    {
        reveal(SdCwtView::parse_body);
        reveal(SdCwtView::writable);
        reveal(SdCwtView::body_wire);
        reveal(SdCwtView::reads_back);
        let (v, n) = SdCwtView::parse_body(s, tag_enc, len)->Ok_0;
        lemma_wrapped_protected_written_back(s);
        let (_, a) = parse_wrapped_protected(s)->Ok_0;
        UnprotectedView::lemma_written_back(s.skip(a as int));
        let (_, b) = UnprotectedView::parse(s.skip(a as int))->Ok_0;
        lemma_wrapped_payload_written_back(s.skip((a + b) as int));
        let (_, c) = parse_wrapped_payload(s.skip((a + b) as int))->Ok_0;
        lemma_signature_written_back(s.skip((a + b + c) as int));
        let (_, d) = parse_signature(s.skip((a + b + c) as int))->Ok_0;
        lemma_closing_written_back(s.skip((a + b + c + d) as int), len);
        let (_, e) = parse_closing(s.skip((a + b + c + d) as int), len)->Ok_0;
        assert(n == a + b + c + d + e);
        assert(s.subrange(0, n as int) =~= s.subrange(0, a as int) + s.skip(a as int).subrange(
            0,
            b as int,
        ) + s.skip((a + b) as int).subrange(0, c as int) + s.skip((a + b + c) as int).subrange(
            0,
            d as int,
        ) + s.skip((a + b + c + d) as int).subrange(0, e as int));
    }

    /// Byte preservation: a token that is read is written back as the bytes
    /// it was read from.
    pub proof fn lemma_written_back(s: Seq<u8>)
        requires
            SdCwtView::parse(s) is Ok,
        ensures
            ({
                let (v, n) = SdCwtView::parse(s)->Ok_0;
                &&& 1 <= n <= s.len()
                &&& v.well_formed()
                &&& v.encodable()
                &&& v.reads_back()
                &&& v.wire() == s.subrange(0, n as int)
            }),
    {
        let (v, n) = SdCwtView::parse(s)->Ok_0;
        lemma_head_written_back(MAJOR_TAG, s);
        let (tag, tag_enc) = parse_arg(MAJOR_TAG, s)->0;
        let t = 1 + width(tag_enc);
        let after_tag = s.skip(t as int);
        lemma_head_written_back(MAJOR_ARRAY, after_tag);
        let len = parse_len(MAJOR_ARRAY, after_tag)->0;
        let h = 1 + len_width(len);
        let body = after_tag.skip(h as int);
        Self::lemma_body_written_back(body, tag_enc, len);
        let (_, m) = SdCwtView::parse_body(body, tag_enc, len)->Ok_0;
        lemma_len_descriptor(v.form().len_encoding, len, 4);
        v.lemma_wire_parts();
        assert(n == t + h + m);
        assert(s.subrange(0, n as int) =~= s.subrange(0, t as int) + after_tag.subrange(
            0,
            h as int,
        ) + body.subrange(0, m as int));
        assert(v.well_formed() && v.encodable()) by {
            reveal(SdCwtView::writable);
        }
    }
}

/// A protected header that is written into a byte string reads back from it.
pub proof fn lemma_wrapped_protected_reads_back(
    v: SdProtectedView,
    enc: StringEncodingView,
    rest: Seq<u8>,
)
    requires
        v.reads_back(),
        len_writable(v.wire().len(), enc),
        bytes_encodable(v.wire(), enc),
    ensures
        parse_wrapped_protected(bytes_wire(v.wire(), enc) + rest) == Ok::<
            ((SdProtectedView, StringEncodingView), nat),
            ErrorView,
        >(((v.settled(), enc.settled(v.wire().len() as u64)), bytes_wire(v.wire(), enc).len())),
        (bytes_wire(v.wire(), enc) + rest).skip(bytes_wire(v.wire(), enc).len() as int) == rest,
{
    reveal(parse_wrapped_protected);
    lemma_bytes_read_back(v.wire(), enc, rest);
    v.lemma_reads_back(Seq::empty());
    assert(v.wire() + Seq::<u8>::empty() =~= v.wire());
}

/// Claims that are written into a byte string read back from it.
pub proof fn lemma_wrapped_payload_reads_back(
    v: SdPayloadView,
    enc: StringEncodingView,
    rest: Seq<u8>,
)
    requires
        v.reads_back(),
        len_writable(v.wire().len(), enc),
        bytes_encodable(v.wire(), enc),
    ensures
        parse_wrapped_payload(bytes_wire(v.wire(), enc) + rest) == Ok::<
            ((SdPayloadView, StringEncodingView), nat),
            ErrorView,
        >(((v.settled(), enc.settled(v.wire().len() as u64)), bytes_wire(v.wire(), enc).len())),
        (bytes_wire(v.wire(), enc) + rest).skip(bytes_wire(v.wire(), enc).len() as int) == rest,
{
    reveal(parse_wrapped_payload);
    lemma_bytes_read_back(v.wire(), enc, rest);
    v.lemma_reads_back(Seq::empty());
    assert(v.wire() + Seq::<u8>::empty() =~= v.wire());
}

/// A signature that is written reads back.
pub proof fn lemma_signature_reads_back(data: Seq<u8>, enc: StringEncodingView, rest: Seq<u8>)
    requires
        len_writable(data.len(), enc),
        bytes_encodable(data, enc),
    ensures
        parse_signature(bytes_wire(data, enc) + rest) == Ok::<
            ((Seq<u8>, StringEncodingView), nat),
            ErrorView,
        >(((data, enc.settled(data.len() as u64)), bytes_wire(data, enc).len())),
        (bytes_wire(data, enc) + rest).skip(bytes_wire(data, enc).len() as int) == rest,
{
    reveal(parse_signature);
    lemma_bytes_read_back(data, enc, rest);
}

impl SdCwtView {
    /// Whether the token is one that reads back after it was written: its
    /// headers and its claims read back, and the byte strings that hold them
    /// and the signature can be written.
    #[verifier::opaque]
    pub open spec fn reads_back(self) -> bool {
        &&& self.protected.reads_back()
        &&& len_writable(self.protected.wire().len(), self.form().protected_bytes_encoding)
        &&& bytes_encodable(self.protected.wire(), self.form().protected_bytes_encoding)
        &&& self.unprotected.reads_back()
        &&& self.payload.reads_back()
        &&& len_writable(self.payload.wire().len(), self.form().payload_bytes_encoding)
        &&& bytes_encodable(self.payload.wire(), self.form().payload_bytes_encoding)
        &&& len_writable(self.signature.len(), self.form().signature_encoding)
        &&& bytes_encodable(self.signature, self.form().signature_encoding)
    }

    /// The token as it is read after it was written.
    #[verifier::opaque]
    pub open spec fn settled(self) -> SdCwtView {
        SdCwtView {
            protected: self.protected.settled(),
            unprotected: self.unprotected.settled(),
            payload: self.payload.settled(),
            signature: self.signature,
            encodings: Some(
                SdCwtEncodingView {
                    len_encoding: self.form().len_encoding.settled(4),
                    tag_encoding: Some(fitting(18, self.form().tag_encoding)),
                    protected_bytes_encoding: self.form().protected_bytes_encoding.settled(
                        self.protected.wire().len() as u64,
                    ),
                    payload_bytes_encoding: self.form().payload_bytes_encoding.settled(
                        self.payload.wire().len() as u64,
                    ),
                    signature_encoding: self.form().signature_encoding.settled(
                        self.signature.len() as u64,
                    ),
                },
            ),
        }
    }

    /// Whether two tokens hold the same, whatever the way they are written.
    pub open spec fn same_content(self, other: SdCwtView) -> bool {
        &&& self.protected.same_content(other.protected)
        &&& self.unprotected.same_content(other.unprotected)
        &&& self.payload.same_content(other.payload)
        &&& self.signature == other.signature
    }

    /// The elements of a token that are written read back.
    pub proof fn lemma_body_reads_back(self, rest: Seq<u8>)
        requires
            self.reads_back(),
        ensures
            SdCwtView::parse_body(
                self.body_wire() + rest,
                fitting(18, self.form().tag_encoding),
                self.form().len_encoding.head_for(4),
            ) == Ok::<(SdCwtView, nat), ErrorView>((self.settled(), self.body_wire().len())),
            self.settled().same_content(self),
    {
        reveal(SdCwtView::parse_body);
        reveal(SdCwtView::reads_back);
        reveal(SdCwtView::settled);
        reveal(SdCwtView::body_wire);
        let form = self.form();
        let p = bytes_wire(self.protected.wire(), form.protected_bytes_encoding);
        let u = self.unprotected.wire();
        let q = bytes_wire(self.payload.wire(), form.payload_bytes_encoding);
        let g = bytes_wire(self.signature, form.signature_encoding);
        let e = form.len_encoding.ending();
        let s = self.body_wire() + rest;
        let after_p = u + (q + (g + (e + rest)));
        let after_u = q + (g + (e + rest));
        let after_q = g + (e + rest);
        assert(s =~= p + after_p);
        lemma_wrapped_protected_reads_back(self.protected, form.protected_bytes_encoding, after_p);
        self.unprotected.lemma_reads_back(after_u);
        assert(s.skip((p.len() + u.len()) as int) == after_u);
        lemma_wrapped_payload_reads_back(self.payload, form.payload_bytes_encoding, after_q);
        assert(s.skip((p.len() + u.len() + q.len()) as int) == after_q);
        lemma_signature_reads_back(self.signature, form.signature_encoding, e + rest);
        assert(s.skip((p.len() + u.len() + q.len() + g.len()) as int) == e + rest);
        lemma_closing_reads_back(form.len_encoding, 4, rest);
        self.protected.lemma_reads_back(Seq::empty());
        self.payload.lemma_reads_back(Seq::empty());
        assert(self.body_wire().len() == p.len() + u.len() + q.len() + g.len() + e.len());
        lemma_bytes_read_back(self.protected.wire(), form.protected_bytes_encoding, after_p);
        lemma_bytes_read_back(self.payload.wire(), form.payload_bytes_encoding, after_q);
        lemma_bytes_read_back(self.signature, form.signature_encoding, e + rest);
        assert(s.len() > 0 && after_p.len() > 0 && after_u.len() > 0 && after_q.len() > 0);
        assert(s.skip(p.len() as int) == after_p);
    }

    /// Round trip: a token that is written reads back as a token that holds
    /// the same, whatever follows it.
    pub proof fn lemma_reads_back(self, rest: Seq<u8>)
        requires
            self.reads_back(),
        ensures
            SdCwtView::parse(self.wire() + rest) == Ok::<(SdCwtView, nat), ErrorView>(
                (self.settled(), self.wire().len()),
            ),
            self.settled().same_content(self),
    {
        let tag_enc = fitting(18, self.form().tag_encoding);
        let len = self.form().len_encoding.head_for(4);
        let t = head(MAJOR_TAG, 18, tag_enc);
        let h = len_head(MAJOR_ARRAY, len);
        let s = self.wire() + rest;
        self.lemma_wire_parts();
        lemma_fitting(18, self.form().tag_encoding);
        assert(s =~= t + (h + (self.body_wire() + rest)));
        lemma_head_parses(MAJOR_TAG, 18, tag_enc, h + (self.body_wire() + rest));
        lemma_len_descriptor(self.form().len_encoding, len, 4);
        lemma_len_head_parses(MAJOR_ARRAY, len, self.body_wire() + rest);
        self.lemma_body_reads_back(rest);
        assert(self.wire().len() == t.len() + h.len() + self.body_wire().len());
    }
}

impl SdCwtView {
    /// Whether nothing in the token keeps a record of how it was written.
    pub open spec fn fresh(self) -> bool {
        &&& self.encodings is None
        &&& self.protected.fresh()
        &&& self.unprotected.fresh()
        &&& self.payload.fresh()
    }

    /// Whether the tag, the head of the array, the byte strings and what
    /// they hold are written in the shortest form.
    pub open spec fn shortest_form(self) -> bool {
        &&& fitting(18, self.form().tag_encoding) == shortest(18)
        &&& self.form().len_encoding.shortest_form(4)
        &&& self.protected.shortest_form()
        &&& self.form().protected_bytes_encoding.shortest_form(
            self.protected.wire().len() as u64,
        )
        &&& self.unprotected.shortest_form()
        &&& self.payload.shortest_form()
        &&& self.form().payload_bytes_encoding.shortest_form(self.payload.wire().len() as u64)
        &&& self.form().signature_encoding.shortest_form(self.signature.len() as u64)
    }

    /// Canonical form: a token in which nothing keeps a record of how it was
    /// written is written in the shortest form.
    pub proof fn lemma_fresh_is_shortest(self)
        requires
            self.fresh(),
        ensures
            self.shortest_form(),
    {
        self.protected.lemma_fresh_is_shortest();
        self.unprotected.lemma_fresh_is_shortest();
        self.payload.lemma_fresh_is_shortest();
    }
}

impl SdCwtView {
    /// Writing is settled after one round: a token that was written and read
    /// back is written again as the same bytes.
    pub proof fn lemma_written_again(self)
        requires
            self.reads_back(),
        ensures
            self.settled().well_formed(),
            self.settled().encodable(),
            self.settled().wire() == self.wire(),
    {
        let none = Seq::<u8>::empty();
        let s = self.wire() + none;
        self.lemma_reads_back(none);
        SdCwtView::lemma_written_back(s);
        assert(s.subrange(0, self.wire().len() as int) =~= self.wire());
    }
}

impl SdCwtView {
    /// Round trip of what was read: a token that was read from `s` is one
    /// that reads back, so that what it is written as reads as a token that
    /// holds the same, whatever follows it.
    pub proof fn lemma_read_again(s: Seq<u8>, rest: Seq<u8>)
        requires
            SdCwtView::parse(s) is Ok,
        ensures
            ({
                let (v, n) = SdCwtView::parse(s)->Ok_0;
                &&& v.reads_back()
                &&& SdCwtView::parse(v.wire() + rest) == Ok::<(SdCwtView, nat), ErrorView>(
                    (v.settled(), v.wire().len()),
                )
                &&& v.settled().same_content(v)
            }),
    {
        let (v, n) = SdCwtView::parse(s)->Ok_0;
        SdCwtView::lemma_written_back(s);
        v.lemma_reads_back(rest);
    }

    /// Round trip of what was built: a token without a record of how it was
    /// written reads back where its headers and its claims do and its byte
    /// strings are not longer than a length can say.
    pub proof fn lemma_fresh_reads_back(self)
        requires
            self.encodings is None,
            self.protected.reads_back(),
            self.unprotected.reads_back(),
            self.payload.reads_back(),
            self.protected.wire().len() <= u64::MAX,
            self.payload.wire().len() <= u64::MAX,
            self.signature.len() <= u64::MAX,
        ensures
            self.reads_back(),
    {
        reveal(SdCwtView::reads_back);
        reveal(bytes_encodable);
        lemma_shortest_is_least(self.protected.wire().len() as u64, Sz::Eight);
        lemma_shortest_is_least(self.payload.wire().len() as u64, Sz::Eight);
        lemma_shortest_is_least(self.signature.len() as u64, Sz::Eight);
    }
}

} // verus!
