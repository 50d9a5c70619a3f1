//! Equality and order of integers and of keys. Both go by what a value is:
//! the width that a number was written with and the layout that a text was
//! written in play no part. Integers are ordered as numbers; among keys the
//! numbers come first, and texts are ordered by their UTF-8 bytes.

use crate::int_or_text::{IntOrTextView, Keyy};
use crate::integer::Int;
use crate::prefix::{
    common_prefix, first_difference, lemma_common_prefix, lemma_common_prefix_at, wide,
};
use core::cmp::Ordering;
use vstd::prelude::*;
use vstd::std_specs::cmp::{PartialEqSpecImpl, PartialOrdSpecImpl};
use vstd::utf8::encode_utf8;

verus! {

/// How two numbers stand to each other.
pub open spec fn number_order(a: int, b: int) -> Ordering {
    if a < b {
        Ordering::Less
    } else if a == b {
        Ordering::Equal
    } else {
        Ordering::Greater
    }
}

/// How two byte strings stand to each other: by the first byte in which they
/// differ, and a string before every string that it starts.
pub open spec fn bytes_order(a: Seq<u8>, b: Seq<u8>) -> Ordering {
    let k = common_prefix(a, b);
    if k < a.len() && k < b.len() {
        if a[k] < b[k] {
            Ordering::Less
        } else {
            Ordering::Greater
        }
    } else if k < b.len() {
        Ordering::Less
    } else if k < a.len() {
        Ordering::Greater
    } else {
        Ordering::Equal
    }
}

/// How two keys stand to each other.
pub open spec fn key_order(a: IntOrTextView, b: IntOrTextView) -> Ordering {
    match (a, b) {
        (IntOrTextView::Int(x), IntOrTextView::Int(y)) => number_order(x.number(), y.number()),
        (IntOrTextView::Int(_), IntOrTextView::Text { .. }) => Ordering::Less,
        (IntOrTextView::Text { .. }, IntOrTextView::Int(_)) => Ordering::Greater,
        (IntOrTextView::Text { text: x, .. }, IntOrTextView::Text { text: y, .. }) => bytes_order(
            encode_utf8(x),
            encode_utf8(y),
        ),
    }
}

/// How two numbers of 64 bits stand to each other.
fn order_of(a: u64, b: u64) -> (r: Ordering)
    ensures
        r == number_order(wide(a), wide(b)),
{
    if a < b {
        Ordering::Less
    } else if a == b {
        Ordering::Equal
    } else {
        Ordering::Greater
    }
}

/// How two byte strings stand to each other.
fn order_of_bytes(a: &[u8], b: &[u8]) -> (r: Ordering)
    ensures
        r == bytes_order(a@, b@),
{
    let i = first_difference(a, b);
    if i < a.len() && i < b.len() {
        if a[i] < b[i] {
            Ordering::Less
        } else {
            Ordering::Greater
        }
    } else if i < b.len() {
        Ordering::Less
    } else if i < a.len() {
        Ordering::Greater
    } else {
        Ordering::Equal
    }
}

impl PartialEq for Int {
    fn eq(&self, other: &Int) -> (r: bool) {
        match (self, other) {
            (Int::Uint { value: x, .. }, Int::Uint { value: y, .. }) => *x == *y,
            (Int::Nint { value: x, .. }, Int::Nint { value: y, .. }) => *x == *y,
            _ => false,
        }
    }
}

impl PartialEqSpecImpl for Int {
    open spec fn obeys_eq_spec() -> bool {
        true
    }

    open spec fn eq_spec(&self, other: &Int) -> bool {
        self.number() == other.number()
    }
}

impl Eq for Int {

}

impl PartialOrd for Int {
    fn partial_cmp(&self, other: &Int) -> (r: Option<Ordering>) {
        match (self, other) {
            (Int::Uint { value: x, .. }, Int::Uint { value: y, .. }) => Some(order_of(*x, *y)),
            (Int::Uint { .. }, Int::Nint { .. }) => Some(Ordering::Greater),
            (Int::Nint { .. }, Int::Uint { .. }) => Some(Ordering::Less),
            (Int::Nint { value: x, .. }, Int::Nint { value: y, .. }) => Some(order_of(*y, *x)),
        }
    }
}

impl PartialOrdSpecImpl for Int {
    open spec fn obeys_partial_cmp_spec() -> bool {
        true
    }

    open spec fn partial_cmp_spec(&self, other: &Int) -> Option<Ordering> {
        Some(number_order(self.number(), other.number()))
    }
}

impl PartialEq for Keyy {
    fn eq(&self, other: &Keyy) -> (r: bool) {
        self.same_key(other)
    }
}

impl PartialEqSpecImpl for Keyy {
    open spec fn obeys_eq_spec() -> bool {
        true
    }

    open spec fn eq_spec(&self, other: &Keyy) -> bool {
        self@.identity() == other@.identity()
    }
}

impl Eq for Keyy {

}

impl PartialOrd for Keyy {
    fn partial_cmp(&self, other: &Keyy) -> (r: Option<Ordering>) {
        match (self, other) {
            (Keyy::Int(x), Keyy::Int(y)) => x.partial_cmp(y),
            (Keyy::Int(_), Keyy::Text { .. }) => Some(Ordering::Less),
            (Keyy::Text { .. }, Keyy::Int(_)) => Some(Ordering::Greater),
            (Keyy::Text { text: x, .. }, Keyy::Text { text: y, .. }) => Some(
                order_of_bytes(x.as_str().as_bytes(), y.as_str().as_bytes()),
            ),
        }
    }
}

impl PartialOrdSpecImpl for Keyy {
    open spec fn obeys_partial_cmp_spec() -> bool {
        true
    }

    open spec fn partial_cmp_spec(&self, other: &Keyy) -> Option<Ordering> {
        Some(key_order(self@, other@))
    }
}

/// Two byte strings stand equal to each other where they are the same, and
/// nowhere else; and as one stands to the other, the other stands to it the
/// other way round.
pub proof fn lemma_bytes_order(a: Seq<u8>, b: Seq<u8>)
    ensures
        bytes_order(a, b) == Ordering::Equal <==> a == b,
        bytes_order(a, b) == Ordering::Less <==> bytes_order(b, a) == Ordering::Greater,
{
    lemma_common_prefix(a, b);
    lemma_common_prefix(b, a);
    let k = common_prefix(a, b);
    let m = common_prefix(b, a);
    if k < m {
        assert(b[k] == a[k]);
    }
    if m < k {
        assert(a[m] == b[m]);
    }
    if bytes_order(a, b) == Ordering::Equal {
        assert(a =~= b);
    }
}

/// The order of keys agrees with their equality, and turns round with the
/// keys: two keys stand equal to each other where they are the same key,
/// whatever the way they are written, and nowhere else.
pub proof fn lemma_key_order(a: IntOrTextView, b: IntOrTextView)
    ensures
        key_order(a, b) == Ordering::Equal <==> a.identity() == b.identity(),
        key_order(a, b) == Ordering::Less <==> key_order(b, a) == Ordering::Greater,
{
    match (a, b) {
        (IntOrTextView::Text { text: x, .. }, IntOrTextView::Text { text: y, .. }) => {
            lemma_bytes_order(encode_utf8(x), encode_utf8(y));
            vstd::utf8::encode_utf8_decode_utf8(x);
            vstd::utf8::encode_utf8_decode_utf8(y);
        },
        _ => {},
    }
}

/// Two integers stand for the same number where they are the same but for
/// the widths they are written with, and nowhere else.
pub proof fn lemma_int_identity(a: Int, b: Int)
    ensures
        a.number() == b.number() <==> a.bare() == b.bare(),
{
}

/// The order of byte strings goes on: a byte string that stands before
/// another stands before every byte string that the other stands before.
pub proof fn lemma_bytes_order_goes_on(a: Seq<u8>, b: Seq<u8>, c: Seq<u8>)
    requires
        bytes_order(a, b) == Ordering::Less,
        bytes_order(b, c) == Ordering::Less,
    ensures
        bytes_order(a, c) == Ordering::Less,
{
    lemma_common_prefix(a, b);
    lemma_common_prefix(b, c);
    let k1 = common_prefix(a, b);
    let k2 = common_prefix(b, c);
    let k = if k1 < k2 {
        k1
    } else {
        k2
    };
    assert forall|i: int| 0 <= i < k implies a[i] == c[i] by {
        assert(a[i] == b[i]);
        assert(b[i] == c[i]);
    }
    if k1 < k2 {
        if k1 < a.len() {
            assert(b[k1] == c[k1]);
        }
    } else if k2 < k1 {
        assert(a[k2] == b[k2]);
    }
    lemma_common_prefix_at(a, c, k);
}

/// The order of keys goes on: a key that stands before another stands before
/// every key that the other stands before.
pub proof fn lemma_key_order_goes_on(a: IntOrTextView, b: IntOrTextView, c: IntOrTextView)
    requires
        key_order(a, b) == Ordering::Less,
        key_order(b, c) == Ordering::Less,
    ensures
        key_order(a, c) == Ordering::Less,
{
    match (a, b, c) {
        (
            IntOrTextView::Text { text: x, .. },
            IntOrTextView::Text { text: y, .. },
            IntOrTextView::Text { text: z, .. },
        ) => {
            lemma_bytes_order_goes_on(encode_utf8(x), encode_utf8(y), encode_utf8(z));
        },
        _ => {},
    }
}

} // verus!
