//! The map of extension entries: from keys to values, in the order in which
//! the keys were first inserted. No key stands in it twice, whatever the
//! width it was written with.

use crate::anyy::Anyy;
use crate::error::{
    bare, cbor_error, DeserializeError, DeserializeFailure, ErrorView, FailureView, Key, KeyView,
};
use crate::int_or_text::{IntOrTextView, KeyIdentity, Keyy};
use crate::raw::write_map;
use crate::reader::Reader;
use crate::serialization::{more_items, next_item, parse_items, shifted, LenEncoding, Next};
use crate::wire::{len_head, len_width, parse_len, MAJOR_MAP};
use vstd::prelude::*;
use vstd::string::StringExecFns;

verus! {

broadcast use {vstd::seq_lib::lemma_seq_skip_of_skip, vstd::seq_lib::lemma_seq_skip_nothing};

/// An entry as a mathematical value.
pub type EntryView = (IntOrTextView, Anyy);

/// Whether a key stands among the entries.
pub open spec fn has_key(entries: Seq<EntryView>, key: KeyIdentity) -> bool {
    exists|i: int| 0 <= i < entries.len() && (#[trigger] entries[i]).0.identity() == key
}

/// Whether no key stands twice among the entries.
pub open spec fn distinct_keys(entries: Seq<EntryView>) -> bool {
    forall|i: int, j: int|
        0 <= i < j < entries.len() ==> (#[trigger] entries[i]).0.identity() != (
        #[trigger] entries[j]).0.identity()
}

/// A map from keys to values that keeps the order of insertion.
#[derive(Debug)]
pub struct OrderedHashMap {
    entries: Vec<(Keyy, Anyy)>,
}

impl View for OrderedHashMap {
    type V = Seq<EntryView>;

    closed spec fn view(&self) -> Seq<EntryView> {
        Seq::new(self.entries@.len(), |i: int| (self.entries@[i].0@, self.entries@[i].1))
    }
}

impl OrderedHashMap {
    #[verifier::type_invariant]
    spec fn no_key_twice(self) -> bool {
        distinct_keys(self@)
    }

    /// The empty map.
    pub fn new() -> (r: Self)
        ensures
            r@ == Seq::<EntryView>::empty(),
    {
        let r = OrderedHashMap { entries: Vec::new() };
        assert(r@ =~= Seq::<EntryView>::empty());
        r
    }

    /// The number of entries, none of which has the key of another.
    pub fn len(&self) -> (r: usize)
        ensures
            r == self@.len(),
            distinct_keys(self@),
    {
        proof {
            use_type_invariant(self);
        }
        self.entries.len()
    }

    /// Whether the map holds no entry.
    pub fn is_empty(&self) -> (r: bool)
        ensures
            r == (self@.len() == 0),
    {
        self.entries.len() == 0
    }

    /// The key of the entry at a position.
    pub fn key_at(&self, i: usize) -> (r: &Keyy)
        requires
            i < self@.len(),
        ensures
            r@ == self@[i as int].0,
    {
        &self.entries[i].0
    }

    /// The value of the entry at a position.
    pub fn value_at(&self, i: usize) -> (r: Anyy)
        requires
            i < self@.len(),
        ensures
            r == self@[i as int].1,
    {
        self.entries[i].1
    }

    /// Where the key stands, if it stands in the map.
    pub fn position(&self, key: &Keyy) -> (r: Option<usize>)
        ensures
            match r {
                Some(i) => i < self@.len() && self@[i as int].0.identity() == key@.identity(),
                None => !has_key(self@, key@.identity()),
            },
    {
        let mut i: usize = 0;
        while i < self.entries.len()
            invariant
                i <= self.entries@.len(),
                forall|j: int| 0 <= j < i ==> (#[trigger] self@[j]).0.identity() != key@.identity(),
            decreases self.entries@.len() - i,
        {
            if self.entries[i].0.same_key(key) {
                return Some(i);
            }
            i = i + 1;
        }
        None
    }

    /// The value that stands under the key.
    pub fn get(&self, key: &Keyy) -> (r: Option<Anyy>)
        ensures
            match r {
                Some(v) => exists|i: int|
                    0 <= i < self@.len() && (#[trigger] self@[i]).0.identity() == key@.identity()
                        && self@[i].1 == v,
                None => !has_key(self@, key@.identity()),
            },
    {
        match self.position(key) {
            Some(i) => Some(self.entries[i].1),
            None => None,
        }
    }

    /// Puts a value under a key. A new key goes to the end, and `None` comes
    /// back. Under a key that stands in the map already the value is
    /// replaced where it stands, and the value that stood there comes back.
    pub fn insert(&mut self, key: Keyy, value: Anyy) -> (r: Option<Anyy>)
        ensures
            !has_key(old(self)@, key@.identity()) ==> r is None && final(self)@ == old(self)@.push(
                (key@, value),
            ),
            forall|i: int|
                0 <= i < old(self)@.len() && (#[trigger] old(self)@[i]).0.identity()
                    == key@.identity() ==> r == Some(old(self)@[i].1) && final(self)@ == old(
                    self,
                )@.update(i, (old(self)@[i].0, value)),
    {
        proof {
            use_type_invariant(&*self);
        }
        let found = self.position(&key);
        let mut taken = OrderedHashMap { entries: Vec::new() };
        assert(taken@ =~= Seq::<EntryView>::empty());
        core::mem::swap(self, &mut taken);
        let mut entries = taken.entries;
        assert(taken@ == old(self)@);
        assert(distinct_keys(old(self)@));
        match found {
            Some(i) => {
                let before = entries[i].1;
                let kept = entries[i].0.clone();
                entries.set(i, (kept, value));
                proof {
                    let next = Seq::new(entries@.len(), |j: int| (entries@[j].0@, entries@[j].1));
                    assert forall|a: int, b: int| 0 <= a < b < next.len() implies (
                    #[trigger] next[a]).0.identity() != (#[trigger] next[b]).0.identity() by {
                        assert(old(self)@[a].0.identity() != old(self)@[b].0.identity());
                    }
                }
                *self = OrderedHashMap { entries };
                assert(self@ =~= old(self)@.update(i as int, (old(self)@[i as int].0, value)));
                Some(before)
            },
            None => {
                entries.push((key, value));
                proof {
                    let next = Seq::new(entries@.len(), |j: int| (entries@[j].0@, entries@[j].1));
                    assert forall|a: int, b: int| 0 <= a < b < next.len() implies (
                    #[trigger] next[a]).0.identity() != (#[trigger] next[b]).0.identity() by {
                        assert(next[a] == old(self)@[a]);
                        if b < old(self)@.len() {
                            assert(next[b] == old(self)@[b]);
                        }
                    }
                }
                *self = OrderedHashMap { entries };
                assert(self@ =~= old(self)@.push((key@, value)));
                None
            },
        }
    }
}

/// The error for a key that stands twice among extension entries.
pub open spec fn duplicate_entry() -> ErrorView {
    bare(FailureView::DuplicateKey(KeyView::Str("some complicated/unsupported type"@)))
}

/// The entry at the start of `s`, after the entries `acc`: a key and a
/// value, where the key does not stand among `acc`.
#[verifier::opaque]
pub open spec fn parse_entry(acc: Seq<EntryView>, s: Seq<u8>) -> Result<(EntryView, nat), ErrorView> {
    match IntOrTextView::parse(Keyy::name(), s) {
        Ok((key, n)) => match Anyy::parse(s.skip(n as int)) {
            Ok((value, m)) => if has_key(acc, key.identity()) {
                Err(duplicate_entry())
            } else {
                Ok(((key, value), n + m))
            },
            Err(e) => Err(e),
        },
        Err(e) => Err(e),
    }
}

/// How one entry is read.
pub open spec fn entry_reader() -> spec_fn(Seq<EntryView>, Seq<u8>) -> Result<
    (EntryView, nat),
    ErrorView,
> {
    |acc: Seq<EntryView>, s: Seq<u8>| parse_entry(acc, s)
}

/// The map of extension entries at the start of `s`: the entries, how the
/// length was written, and the bytes that the map takes.
#[verifier::opaque]
pub open spec fn parse_table(s: Seq<u8>) -> Result<((Seq<EntryView>, LenEncoding), nat), ErrorView> {
    match parse_len(MAJOR_MAP, s) {
        Some(len) => {
            let start = 1 + len_width(len);
            match parse_items(entry_reader(), len, Seq::empty(), s.skip(start as int)) {
                Ok((entries, n)) => Ok(((entries, LenEncoding::of(len)), start + n)),
                Err(e) => Err(e),
            }
        },
        None => Err(cbor_error()),
    }
}

/// Whether every key among the entries can be written as it stands.
pub open spec fn entries_encodable(entries: Seq<EntryView>) -> bool {
    forall|i: int| 0 <= i < entries.len() ==> (#[trigger] entries[i]).0.encodable()
}

/// The entries one after the other, each a key and a value.
pub open spec fn entries_wire(entries: Seq<EntryView>) -> Seq<u8>
    decreases entries.len(),
{
    if entries.len() == 0 {
        Seq::empty()
    } else {
        entries_wire(entries.drop_last()) + entries.last().0.wire() + entries.last().1.wire()
    }
}

/// The bytes that a map of extension entries is written as.
#[verifier::opaque]
pub open spec fn table_wire(entries: Seq<EntryView>, enc: LenEncoding) -> Seq<u8> {
    len_head(MAJOR_MAP, enc.head_for(entries.len() as u64)) + entries_wire(entries) + enc.ending()
}

/// Writes a map of extension entries. Fails where a key cannot be written
/// the way its descriptor says.
pub fn serialize_table(table: &OrderedHashMap, enc: LenEncoding, out: &mut Vec<u8>) -> (r: Result<
    (),
    cbor_event::Error,
>)
    ensures
        r is Ok <==> entries_encodable(table@),
        r is Ok ==> final(out)@ == old(out)@ + table_wire(table@, enc),
{
    reveal(table_wire);
    let _ = write_map(out, enc.to_len_sz(table.len() as u64));
    let ghost head = len_head(MAJOR_MAP, enc.head_for(table@.len() as u64));
    let mut i: usize = 0;
    while i < table.len()
        invariant
            i <= table@.len(),
            out@ == old(out)@ + head + entries_wire(table@.take(i as int)),
            forall|j: int| 0 <= j < i ==> (#[trigger] table@[j]).0.encodable(),
        decreases table@.len() - i,
    {
        match table.key_at(i).serialize(out) {
            Ok(_) => {},
            Err(e) => {
                return Err(e);
            },
        }
        let _ = table.value_at(i).serialize(out);
        proof {
            let next = table@.take(i + 1);
            assert(next.drop_last() =~= table@.take(i as int));
            assert(out@ =~= old(out)@ + head + entries_wire(next));
        }
        i = i + 1;
    }
    assert(table@.take(i as int) =~= table@);
    let r = enc.end(out);
    assert(final(out)@ =~= old(out)@ + table_wire(table@, enc));
    r
}

/// Reads a map of extension entries.
pub fn deserialize_table(raw: &mut Reader) -> (r: Result<
    (OrderedHashMap, LenEncoding),
    DeserializeError,
>)
    ensures
        final(raw).bytes() == old(raw).bytes(),
        match parse_table(old(raw).rest()) {
            Ok(((entries, enc), n)) => r matches Ok(x) && x.0@ == entries && x.1 == enc && old(
                raw,
            ).advanced(final(raw), n),
            Err(e) => r matches Err(x) && x@ == e,
        },
{
    reveal(parse_table);
    let len = match raw.map_sz() {
        Ok(len) => len,
        Err(e) => {
            return Err(DeserializeError::from_cbor(e));
        },
    };
    let ghost start = 1 + len_width(len);
    let ghost body = raw.rest();
    let ghost whole = parse_items(entry_reader(), len, Seq::empty(), body);
    let mut table = OrderedHashMap::new();
    let ghost mut used: nat = 0;
    loop
        invariant
            raw.bytes() == old(raw).bytes(),
            old(raw).advanced(raw, start + used),
            parse_len(MAJOR_MAP, old(raw).rest()) == Some(len),
            start == 1 + len_width(len),
            body == old(raw).rest().skip(start as int),
            whole == parse_items(entry_reader(), len, Seq::empty(), body),
            whole == shifted(parse_items(entry_reader(), len, table@, raw.rest()), used),
        decreases raw.bytes().len() - raw.offset(),
    {
        reveal(parse_table);
        let at = raw.position();
        if !more_items(len, table.len()) {
            return Ok((table, LenEncoding::from_len_sz(len)));
        }
        match next_item(raw, len, table.len()) {
            Ok(Next::Item) => {},
            Ok(Next::End) => {
                return Ok((table, LenEncoding::from_len_sz(len)));
            },
            Err(e) => {
                return Err(e);
            },
        }
        let (key, value) = match read_entry(raw, &table) {
            Ok(entry) => entry,
            Err(e) => {
                return Err(e);
            },
        };
        let after = raw.position();
        let _ = table.insert(key, value);
        proof {
            used = used + (after - at) as nat;
        }
    }
}

/// Reads one entry whose key may not stand in `table`.
fn read_entry(raw: &mut Reader, table: &OrderedHashMap) -> (r: Result<
    (Keyy, Anyy),
    DeserializeError,
>)
    ensures
        final(raw).bytes() == old(raw).bytes(),
        match parse_entry(table@, old(raw).rest()) {
            Ok(((key, value), n)) => {
                &&& r matches Ok(x)
                &&& x.0@ == key
                &&& x.1 == value
                &&& old(raw).advanced(final(raw), n)
                &&& 0 < n <= old(raw).rest().len()
                &&& !has_key(table@, key.identity())
            },
            Err(e) => r matches Err(x) && x@ == e,
        },
{
    reveal(parse_entry);
    reveal(IntOrTextView::parse);
    reveal(crate::serialization::parse_text);
    reveal(crate::integer::Int::parse);
    let at = raw.position();
    let key = match Keyy::deserialize(raw) {
        Ok(key) => key,
        Err(e) => {
            return Err(e);
        },
    };
    let value = match Anyy::deserialize(raw) {
        Ok(value) => value,
        Err(e) => {
            return Err(e);
        },
    };
    let after = raw.position();
    if table.position(&key).is_some() {
        return Err(
            DeserializeError::from_failure(
                DeserializeFailure::DuplicateKey(
                    Key::Str(String::from_str("some complicated/unsupported type")),
                ),
            ),
        );
    }
    Ok((key, value))
}

} // verus!
