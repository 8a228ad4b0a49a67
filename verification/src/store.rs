//! What the worker asks of the storage engine, and what a storage engine that
//! keeps its word does.
//!
//! The engine itself is outside this library. It is asked to write a value
//! under a key or to read the value under a key, and answers with the outcome.
//! The model here is the one that the laws of the worker are stated over: a
//! map from keys to the values last written under them.

use vstd::prelude::*;
use vstd::utf8::{encode_utf8, encode_utf8_decode_utf8};

verus! {

/// The storage engine failed to complete an operation.
#[derive(Clone, Debug, PartialEq, Eq)]
pub struct StoreError {
    /// What the engine said of the failure.
    pub message: String,
}

/// The order to write `value` under `key`, in place of what was there.
#[derive(Clone, Debug, PartialEq, Eq)]
pub struct Put {
    pub key: Vec<u8>,
    pub value: Vec<u8>,
}

/// The order to read the value under `key`.
#[derive(Clone, Debug, PartialEq, Eq)]
pub struct Get {
    pub key: Vec<u8>,
}

/// The key under which the record of a phone number is kept: the bytes of the
/// number in UTF-8.
pub open spec fn key_of(phone_number: Seq<char>) -> Seq<u8> {
    encode_utf8(phone_number)
}

/// What the store holds once `value` is written under `key`.
pub open spec fn written(
    contents: Map<Seq<u8>, Seq<u8>>,
    key: Seq<u8>,
    value: Seq<u8>,
) -> Map<Seq<u8>, Seq<u8>> {
    contents.insert(key, value)
}

/// What the store answers when the value under `key` is read.
pub open spec fn read(contents: Map<Seq<u8>, Seq<u8>>, key: Seq<u8>) -> Option<Seq<u8>> {
    if contents.contains_key(key) {
        Some(contents[key])
    } else {
        None
    }
}

/// What the store holds once the pairs of key and value in `puts` are written
/// one after the other, the first of them first.
pub open spec fn written_all(
    contents: Map<Seq<u8>, Seq<u8>>,
    puts: Seq<(Seq<u8>, Seq<u8>)>,
) -> Map<Seq<u8>, Seq<u8>>
    decreases puts.len(),
{
    if puts.len() == 0 {
        contents
    } else {
        written(written_all(contents, puts.drop_last()), puts.last().0, puts.last().1)
    }
}

/// Two phone numbers with the same key are the same number.
pub proof fn lemma_key_of_injective(a: Seq<char>, b: Seq<char>)
    requires
        key_of(a) == key_of(b),
    ensures
        a == b,
{
    encode_utf8_decode_utf8(a);
    encode_utf8_decode_utf8(b);
}

/// A write changes what is read under its own key and under no other.
pub proof fn lemma_read_after_write(
    contents: Map<Seq<u8>, Seq<u8>>,
    key: Seq<u8>,
    value: Seq<u8>,
    other: Seq<u8>,
)
    ensures
        read(written(contents, key, value), key) == Some(value),
        other != key ==> read(written(contents, key, value), other) == read(contents, other),
{
}

/// After a run of writes, what is read under a key is the value of the last
/// write under it, wherever in the run that write stands.
pub proof fn lemma_last_write_wins(
    contents: Map<Seq<u8>, Seq<u8>>,
    puts: Seq<(Seq<u8>, Seq<u8>)>,
    i: int,
)
    requires
        0 <= i < puts.len(),
        forall|j: int| i < j < puts.len() ==> puts[j].0 != puts[i].0,
    ensures
        read(written_all(contents, puts), puts[i].0) == Some(puts[i].1),
    decreases puts.len(),
{
    if i < puts.len() - 1 {
        let earlier = puts.drop_last();
        assert(earlier[i] == puts[i]);
        assert forall|j: int| i < j < earlier.len() implies earlier[j].0 != earlier[i].0 by {
            assert(earlier[j] == puts[j]);
        }
        lemma_last_write_wins(contents, earlier, i);
    }
}

/// A run of writes leaves what is read under a key that none of them names as
/// it was.
pub proof fn lemma_unwritten_key_keeps(
    contents: Map<Seq<u8>, Seq<u8>>,
    puts: Seq<(Seq<u8>, Seq<u8>)>,
    key: Seq<u8>,
)
    requires
        forall|j: int| 0 <= j < puts.len() ==> puts[j].0 != key,
    ensures
        read(written_all(contents, puts), key) == read(contents, key),
    decreases puts.len(),
{
    if puts.len() > 0 {
        let earlier = puts.drop_last();
        assert forall|j: int| 0 <= j < earlier.len() implies earlier[j].0 != key by {
            assert(earlier[j] == puts[j]);
        }
        lemma_unwritten_key_keeps(contents, earlier, key);
    }
}

} // verus!
