//! The stored form of a record.
//!
//! A record is kept as one JSON object on one line, with its three members in
//! a fixed order and nothing between the tokens:
//! `{"firstName":"Ada","lastName":"Lovelace","createdAt":"2024-01-05T03:04:05Z"}`.
//! Every record has exactly one such form, and `decode` accepts nothing else.

use crate::json::{
    json_string, lemma_json_string_is_text, lemma_json_string_unique, read_string, write_string,
};
use vstd::prelude::*;
use vstd::utf8::{
    decode_utf8, decode_utf8_encode_utf8, encode_utf8, encode_utf8_decode_utf8,
    encode_utf8_valid_utf8, valid_utf8, valid_utf8_concat,
};

verus! {

/// A contact as it is stored. The phone number is not part of it: it is the
/// key under which the record is kept.
#[derive(Clone, Debug, PartialEq, Eq)]
pub struct Record {
    pub first_name: String,
    pub last_name: String,
    /// The time of creation, as text.
    pub created_at: String,
}

/// What a record holds, as a mathematical value.
pub ghost struct RecordView {
    pub first_name: Seq<char>,
    pub last_name: Seq<char>,
    pub created_at: Seq<char>,
}

impl View for Record {
    type V = RecordView;

    open spec fn view(&self) -> RecordView {
        RecordView {
            first_name: self.first_name@,
            last_name: self.last_name@,
            created_at: self.created_at@,
        }
    }
}

/// The bytes handed to `decode` are the stored form of no record.
#[derive(Clone, Copy, Debug, PartialEq, Eq)]
pub struct CorruptValue;

/// What opens the object and names its first member.
pub open spec fn first_name_label() -> Seq<u8> {
    encode_utf8("{\"firstName\":"@)
}

/// What separates the first member from the second and names the second.
pub open spec fn last_name_label() -> Seq<u8> {
    encode_utf8(",\"lastName\":"@)
}

/// What separates the second member from the third and names the third.
pub open spec fn created_at_label() -> Seq<u8> {
    encode_utf8(",\"createdAt\":"@)
}

/// What closes the object.
pub open spec fn closing() -> Seq<u8> {
    encode_utf8("}"@)
}

/// A label and, behind it, the string literal for the UTF-8 bytes of `value`.
pub open spec fn member(label: Seq<u8>, value: Seq<char>) -> Seq<u8> {
    label + json_string(encode_utf8(value))
}

/// The stored form of a record.
pub open spec fn encode_spec(v: RecordView) -> Seq<u8> {
    member(first_name_label(), v.first_name) + member(last_name_label(), v.last_name) + member(
        created_at_label(),
        v.created_at,
    ) + closing()
}

/// The record that `bytes` are the stored form of, if there is one.
pub open spec fn decode_spec(bytes: Seq<u8>) -> Option<RecordView> {
    if exists|v: RecordView| encode_spec(v) == bytes {
        Some(choose|v: RecordView| encode_spec(v) == bytes)
    } else {
        None
    }
}

/// What follows the first member in the stored form of `v`.
spec fn after_first_name(v: RecordView) -> Seq<u8> {
    member(last_name_label(), v.last_name) + after_last_name(v)
}

/// What follows the second member in the stored form of `v`.
spec fn after_last_name(v: RecordView) -> Seq<u8> {
    member(created_at_label(), v.created_at) + closing()
}

proof fn lemma_encode_parts(v: RecordView)
    ensures
        encode_spec(v) == member(first_name_label(), v.first_name) + after_first_name(v),
{
}

/// Two members under one label, each with something behind it, that make the
/// same bytes hold the same value and have the same bytes behind them.
proof fn lemma_member_unique(label: Seq<u8>, a: Seq<char>, x: Seq<u8>, b: Seq<char>, y: Seq<u8>)
    requires
        member(label, a) + x == member(label, b) + y,
    ensures
        a == b,
        x == y,
{
    let n = label.len() as int;
    let left = json_string(encode_utf8(a)) + x;
    let right = json_string(encode_utf8(b)) + y;
    assert(left =~= (member(label, a) + x).skip(n));
    assert(right =~= (member(label, b) + y).skip(n));
    lemma_json_string_unique(encode_utf8(a), x, encode_utf8(b), y);
    encode_utf8_decode_utf8(a);
    encode_utf8_decode_utf8(b);
}

/// Where a member was read between `pos` and `end`, and the bytes from `pos`
/// on are a member under the same label and `rest`, the value read is that
/// member's, and `rest` starts at `end`.
proof fn lemma_member_read(
    input: Seq<u8>,
    pos: int,
    end: int,
    label: Seq<u8>,
    value: Seq<char>,
    v: Seq<char>,
    rest: Seq<u8>,
)
    requires
        0 <= pos <= end <= input.len(),
        input.subrange(pos, end) == member(label, value),
        input.skip(pos) == member(label, v) + rest,
    ensures
        value == v,
        input.skip(end) == rest,
{
    assert(input.skip(pos) =~= input.subrange(pos, end) + input.skip(end));
    lemma_member_unique(label, value, input.skip(end), v, rest);
}

/// Where `a` and, behind it, `b` start `z`, `a` starts `z`, and `b` starts what
/// follows `a` in `z`.
proof fn lemma_prefix_split(a: Seq<u8>, b: Seq<u8>, z: Seq<u8>)
    requires
        (a + b).is_prefix_of(z),
    ensures
        a.is_prefix_of(z),
        b.is_prefix_of(z.skip(a.len() as int)),
{
    let whole = a + b;
    assert forall|i: int| 0 <= i < a.len() implies a[i] == z[i] by {
        assert(whole[i] == a[i]);
    }
    assert forall|i: int| 0 <= i < b.len() implies b[i] == z.skip(a.len() as int)[i] by {
        assert(whole[a.len() + i] == b[i]);
    }
}

/// Every record has its own stored form.
pub proof fn lemma_encode_injective(a: RecordView, b: RecordView)
    requires
        encode_spec(a) == encode_spec(b),
    ensures
        a == b,
{
    lemma_encode_parts(a);
    lemma_encode_parts(b);
    lemma_member_unique(
        first_name_label(),
        a.first_name,
        after_first_name(a),
        b.first_name,
        after_first_name(b),
    );
    lemma_member_unique(
        last_name_label(),
        a.last_name,
        after_last_name(a),
        b.last_name,
        after_last_name(b),
    );
    lemma_member_unique(created_at_label(), a.created_at, closing(), b.created_at, closing());
}

/// Bytes decode to a record exactly where they are its stored form.
pub proof fn lemma_decode_is_inverse(bytes: Seq<u8>, v: RecordView)
    ensures
        decode_spec(bytes) == Some(v) <==> encode_spec(v) == bytes,
{
    if encode_spec(v) == bytes {
        let w = choose|w: RecordView| encode_spec(w) == bytes;
        lemma_encode_injective(w, v);
    }
}

/// Decoding the stored form of a record gives that record back.
pub proof fn lemma_round_trip(v: RecordView)
    ensures
        decode_spec(encode_spec(v)) == Some(v),
{
    lemma_decode_is_inverse(encode_spec(v), v);
}

/// A member is text in UTF-8 where its label is.
proof fn lemma_member_is_text(label: Seq<u8>, value: Seq<char>)
    requires
        valid_utf8(label),
    ensures
        valid_utf8(member(label, value)),
{
    lemma_json_string_is_text(value);
    valid_utf8_concat(label, json_string(encode_utf8(value)));
}

/// The stored form of a record is text in UTF-8.
pub proof fn lemma_stored_form_is_text(v: RecordView)
    ensures
        valid_utf8(encode_spec(v)),
{
    let first = member(first_name_label(), v.first_name);
    let last = member(last_name_label(), v.last_name);
    let created = member(created_at_label(), v.created_at);
    encode_utf8_valid_utf8("{\"firstName\":"@);
    encode_utf8_valid_utf8(",\"lastName\":"@);
    encode_utf8_valid_utf8(",\"createdAt\":"@);
    encode_utf8_valid_utf8("}"@);
    lemma_member_is_text(first_name_label(), v.first_name);
    lemma_member_is_text(last_name_label(), v.last_name);
    lemma_member_is_text(created_at_label(), v.created_at);
    valid_utf8_concat(first, last);
    valid_utf8_concat(first + last, created);
    valid_utf8_concat(first + last + created, closing());
}

/// `String::from_utf8` of the standard library: the string that `bytes` are
/// the UTF-8 form of, or `None` where they are not valid UTF-8.
#[verifier::external_body]
fn string_from_utf8(bytes: Vec<u8>) -> (r: Option<String>)
    ensures
        r is Some <==> valid_utf8(bytes@),
        r matches Some(s) ==> s@ == decode_utf8(bytes@),
{
    match String::from_utf8(bytes) {
        Ok(s) => Some(s),
        Err(_) => None,
    }
}

/// Appends `bytes` to `out`.
fn append(out: &mut Vec<u8>, bytes: &[u8])
    ensures
        final(out)@ == old(out)@ + bytes@,
{
    let mut i: usize = 0;
    while i < bytes.len()
        invariant
            i <= bytes@.len(),
            out@ == old(out)@ + bytes@.take(i as int),
        decreases bytes@.len() - i,
    {
        out.push(bytes[i]);
        i += 1;
    }
}

/// Appends a member to `out`.
fn write_member(out: &mut Vec<u8>, label: &str, value: &str)
    ensures
        final(out)@ == old(out)@ + member(encode_utf8(label@), value@),
{
    append(out, label.as_bytes());
    write_string(out, value.as_bytes());
}

/// Tells whether `label` stands at `pos`, and where it ends.
fn read_label(input: &[u8], pos: usize, label: &str) -> (r: Option<usize>)
    requires
        pos <= input@.len(),
    ensures
        match r {
            Some(end) => {
                &&& end == pos + encode_utf8(label@).len()
                &&& end <= input@.len()
                &&& input@.subrange(pos as int, end as int) == encode_utf8(label@)
            },
            None => !encode_utf8(label@).is_prefix_of(input@.skip(pos as int)),
        },
{
    let text = label.as_bytes();
    let n = text.len();
    if input.len() - pos < n {
        return None;
    }
    let mut i: usize = 0;
    while i < n
        invariant
            i <= n,
            n == text@.len(),
            text@ == encode_utf8(label@),
            pos + n <= input@.len() <= usize::MAX,
            input@.subrange(pos as int, pos + i) == text@.take(i as int),
        decreases n - i,
    {
        if input[pos + i] != text[i] {
            return None;
        }
        i += 1;
        assert(input@.subrange(pos as int, pos + i) =~= text@.take(i as int)) by {
            assert(input@.subrange(pos as int, pos + i) =~= input@.subrange(
                pos as int,
                pos + i - 1,
            ).push(input@[pos + i - 1]));
        }
    }
    Some(pos + n)
}

/// Reads the member under `label` that starts at `pos`.
///
/// Returns its value and the position behind it, or `None` where no member
/// under that label with a value in UTF-8 starts at `pos`.
fn read_member(input: &[u8], pos: usize, label: &str) -> (r: Option<(String, usize)>)
    requires
        pos <= input@.len(),
    ensures
        match r {
            Some((value, end)) => {
                &&& pos <= end <= input@.len()
                &&& input@.subrange(pos as int, end as int) == member(encode_utf8(label@), value@)
            },
            None => forall|v: Seq<char>|
                !(#[trigger] member(encode_utf8(label@), v)).is_prefix_of(
                    input@.skip(pos as int),
                ),
        },
{
    let ghost lb = encode_utf8(label@);
    let ghost from = input@.skip(pos as int);
    let mid = match read_label(input, pos, label) {
        Some(mid) => mid,
        None => {
            assert forall|v: Seq<char>| !(#[trigger] member(lb, v)).is_prefix_of(from) by {
                if member(lb, v).is_prefix_of(from) {
                    lemma_prefix_split(lb, json_string(encode_utf8(v)), from);
                }
            }
            return None;
        },
    };
    let (raw, end) = match read_string(input, mid) {
        Some(found) => found,
        None => {
            assert forall|v: Seq<char>| !(#[trigger] member(lb, v)).is_prefix_of(from) by {
                if member(lb, v).is_prefix_of(from) {
                    lemma_prefix_split(lb, json_string(encode_utf8(v)), from);
                }
            }
            return None;
        },
    };
    let ghost bytes = raw@;
    assert(input@.skip(mid as int) =~= json_string(bytes) + input@.skip(end as int));
    match string_from_utf8(raw) {
        Some(value) => {
            proof {
                decode_utf8_encode_utf8(bytes);
                assert(input@.subrange(pos as int, end as int) =~= input@.subrange(
                    pos as int,
                    mid as int,
                ) + input@.subrange(mid as int, end as int));
            }
            Some((value, end))
        },
        None => {
            assert forall|v: Seq<char>| !(#[trigger] member(lb, v)).is_prefix_of(from) by {
                if member(lb, v).is_prefix_of(from) {
                    let lit = json_string(encode_utf8(v));
                    let behind = input@.skip(mid + lit.len());
                    lemma_prefix_split(lb, lit, from);
                    assert(input@.skip(mid as int) =~= lit + behind);
                    lemma_json_string_unique(
                        bytes,
                        input@.skip(end as int),
                        encode_utf8(v),
                        behind,
                    );
                    encode_utf8_valid_utf8(v);
                }
            }
            None
        },
    }
}

/// The stored form of `record`, which decodes to `record` again.
pub fn encode(record: &Record) -> (bytes: Vec<u8>)
    ensures
        bytes@ == encode_spec(record@),
        decode_spec(bytes@) == Some(record@),
        valid_utf8(bytes@),
{
    let mut out: Vec<u8> = Vec::new();
    write_member(&mut out, "{\"firstName\":", record.first_name.as_str());
    write_member(&mut out, ",\"lastName\":", record.last_name.as_str());
    write_member(&mut out, ",\"createdAt\":", record.created_at.as_str());
    append(&mut out, "}".as_bytes());
    proof {
        lemma_round_trip(record@);
        lemma_stored_form_is_text(record@);
    }
    out
}

/// The record that `bytes` are the stored form of.
///
/// Fails where they are the stored form of none: where they are not written as
/// `encode` writes, or hold a value that is not UTF-8.
pub fn decode(bytes: &[u8]) -> (r: Result<Record, CorruptValue>)
    ensures
        match r {
            Ok(record) => bytes@ == encode_spec(record@) && decode_spec(bytes@) == Some(record@),
            Err(_) => decode_spec(bytes@) is None && forall|v: RecordView|
                encode_spec(v) != bytes@,
        },
{
    let ghost all = bytes@;
    assert(all.skip(0) =~= all);
    let (first_name, first_end) = match read_member(bytes, 0, "{\"firstName\":") {
        Some(found) => found,
        None => {
            assert forall|v: RecordView| encode_spec(v) != all by {
                lemma_encode_parts(v);
                let m = member(first_name_label(), v.first_name);
            }
            return Err(CorruptValue);
        },
    };
    assert forall|v: RecordView| encode_spec(v) == all implies v.first_name == first_name@
        && all.skip(first_end as int) == after_first_name(v) by {
        lemma_encode_parts(v);
        lemma_member_read(
            all,
            0,
            first_end as int,
            first_name_label(),
            first_name@,
            v.first_name,
            after_first_name(v),
        );
    }
    let (last_name, last_end) = match read_member(bytes, first_end, ",\"lastName\":") {
        Some(found) => found,
        None => {
            assert forall|v: RecordView| encode_spec(v) != all by {
                let m = member(last_name_label(), v.last_name);
            }
            return Err(CorruptValue);
        },
    };
    assert forall|v: RecordView| encode_spec(v) == all implies v.last_name == last_name@
        && all.skip(last_end as int) == after_last_name(v) by {
        lemma_member_read(
            all,
            first_end as int,
            last_end as int,
            last_name_label(),
            last_name@,
            v.last_name,
            after_last_name(v),
        );
    }
    let (created_at, created_end) = match read_member(bytes, last_end, ",\"createdAt\":") {
        Some(found) => found,
        None => {
            assert forall|v: RecordView| encode_spec(v) != all by {
                let m = member(created_at_label(), v.created_at);
            }
            return Err(CorruptValue);
        },
    };
    assert forall|v: RecordView| encode_spec(v) == all implies v.created_at == created_at@
        && all.skip(created_end as int) == closing() by {
        lemma_member_read(
            all,
            last_end as int,
            created_end as int,
            created_at_label(),
            created_at@,
            v.created_at,
            closing(),
        );
    }
    let end = match read_label(bytes, created_end, "}") {
        Some(end) => end,
        None => {
            assert forall|v: RecordView| encode_spec(v) != all by {
            }
            return Err(CorruptValue);
        },
    };
    if end != bytes.len() {
        return Err(CorruptValue);
    }
    let record = Record { first_name, last_name, created_at };
    proof {
        assert(all =~= all.subrange(0, first_end as int) + all.subrange(
            first_end as int,
            last_end as int,
        ) + all.subrange(last_end as int, created_end as int) + all.subrange(
            created_end as int,
            end as int,
        ));
        lemma_decode_is_inverse(all, record@);
    }
    Ok(record)
}

} // verus!
