//! The storage worker: what it asks of the storage engine for a request, and
//! what it answers once the engine has done it.
//!
//! The worker takes one request at a time. For each it issues one order to the
//! storage engine and turns the engine's outcome into the reply; it never
//! tries an order a second time.

use crate::clock::{
    is_timestamp, lemma_timestamp_order, now_utc, text_le, timestamp_at, timestamp_text,
    ClockReading,
};
use crate::codec::{
    decode, decode_spec, encode, encode_spec, lemma_round_trip, Record, RecordView,
};
use crate::store::{
    key_of, lemma_key_of_injective, lemma_last_write_wins, lemma_read_after_write,
    lemma_unwritten_key_keeps, read, written, written_all, Get, Put, StoreError,
};
use vstd::prelude::*;

verus! {

/// The request to create the record of a phone number, or to replace it.
#[derive(Clone, Debug, PartialEq, Eq)]
pub struct CreateRequest {
    pub phone_number: String,
    pub first_name: String,
    pub last_name: String,
}

/// What a request to create holds, as a mathematical value.
pub ghost struct CreateRequestView {
    pub phone_number: Seq<char>,
    pub first_name: Seq<char>,
    pub last_name: Seq<char>,
}

impl View for CreateRequest {
    type V = CreateRequestView;

    open spec fn view(&self) -> CreateRequestView {
        CreateRequestView {
            phone_number: self.phone_number@,
            first_name: self.first_name@,
            last_name: self.last_name@,
        }
    }
}

/// The request to look up the record of a phone number.
#[derive(Clone, Debug, PartialEq, Eq)]
pub struct LookupRequest {
    pub phone_number: String,
}

/// Why the worker could not carry out a request.
#[derive(Clone, Debug, PartialEq, Eq)]
pub enum OpError {
    /// The storage engine failed.
    Storage(StoreError),
    /// A value was read that is the stored form of no record.
    Corrupt,
    /// The clock gave a time that has no text as a timestamp.
    Clock,
}

/// The record that a request creates at the time `now`.
pub open spec fn new_record(request: CreateRequestView, now: ClockReading) -> RecordView {
    RecordView {
        first_name: request.first_name,
        last_name: request.last_name,
        created_at: timestamp_text(now),
    }
}

/// The worker's reply to a lookup, given the outcome of the read.
pub open spec fn lookup_reply(outcome: Result<Option<Seq<u8>>, StoreError>) -> Result<
    Option<RecordView>,
    OpError,
> {
    match outcome {
        Err(e) => Err(OpError::Storage(e)),
        Ok(None) => Ok(None),
        Ok(Some(bytes)) => match decode_spec(bytes) {
            Some(v) => Ok(Some(v)),
            None => Err(OpError::Corrupt),
        },
    }
}

/// The outcome of a read, with the bytes read as a mathematical value.
pub open spec fn read_outcome_view(outcome: Result<Option<Vec<u8>>, StoreError>) -> Result<
    Option<Seq<u8>>,
    StoreError,
> {
    match outcome {
        Err(e) => Err(e),
        Ok(None) => Ok(None),
        Ok(Some(bytes)) => Ok(Some(bytes@)),
    }
}

/// The reply to a lookup, with the record found as a mathematical value.
pub open spec fn lookup_reply_view(reply: Result<Option<Record>, OpError>) -> Result<
    Option<RecordView>,
    OpError,
> {
    match reply {
        Err(e) => Err(e),
        Ok(None) => Ok(None),
        Ok(Some(record)) => Ok(Some(record@)),
    }
}

/// The key under which the record of `phone_number` is kept.
pub fn store_key(phone_number: &str) -> (key: Vec<u8>)
    ensures
        key@ == key_of(phone_number@),
{
    phone_number.as_bytes_vec()
}

/// The order that creates the record of `request` at the time `now`: to write
/// the stored form of the new record under the key of the phone number.
///
/// Fails where `now` is no calendar time.
pub fn begin_create_at(request: &CreateRequest, now: &ClockReading) -> (r: Result<Put, OpError>)
    ensures
        match r {
            Ok(put) => {
                &&& now.is_calendar_time()
                &&& put.key@ == key_of(request.phone_number@)
                &&& put.value@ == encode_spec(new_record(request@, *now))
                &&& is_timestamp(new_record(request@, *now).created_at)
            },
            Err(e) => !now.is_calendar_time() && e == OpError::Clock,
        },
{
    match timestamp_at(now) {
        Some(created_at) => {
            let record = Record {
                first_name: request.first_name.clone(),
                last_name: request.last_name.clone(),
                created_at,
            };
            Ok(Put { key: store_key(request.phone_number.as_str()), value: encode(&record) })
        },
        None => Err(OpError::Clock),
    }
}

/// The order that creates the record of `request` now, by the system clock.
///
/// Fails where the clock gives no calendar time.
pub fn begin_create(request: &CreateRequest) -> (r: Result<Put, OpError>)
    ensures
        match r {
            Ok(put) => {
                &&& put.key@ == key_of(request.phone_number@)
                &&& exists|now: ClockReading|
                    {
                        &&& now.is_calendar_time()
                        &&& put.value@ == encode_spec(#[trigger] new_record(request@, now))
                        &&& is_timestamp(new_record(request@, now).created_at)
                    }
            },
            Err(e) => e == OpError::Clock,
        },
{
    let now = now_utc();
    begin_create_at(request, &now)
}

/// The worker's reply to a request to create, given the outcome of the write:
/// success where the engine has written, its failure where it has not.
pub fn finish_create(outcome: Result<(), StoreError>) -> (r: Result<(), OpError>)
    ensures
        r == (match outcome {
            Ok(_) => Ok::<(), OpError>(()),
            Err(e) => Err(OpError::Storage(e)),
        }),
{
    match outcome {
        Ok(_) => Ok(()),
        Err(e) => Err(OpError::Storage(e)),
    }
}

/// The order that looks up the record of `request`: to read the value under
/// the key of the phone number.
pub fn begin_lookup(request: &LookupRequest) -> (get: Get)
    ensures
        get.key@ == key_of(request.phone_number@),
{
    Get { key: store_key(request.phone_number.as_str()) }
}

/// The worker's reply to a lookup, given the outcome of the read: the engine's
/// failure; nothing, where there is no value under the key; the record that
/// the value is the stored form of; or `Corrupt`, where it is that of none.
pub fn finish_lookup(outcome: Result<Option<Vec<u8>>, StoreError>) -> (r: Result<
    Option<Record>,
    OpError,
>)
    ensures
        lookup_reply_view(r) == lookup_reply(read_outcome_view(outcome)),
{
    match outcome {
        Err(e) => Err(OpError::Storage(e)),
        Ok(None) => Ok(None),
        Ok(Some(bytes)) => match decode(bytes.as_slice()) {
            Ok(record) => Ok(Some(record)),
            Err(_) => Err(OpError::Corrupt),
        },
    }
}

/// A lookup after a create finds the record created: the names of the request
/// and the time of creation.
pub proof fn law_lookup_finds_created(
    contents: Map<Seq<u8>, Seq<u8>>,
    request: CreateRequestView,
    now: ClockReading,
)
    ensures
        lookup_reply(
            Ok(
                read(
                    written(
                        contents,
                        key_of(request.phone_number),
                        encode_spec(new_record(request, now)),
                    ),
                    key_of(request.phone_number),
                ),
            ),
        ) == Ok::<Option<RecordView>, OpError>(Some(new_record(request, now))),
{
    lemma_round_trip(new_record(request, now));
}

/// Where a phone number is created twice, a lookup finds the names and the
/// time of the second create; and where the second time is no earlier than the
/// first, the time found is, as text, no earlier than the one that the first
/// create stored.
pub proof fn law_second_create_overwrites(
    contents: Map<Seq<u8>, Seq<u8>>,
    first: CreateRequestView,
    first_time: ClockReading,
    second: CreateRequestView,
    second_time: ClockReading,
)
    requires
        first.phone_number == second.phone_number,
    ensures
        ({
            let key = key_of(first.phone_number);
            let once = written(contents, key, encode_spec(new_record(first, first_time)));
            let twice = written(once, key, encode_spec(new_record(second, second_time)));
            &&& lookup_reply(Ok(read(twice, key))) == Ok::<Option<RecordView>, OpError>(
                Some(new_record(second, second_time)),
            )
            &&& first_time.is_calendar_time() && second_time.is_calendar_time()
                && first_time.not_after(second_time) ==> text_le(
                new_record(first, first_time).created_at,
                new_record(second, second_time).created_at,
            )
        }),
{
    lemma_round_trip(new_record(second, second_time));
    if first_time.is_calendar_time() && second_time.is_calendar_time() {
        lemma_timestamp_order(first_time, second_time);
    }
}

/// A lookup of a phone number under whose key nothing was written finds
/// nothing, and is no error.
pub proof fn law_never_created_is_not_found(
    contents: Map<Seq<u8>, Seq<u8>>,
    phone_number: Seq<char>,
)
    requires
        !contents.contains_key(key_of(phone_number)),
    ensures
        lookup_reply(Ok(read(contents, key_of(phone_number)))) == Ok::<
            Option<RecordView>,
            OpError,
        >(None),
{
}

/// Where the bytes under a key are the stored form of no record, a lookup
/// answers `Corrupt`: it neither finds nothing nor finds a record.
pub proof fn law_corrupt_value_is_reported(
    contents: Map<Seq<u8>, Seq<u8>>,
    phone_number: Seq<char>,
    bytes: Seq<u8>,
)
    requires
        forall|v: RecordView| encode_spec(v) != bytes,
    ensures
        lookup_reply(Ok(read(written(contents, key_of(phone_number), bytes), key_of(phone_number))))
            == Err::<Option<RecordView>, OpError>(OpError::Corrupt),
{
}

/// A create under one phone number leaves what a lookup of every other phone
/// number finds as it was.
pub proof fn law_create_leaves_others(
    contents: Map<Seq<u8>, Seq<u8>>,
    request: CreateRequestView,
    now: ClockReading,
    other: Seq<char>,
)
    requires
        other != request.phone_number,
    ensures
        read(
            written(
                contents,
                key_of(request.phone_number),
                encode_spec(new_record(request, now)),
            ),
            key_of(other),
        ) == read(contents, key_of(other)),
{
    if key_of(other) == key_of(request.phone_number) {
        lemma_key_of_injective(other, request.phone_number);
    }
    lemma_read_after_write(
        contents,
        key_of(request.phone_number),
        encode_spec(new_record(request, now)),
        key_of(other),
    );
}

/// The writes of a run of creates, each at its own time, in the order in which
/// the worker took them.
pub open spec fn creates(requests: Seq<(CreateRequestView, ClockReading)>) -> Seq<
    (Seq<u8>, Seq<u8>),
> {
    Seq::new(
        requests.len(),
        |i: int|
            (
                key_of(requests[i].0.phone_number),
                encode_spec(new_record(requests[i].0, requests[i].1)),
            ),
    )
}

/// After a run of creates, in whatever order the worker took them, a lookup
/// of a phone number finds the record of the last create of that number. So
/// where the numbers all differ, each record is found as it was created.
pub proof fn law_each_create_is_found(
    contents: Map<Seq<u8>, Seq<u8>>,
    requests: Seq<(CreateRequestView, ClockReading)>,
    i: int,
)
    requires
        0 <= i < requests.len(),
        forall|j: int|
            i < j < requests.len() ==> requests[j].0.phone_number != requests[i].0.phone_number,
    ensures
        lookup_reply(
            Ok(read(written_all(contents, creates(requests)), key_of(requests[i].0.phone_number))),
        ) == Ok::<Option<RecordView>, OpError>(Some(new_record(requests[i].0, requests[i].1))),
{
    let puts = creates(requests);
    assert forall|j: int| i < j < puts.len() implies puts[j].0 != puts[i].0 by {
        if puts[j].0 == puts[i].0 {
            lemma_key_of_injective(requests[j].0.phone_number, requests[i].0.phone_number);
        }
    }
    lemma_last_write_wins(contents, puts, i);
    lemma_round_trip(new_record(requests[i].0, requests[i].1));
}

/// A run of creates leaves what a lookup finds for a phone number that none of
/// them names as it was.
pub proof fn law_creates_leave_others(
    contents: Map<Seq<u8>, Seq<u8>>,
    requests: Seq<(CreateRequestView, ClockReading)>,
    other: Seq<char>,
)
    requires
        forall|j: int| 0 <= j < requests.len() ==> requests[j].0.phone_number != other,
    ensures
        read(written_all(contents, creates(requests)), key_of(other)) == read(
            contents,
            key_of(other),
        ),
{
    let puts = creates(requests);
    assert forall|j: int| 0 <= j < puts.len() implies puts[j].0 != key_of(other) by {
        if puts[j].0 == key_of(other) {
            lemma_key_of_injective(requests[j].0.phone_number, other);
        }
    }
    lemma_unwritten_key_keeps(contents, puts, key_of(other));
}

} // verus!
