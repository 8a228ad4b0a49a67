use phone_records::codec::Record;
use phone_records::handlers::{
    create_outcome, create_request, lookup_outcome, lookup_request, CreateOutcome, LookupOutcome,
};
use phone_records::store::StoreError;
use phone_records::worker::{CreateRequest, LookupRequest, OpError};

fn ada() -> CreateRequest {
    create_request("+15551234567".to_string(), "Ada".to_string(), "Lovelace".to_string())
}

#[test]
fn create_request_holds_what_it_was_given() {
    assert_eq!(
        ada(),
        CreateRequest {
            phone_number: "+15551234567".to_string(),
            first_name: "Ada".to_string(),
            last_name: "Lovelace".to_string(),
        }
    );
}

#[test]
fn lookup_request_holds_the_phone_number() {
    assert_eq!(
        lookup_request("+15551234567".to_string()),
        LookupRequest { phone_number: "+15551234567".to_string() }
    );
}

#[test]
fn create_that_succeeded_is_accepted_with_the_request() {
    assert_eq!(create_outcome(ada(), Some(Ok(()))), CreateOutcome::Accepted(ada()));
}

#[test]
fn create_that_failed_is_an_internal_failure() {
    let storage = OpError::Storage(StoreError { message: "disk full".to_string() });
    assert_eq!(create_outcome(ada(), Some(Err(storage))), CreateOutcome::InternalFailure);
    assert_eq!(create_outcome(ada(), Some(Err(OpError::Clock))), CreateOutcome::InternalFailure);
    assert_eq!(create_outcome(ada(), Some(Err(OpError::Corrupt))), CreateOutcome::InternalFailure);
    assert_eq!(create_outcome(ada(), None), CreateOutcome::InternalFailure);
}

#[test]
fn lookup_that_found_a_record_carries_it() {
    let record = Record {
        first_name: "Ada".to_string(),
        last_name: "Lovelace".to_string(),
        created_at: "2024-01-05T03:04:05Z".to_string(),
    };
    assert_eq!(lookup_outcome(Some(Ok(Some(record.clone())))), LookupOutcome::Found(record));
}

#[test]
fn lookup_that_found_none_is_not_found() {
    assert_eq!(lookup_outcome(Some(Ok(None))), LookupOutcome::NotFound);
}

#[test]
fn lookup_that_failed_is_an_internal_failure() {
    let storage = OpError::Storage(StoreError { message: "io".to_string() });
    assert_eq!(lookup_outcome(Some(Err(storage))), LookupOutcome::InternalFailure);
    assert_eq!(lookup_outcome(Some(Err(OpError::Corrupt))), LookupOutcome::InternalFailure);
    assert_eq!(lookup_outcome(None), LookupOutcome::InternalFailure);
}
