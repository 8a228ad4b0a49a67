use actix::prelude::{Actor, Addr, Arbiter, Handler, Message, SyncArbiter, SyncContext, System};
use futures::future::{join_all, Future};
use phone_records::clock::ClockReading;
use phone_records::codec::Record;
use phone_records::worker::{
    begin_create, begin_create_at, begin_lookup, finish_create, finish_lookup, CreateRequest,
    LookupRequest, OpError,
};
use std::collections::HashMap;
use std::sync::{Arc, Mutex};

/// The worker as an actor on one thread of its own, over a storage engine in
/// memory.
struct Worker {
    values: HashMap<Vec<u8>, Vec<u8>>,
}

impl Actor for Worker {
    type Context = SyncContext<Self>;
}

struct Create(CreateRequest, Option<ClockReading>);

struct Lookup(LookupRequest);

impl Message for Create {
    type Result = Result<(), OpError>;
}

impl Message for Lookup {
    type Result = Result<Option<Record>, OpError>;
}

impl Handler<Create> for Worker {
    type Result = Result<(), OpError>;

    fn handle(&mut self, msg: Create, _: &mut Self::Context) -> Self::Result {
        let order = match msg.1 {
            Some(now) => begin_create_at(&msg.0, &now)?,
            None => begin_create(&msg.0)?,
        };
        self.values.insert(order.key, order.value);
        finish_create(Ok(()))
    }
}

impl Handler<Lookup> for Worker {
    type Result = Result<Option<Record>, OpError>;

    fn handle(&mut self, msg: Lookup, _: &mut Self::Context) -> Self::Result {
        let order = begin_lookup(&msg.0);
        finish_lookup(Ok(self.values.get(&order.key).cloned()))
    }
}

type Replies = (Vec<Result<(), OpError>>, Vec<Result<Option<Record>, OpError>>);

/// Sends all the creates at once, then all the lookups at once, and waits for
/// the replies.
fn run(creates: Vec<Create>, lookups: Vec<Lookup>) -> Replies {
    let replies: Arc<Mutex<Option<Replies>>> = Arc::new(Mutex::new(None));
    let kept = Arc::clone(&replies);
    let sys = System::new("worker");
    let worker: Addr<Worker> = SyncArbiter::start(1, || Worker { values: HashMap::new() });
    let reader = worker.clone();
    let sent = join_all(creates.into_iter().map(|m| worker.send(m)).collect::<Vec<_>>());
    Arbiter::spawn(
        sent.and_then(move |made| {
            join_all(lookups.into_iter().map(|m| reader.send(m)).collect::<Vec<_>>())
                .map(move |found| (made, found))
        })
        .then(move |outcome| {
            *kept.lock().unwrap() = outcome.ok();
            System::current().stop();
            Ok(())
        }),
    );
    sys.run();
    let got = replies.lock().unwrap().take();
    got.expect("the worker answers every message")
}

fn number(i: usize) -> String {
    format!("+1555000{:04}", i)
}

#[test]
fn concurrent_creates_of_different_numbers_all_succeed_and_are_all_found() {
    let count = 40;
    let creates = (0..count)
        .map(|i| {
            let request = CreateRequest {
                phone_number: number(i),
                first_name: format!("first{}", i),
                last_name: format!("last{}", i),
            };
            Create(request, None)
        })
        .collect();
    let mut lookups: Vec<Lookup> =
        (0..count).map(|i| Lookup(LookupRequest { phone_number: number(i) })).collect();
    lookups.push(Lookup(LookupRequest { phone_number: number(count) }));
    let (made, found) = run(creates, lookups);
    assert_eq!(made, vec![Ok(()); count]);
    assert_eq!(found.len(), count + 1);
    for i in 0..count {
        let record = found[i].clone().unwrap().unwrap();
        assert_eq!(record.first_name, format!("first{}", i));
        assert_eq!(record.last_name, format!("last{}", i));
        assert_eq!(record.created_at.len(), 20);
    }
    assert_eq!(found[count], Ok(None));
}

#[test]
fn creates_of_one_number_are_applied_in_the_order_of_arrival() {
    let count = 30;
    let creates = (0..count)
        .map(|i| {
            let request = CreateRequest {
                phone_number: number(0),
                first_name: format!("first{}", i),
                last_name: "last".to_string(),
            };
            let now = ClockReading {
                years_since_1900: 124,
                months_since_january: 0,
                day_of_month: 5,
                hours: 0,
                minutes: 0,
                seconds: i as i32,
            };
            Create(request, Some(now))
        })
        .collect();
    let lookups = vec![Lookup(LookupRequest { phone_number: number(0) })];
    let (made, found) = run(creates, lookups);
    assert_eq!(made, vec![Ok(()); count]);
    assert_eq!(
        found,
        vec![Ok(Some(Record {
            first_name: "first29".to_string(),
            last_name: "last".to_string(),
            created_at: "2024-01-05T00:00:29Z".to_string(),
        }))]
    );
}
