use tsdb::engine::{Engine, Reply, StorageError};
use tsdb::protocol::{Command, Query};
use tsdb::timeseries::Record;

fn name(s: &str) -> String {
    s.to_string()
}

#[test]
fn create_then_create_again_fails() {
    let mut e = Engine::new();
    assert_eq!(e.create(name("cpu"), Some(10), 5), Ok(()));
    assert_eq!(e.create(name("cpu"), None, 6), Err(StorageError::AlreadyExists));
    assert_eq!(e.len(), 1);
    let ts = e.get(&name("cpu")).unwrap();
    assert_eq!(ts.retention(), Some(10));
    assert_eq!(ts.ctime(), 5);
}

#[test]
fn delete_then_query_then_recreate() {
    let mut e = Engine::new();
    e.create(name("cpu"), None, 100).unwrap();
    e.add_points(&name("cpu"), &vec![1, 2, 3], 150).unwrap();
    assert_eq!(e.delete(&name("cpu")), Ok(()));
    assert!(e.get(&name("cpu")).is_none());
    let q = Command::Query { name: name("cpu"), query: Query::Average };
    assert_eq!(e.execute(q, 160), Reply::Failed(StorageError::NotFound));
    assert_eq!(e.delete(&name("cpu")), Err(StorageError::NotFound));
    e.create(name("cpu"), None, 200).unwrap();
    let ts = e.get(&name("cpu")).unwrap();
    assert!(ts.is_empty());
    assert_eq!(ts.ctime(), 200);
}

#[test]
fn add_to_missing_series_fails() {
    let mut e = Engine::new();
    e.create(name("a"), None, 0).unwrap();
    assert_eq!(e.add_points(&name("b"), &vec![1], 3), Err(StorageError::NotFound));
    assert!(e.get(&name("a")).unwrap().is_empty());
}

#[test]
fn batch_shares_one_timestamp_and_keeps_its_order() {
    let mut e = Engine::new();
    e.create(name("a"), None, 0).unwrap();
    e.add_points(&name("a"), &vec![9], 20).unwrap();
    e.add_points(&name("a"), &vec![9], 5).unwrap();
    e.add_points(&name("a"), &vec![1, 2, 3], 10).unwrap();
    let ts = e.get(&name("a")).unwrap();
    let got: Vec<Record> = (0..ts.len()).map(|i| *ts.index(i)).collect();
    assert_eq!(
        got,
        vec![
            Record::at(5, 9),
            Record::at(10, 1),
            Record::at(10, 2),
            Record::at(10, 3),
            Record::at(20, 9),
        ]
    );
}

#[test]
fn other_series_are_left_alone() {
    let mut e = Engine::new();
    e.create(name("a"), None, 0).unwrap();
    e.create(name("b"), None, 0).unwrap();
    e.execute(Command::AddPoint { name: name("b"), value: 4 }, 7);
    assert!(e.get(&name("a")).unwrap().is_empty());
    assert_eq!(e.get(&name("b")).unwrap().len(), 1);
}

#[test]
fn execute_reports_each_outcome() {
    let mut e = Engine::new();
    let c = Command::Create { name: name("s"), retention: 50 };
    assert_eq!(e.execute(c, 1), Reply::Done);
    assert_eq!(e.get(&name("s")).unwrap().retention(), Some(50));
    let c = Command::Create { name: name("s"), retention: 50 };
    assert_eq!(e.execute(c, 1), Reply::Failed(StorageError::AlreadyExists));
    let q = Command::Query { name: name("s"), query: Query::Max };
    assert_eq!(e.execute(q, 2), Reply::Failed(StorageError::EmptyAggregate));
    let q = Command::Query { name: name("s"), query: Query::Range { lo: 0, hi: 9 } };
    assert_eq!(e.execute(q, 2), Reply::Failed(StorageError::EmptyAggregate));
    let q = Command::Query { name: name("s"), query: Query::Windowed { interval: 0 } };
    assert_eq!(e.execute(q, 2), Reply::Failed(StorageError::ZeroInterval));
    let c = Command::MultiAddPoint { name: name("s"), values: vec![7, 8] };
    assert_eq!(e.execute(c, 1001), Reply::Done);
    let c = Command::AddPoint { name: name("s"), value: 9 };
    assert_eq!(e.execute(c, 1600), Reply::Done);
    let q = Command::Query { name: name("s"), query: Query::Min };
    assert_eq!(e.execute(q, 2), Reply::Aggregate { query: Query::Min, values: vec![7, 8, 9] });
    let q = Command::Query { name: name("s"), query: Query::Range { lo: 1001, hi: 1500 } };
    assert_eq!(
        e.execute(q, 2),
        Reply::Records(vec![Record::at(1001, 7), Record::at(1001, 8)])
    );
    let q = Command::Query { name: name("s"), query: Query::Windowed { interval: 500 } };
    assert_eq!(e.execute(q, 2), Reply::Windows(vec![vec![7, 8], vec![9]]));
    let c = Command::Delete { name: name("s") };
    assert_eq!(e.execute(c, 3), Reply::Done);
    let c = Command::Delete { name: name("s") };
    assert_eq!(e.execute(c, 3), Reply::Failed(StorageError::NotFound));
}

#[test]
fn drop_before_evicts_old_points_of_one_series() {
    let mut e = Engine::new();
    e.create(name("a"), Some(100), 0).unwrap();
    e.create(name("b"), None, 0).unwrap();
    e.add_points(&name("a"), &vec![1], 10).unwrap();
    e.add_points(&name("a"), &vec![2], 20).unwrap();
    e.add_points(&name("b"), &vec![3], 10).unwrap();
    assert_eq!(e.drop_before(&name("a"), 15), Ok(()));
    assert_eq!(e.get(&name("a")).unwrap().len(), 1);
    assert_eq!(*e.get(&name("a")).unwrap().index(0), Record::at(20, 2));
    assert_eq!(e.get(&name("b")).unwrap().len(), 1);
    assert_eq!(e.drop_before(&name("c"), 15), Err(StorageError::NotFound));
}
