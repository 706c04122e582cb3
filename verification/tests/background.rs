//! The background tasks: progress accounting, single-run exclusion, and
//! the check and archive flows.

use fstore::archive::check_verdict;
use fstore::error::Error;
use fstore::hash::content_hash;
use fstore::model::{About, ObjectError, Version};
use fstore::progress::{Progress, Task, MAX_ERRORS};
use fstore::store::ObjectStore;
use fstore::worker::{process_object, run_object_stream, ActionOutcome};

fn empty_version() -> Version {
    Version {
        number: String::new(),
        branch: String::new(),
        build_time: String::new(),
        build_os: String::new(),
        build_type: String::new(),
        commit_hash: String::new(),
        commit_date: String::new(),
        rust_version: String::new(),
        rust_channel: String::new(),
    }
}

fn store_with_objects(count: u32) -> (ObjectStore, Vec<fstore::model::Object>) {
    let mut store = ObjectStore::new(About { version: empty_version() }, Some("/tmp/a".to_string()));
    store.add_bucket(1, "b", 1).unwrap();
    let mut objects = Vec::new();
    for k in 0..count {
        let part = store.get_part(None).unwrap();
        let id = part.id();
        let bytes = vec![k as u8; (k + 1) as usize];
        store.append_part(&part, &bytes);
        store.release_part(part);
        objects.push(store.commit_part(1, id, "text", "plain", 2).unwrap());
    }
    (store, objects)
}

#[test]
fn progress_counters_and_elapsed() {
    let mut p = Progress::new(100, 2);
    assert_eq!(p.started(), 100);
    assert_eq!(p.total(), 2);
    assert_eq!(p.completed(), 0);
    assert_eq!(p.errors(), 0);
    assert!(!p.finished());
    assert_eq!(p.elapsed(130), 30);
    p.increment();
    p.increment();
    assert!(p.finished());
    p.finish(140);
    assert_eq!(p.ended(), Some(140));
    assert_eq!(p.elapsed(999), 40);
}

#[test]
fn error_buffer_flushes_past_the_limit() {
    let mut p = Progress::new(0, u64::MAX);
    for k in 0..MAX_ERRORS as u64 {
        let batch = p.error(k as u128, format!("broken {k}"));
        assert!(batch.is_empty());
    }
    // the record past the limit drains the whole buffer at once
    let batch = p.error(999, "last straw".to_string());
    assert_eq!(batch.len(), MAX_ERRORS + 1);
    assert_eq!(batch[0].object_id, 0);
    assert_eq!(batch[MAX_ERRORS].object_id, 999);
    assert_eq!(batch[MAX_ERRORS].message, "last straw");
    assert!(p.messages().is_empty());
}

#[test]
fn clearing_records_an_empty_message() {
    let mut p = Progress::new(0, 10);
    let batch = p.clear_error(7);
    assert!(batch.is_empty());
    let drained = p.messages();
    assert_eq!(drained.len(), 1);
    assert_eq!(drained[0].object_id, 7);
    assert_eq!(drained[0].message, "");
}

#[test]
fn tasks_allow_at_most_one_run() {
    let mut t = Task::new();
    assert!(t.progress().is_none());
    t.start(Progress::new(0, 3)).unwrap();
    match t.start(Progress::new(1, 5)) {
        Err(Error::InProgress) => {}
        _ => panic!("expected InProgress"),
    }
    assert_eq!(t.progress().unwrap().total(), 3);
    t.clear();
    assert!(t.progress().is_none());
    t.start(Progress::new(2, 1)).unwrap();
}

#[test]
fn worker_folds_outcomes_into_progress() {
    let mut p = Progress::new(0, 3);
    let batch = process_object(
        &mut p,
        &ActionOutcome { id: 1, verdict: Ok(()) },
    );
    assert!(batch.is_empty());
    assert_eq!(p.completed(), 1);
    assert_eq!(p.errors(), 0);
    // the record it buffered clears the object's stored error once flushed
    let drained = p.messages();
    assert_eq!(drained.len(), 1);
    assert_eq!(drained[0].object_id, 1);
    assert_eq!(drained[0].message, "");

    let outcomes = vec![
        ActionOutcome { id: 2, verdict: Err("bad".to_string()) },
        ActionOutcome { id: 3, verdict: Ok(()) },
    ];
    let records = run_object_stream(&mut p, &outcomes);
    assert_eq!(p.completed(), 3);
    assert_eq!(p.errors(), 1);
    assert_eq!(records.len(), 2);
    assert_eq!(records[0].object_id, 2);
    assert_eq!(records[0].message, "bad");
    assert_eq!(records[1].object_id, 3);
    assert_eq!(records[1].message, "");
}

#[test]
fn long_streams_flush_their_records_in_batches() {
    let total = MAX_ERRORS as u64 + 50;
    let mut p = Progress::new(0, total);
    let outcomes: Vec<ActionOutcome> = (0..total)
        .map(|k| ActionOutcome { id: k as u128, verdict: Err(format!("broken {k}")) })
        .collect();
    let records = run_object_stream(&mut p, &outcomes);
    assert_eq!(p.completed(), total);
    assert_eq!(p.errors(), total);
    assert!(p.messages().is_empty());
    // one record per outcome, in stream order, across the drained batches
    assert_eq!(records.len(), total as usize);
    for (k, record) in records.iter().enumerate() {
        assert_eq!(record.object_id, k as u128);
        assert_eq!(record.message, format!("broken {k}"));
    }
}

#[test]
fn check_counts_every_object_and_reports_no_errors_when_sound() {
    let (mut store, _objects) = store_with_objects(3);
    let progress = store.check_start(50).unwrap();
    assert_eq!(progress.total(), 3);
    assert_eq!(progress.completed(), 0);

    // while the run is installed, a second start is refused
    match store.check_start(51) {
        Err(Error::InProgress) => {}
        _ => panic!("expected InProgress"),
    }

    // every blob hashes to what its row expects
    let rows = store.stream_objects(50);
    assert_eq!(rows.len(), 3);
    let outcomes: Vec<ActionOutcome> = rows
        .iter()
        .map(|row| {
            let data = store.get_object_data(1, row.id).unwrap();
            ActionOutcome {
                id: row.id,
                verdict: check_verdict(&row.hash, Ok(content_hash(&data))),
            }
        })
        .collect();
    let done = store.run_check(&outcomes, 60).unwrap();
    assert_eq!(done.completed(), 3);
    assert_eq!(done.errors(), 0);
    assert_eq!(done.ended(), Some(60));
    assert!(store.get_object_errors().is_empty());

    // the slot is free again
    assert!(store.check_start(70).is_ok());
}

#[test]
fn a_tampered_blob_gets_a_non_empty_error_recorded() {
    let (mut store, objects) = store_with_objects(3);
    let victim = objects[1].id;
    store.check_start(50).unwrap();

    let rows = store.stream_objects(50);
    let outcomes: Vec<ActionOutcome> = rows
        .iter()
        .map(|row| {
            // the victim's blob was truncated behind the store's back
            let actual = if row.id == victim {
                content_hash(b"tampered")
            } else {
                let data = store.get_object_data(1, row.id).unwrap();
                content_hash(&data)
            };
            ActionOutcome { id: row.id, verdict: check_verdict(&row.hash, Ok(actual)) }
        })
        .collect();
    let done = store.run_check(&outcomes, 60).unwrap();
    assert_eq!(done.completed(), 3);
    assert_eq!(done.errors(), 1);

    let errors: Vec<ObjectError> = store.get_object_errors();
    assert_eq!(errors.len(), 1);
    assert_eq!(errors[0].object_id, victim);
    assert!(errors[0].message.starts_with("hash mismatch: "));

    // a later sound check clears the record
    store.check_start(70).unwrap();
    let rows = store.stream_objects(70);
    let outcomes: Vec<ActionOutcome> = rows
        .iter()
        .map(|row| ActionOutcome { id: row.id, verdict: Ok(()) })
        .collect();
    store.run_check(&outcomes, 80).unwrap();
    assert!(store.get_object_errors().is_empty());
}

#[test]
fn archive_needs_a_configured_location() {
    let mut bare = ObjectStore::new(About { version: empty_version() }, None);
    match bare.archive_start(10) {
        Err(Error::Internal(_)) => {}
        _ => panic!("expected Internal"),
    }

    let (mut store, _objects) = store_with_objects(2);
    let progress = store.archive_start(50).unwrap();
    assert_eq!(progress.total(), 2);
    match store.archive_start(51) {
        Err(Error::InProgress) => {}
        _ => panic!("expected InProgress"),
    }
    // the check task is independent of the archive task
    assert!(store.check_start(52).is_ok());

    let rows = store.stream_objects(50);
    let outcomes: Vec<ActionOutcome> = rows
        .iter()
        .map(|row| ActionOutcome { id: row.id, verdict: Ok(()) })
        .collect();
    let done = store.run_archive(&outcomes, 60).unwrap();
    assert_eq!(done.completed(), 2);
    assert_eq!(done.errors(), 0);
    assert!(store.archive_start(70).is_ok());
}
