//! End-to-end flows through the object store: ingestion, deduplication,
//! removal, pruning and the part locking protocol.

use fstore::error::Error;
use fstore::hash::content_hash;
use fstore::model::{About, Version};
use fstore::store::ObjectStore;

fn version() -> Version {
    Version {
        number: "0.1.0".to_string(),
        branch: String::new(),
        build_time: String::new(),
        build_os: String::new(),
        build_type: String::new(),
        commit_hash: String::new(),
        commit_date: String::new(),
        rust_version: String::new(),
        rust_channel: String::new(),
    }
}

fn new_store(archive: Option<&str>) -> ObjectStore {
    ObjectStore::new(About { version: version() }, archive.map(|s| s.to_string()))
}

fn upload(store: &mut ObjectStore, bucket: u128, bytes: &[u8], now: u64) -> fstore::model::Object {
    let part = store.get_part(None).expect("fresh part");
    let part_id = part.id();
    let written = store.append_part(&part, bytes);
    assert_eq!(written, bytes.len() as u64);
    store.release_part(part);
    store
        .commit_part(bucket, part_id, "text", "plain", now)
        .expect("commit")
}

#[test]
fn upload_returns_hash_and_size_of_the_bytes() {
    let mut store = new_store(None);
    let bucket = store.add_bucket(1, "photos", 10).unwrap();
    assert_eq!(bucket.name, "photos");
    assert_eq!(bucket.object_count, 0);

    let object = upload(&mut store, 1, &[0x48, 0x49], 11);
    assert_eq!(
        object.hash,
        "cd6f6854353f68f47c9c93217c5084bc66ea1af918ae1518a2d715a1885e1fcb"
    );
    assert_eq!(object.size, 2);
    assert_eq!(object.ty, "text");
    assert_eq!(object.subtype, "plain");

    let meta = store.get_object_metadata(1, object.id).unwrap();
    assert_eq!(meta.id, object.id);
    assert_eq!(meta.hash, object.hash);

    let data = store.get_object_data(1, object.id).unwrap();
    assert_eq!(data, vec![0x48, 0x49]);
}

#[test]
fn identical_bytes_deduplicate_across_buckets() {
    let mut store = new_store(None);
    store.add_bucket(1, "photos", 10).unwrap();
    store.add_bucket(2, "backup", 10).unwrap();

    let first = upload(&mut store, 1, &[0x48, 0x49], 11);
    let second = upload(&mut store, 2, &[0x48, 0x49], 12);
    assert_eq!(second.id, first.id);
    assert_eq!(second.hash, first.hash);

    let totals = store.get_totals();
    assert_eq!(totals.buckets, 2);
    assert_eq!(totals.objects, 1);
    assert_eq!(totals.space_used, 2);
}

#[test]
fn shared_objects_survive_removal_from_one_bucket() {
    let mut store = new_store(None);
    store.add_bucket(1, "photos", 10).unwrap();
    store.add_bucket(2, "backup", 10).unwrap();
    let o = upload(&mut store, 1, &[0x48, 0x49], 11);
    upload(&mut store, 2, &[0x48, 0x49], 12);

    // remove the association from the first bucket only
    let removed = store.remove_object(1, o.id).unwrap();
    assert_eq!(removed.id, o.id);
    assert!(store.get_object_data(1, o.id).is_err());
    assert_eq!(store.get_object_data(2, o.id).unwrap(), vec![0x48, 0x49]);

    // nothing is orphaned yet, so prune removes nothing
    assert!(store.prune().unwrap().is_empty());
    assert_eq!(store.get_object_data(2, o.id).unwrap(), vec![0x48, 0x49]);

    // after the last association goes, prune deletes row and blob
    store.remove_object(2, o.id).unwrap();
    let pruned = store.prune().unwrap();
    assert_eq!(pruned.len(), 1);
    assert_eq!(pruned[0].id, o.id);
    assert!(store.get_object_metadata(1, o.id).is_err());
    assert!(store.get_object_metadata(2, o.id).is_err());
    assert!(store.get_object_data(2, o.id).is_err());

    let totals = store.get_totals();
    assert_eq!(totals.objects, 0);
    assert_eq!(totals.space_used, 0);
}

#[test]
fn removing_a_bucket_does_not_cascade_into_others() {
    let mut store = new_store(None);
    store.add_bucket(1, "a", 10).unwrap();
    store.add_bucket(2, "b", 10).unwrap();
    let o = upload(&mut store, 1, b"shared", 11);
    upload(&mut store, 2, b"shared", 12);

    store.remove_bucket(1).unwrap();
    // the object is still served from the other bucket
    let meta = store.get_object_metadata(2, o.id).unwrap();
    assert_eq!(meta.id, o.id);
    assert_eq!(store.get_object_data(2, o.id).unwrap(), b"shared".to_vec());
}

#[test]
fn parts_are_resumable_and_exclusively_locked() {
    let mut store = new_store(None);
    store.add_bucket(1, "b", 10).unwrap();

    // a fresh part starts with nothing written
    let part = store.get_part(None).expect("fresh part");
    let id = part.id();
    assert_eq!(store.append_part(&part, &[]), 0);

    let chunk = vec![0u8; 1_048_576];
    assert_eq!(store.append_part(&part, &chunk), 1_048_576);

    // a second writer on the same part is refused while the first holds it
    match store.get_part(Some(id)) {
        Err(Error::WriteLock) => {}
        _ => panic!("expected WriteLock"),
    }

    // dropping the handle releases the lock; the staged bytes remain
    store.release_part(part);
    let part = store.get_part(Some(id)).expect("reopen for resume");
    assert_eq!(store.append_part(&part, &[1, 2, 3]), 3);
    store.release_part(part);

    let object = store.commit_part(1, id, "application", "octet-stream", 11).unwrap();
    assert_eq!(object.size, 1_048_579);
    let mut expected = chunk;
    expected.extend_from_slice(&[1, 2, 3]);
    assert_eq!(object.hash, content_hash(&expected));
    assert_eq!(store.get_object_data(1, id).unwrap(), expected);
}

#[test]
fn commit_refuses_a_part_still_being_written() {
    let mut store = new_store(None);
    store.add_bucket(1, "b", 10).unwrap();
    let part = store.get_part(None).unwrap();
    let id = part.id();
    store.append_part(&part, b"data");
    match store.commit_part(1, id, "text", "plain", 11) {
        Err(Error::WriteLock) => {}
        _ => panic!("expected WriteLock"),
    }
    store.release_part(part);
    assert!(store.commit_part(1, id, "text", "plain", 11).is_ok());
}

#[test]
fn commit_without_a_staged_part_is_internal() {
    let mut store = new_store(None);
    store.add_bucket(1, "b", 10).unwrap();
    match store.commit_part(1, 424242, "text", "plain", 11) {
        Err(Error::Internal(_)) => {}
        _ => panic!("expected Internal"),
    }
}

#[test]
fn commit_into_an_absent_bucket_leaves_an_orphan_blob() {
    let mut store = new_store(None);
    let part = store.get_part(None).unwrap();
    let id = part.id();
    store.append_part(&part, b"orphan");
    store.release_part(part);
    match store.commit_part(99, id, "text", "plain", 11) {
        Err(Error::NotFound(_)) => {}
        _ => panic!("expected NotFound"),
    }
    // the blob is on disk but belongs to no row; it is not served
    assert!(store.get_object_metadata(99, id).is_err());
}

#[test]
fn bucket_names_are_unique_and_renameable() {
    let mut store = new_store(None);
    store.add_bucket(1, "a", 10).unwrap();
    match store.add_bucket(2, "a", 10) {
        Err(Error::Sql(_)) => {}
        _ => panic!("expected Sql"),
    }
    match store.add_bucket(2, "", 10) {
        Err(Error::Sql(_)) => {}
        _ => panic!("expected Sql"),
    }
    store.add_bucket(2, "b", 10).unwrap();
    match store.rename_bucket(2, "a") {
        Err(Error::Sql(_)) => {}
        _ => panic!("expected Sql"),
    }
    store.rename_bucket(2, "c").unwrap();
    assert_eq!(store.get_bucket("c").unwrap().id, 2);
    assert!(store.get_bucket("b").is_err());
    match store.rename_bucket(3, "d") {
        Err(Error::NotFound(_)) => {}
        _ => panic!("expected NotFound"),
    }

    let buckets = store.get_buckets();
    assert_eq!(buckets.len(), 2);
    assert_eq!(buckets[0].name, "a");
    assert_eq!(buckets[1].name, "c");
}

#[test]
fn bulk_removal_reports_count_and_bytes() {
    let mut store = new_store(None);
    store.add_bucket(1, "b", 10).unwrap();
    let o1 = upload(&mut store, 1, b"aa", 11);
    let o2 = upload(&mut store, 1, b"bbb", 12);
    let o3 = upload(&mut store, 1, b"cccc", 13);

    let r = store.remove_objects(1, &vec![o1.id, o3.id, 555]).unwrap();
    assert_eq!(r.objects_removed, 2);
    assert_eq!(r.space_freed, 6);
    assert!(store.get_object_metadata(1, o1.id).is_err());
    assert!(store.get_object_metadata(1, o2.id).is_ok());
    assert!(store.get_object_metadata(1, o3.id).is_err());

    let totals = store.get_totals();
    assert_eq!(totals.space_used, 3);
}

#[test]
fn per_bucket_counts_follow_the_associations() {
    let mut store = new_store(None);
    store.add_bucket(1, "b", 10).unwrap();
    upload(&mut store, 1, b"12345", 11);
    upload(&mut store, 1, b"678", 12);
    let b = store.get_bucket("b").unwrap();
    assert_eq!(b.object_count, 2);
    assert_eq!(b.space_used, 8);
}
