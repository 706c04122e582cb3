//! Identifier text forms, hashing, paths and small parsers.

use fstore::archive::{check_verdict, extraneous_verdict, missing_file_message, should_copy};
use fstore::endpoint::parse_id_list;
use fstore::error::{error_kind_for_status, Error, ErrorKind, OptionNotFound};
use fstore::hash::content_hash;
use fstore::id::{format_id, parse_id};
use fstore::model::{parse_media_type, Object, ProxyMethod};
use fstore::paths::{dump_path, null, objects_dir, parts_dir, path_for_id, root};
use sha2::Digest;

#[test]
fn format_zero_id() {
    assert_eq!(format_id(0), "00000000-0000-0000-0000-000000000000");
}

#[test]
fn format_matches_canonical_uuid_rendering() {
    let samples: [u128; 4] = [
        0,
        1,
        0x67e55044_10b1_426f_9247_bb680e5fe0c8,
        u128::MAX,
    ];
    for v in samples {
        assert_eq!(format_id(v), uuid::Uuid::from_u128(v).to_string());
    }
}

#[test]
fn parse_formats_round_trip() {
    let samples: [u128; 3] = [0, 42, 0x67e55044_10b1_426f_9247_bb680e5fe0c8];
    for v in samples {
        assert_eq!(parse_id(&format_id(v)), Some(v));
    }
}

#[test]
fn parse_rejects_bad_forms() {
    assert_eq!(parse_id(""), None);
    assert_eq!(parse_id("not-a-uuid"), None);
    assert_eq!(parse_id("67e55044-10b1-426f-9247-bb680e5fe0c"), None);
    assert_eq!(parse_id("67e55044-10b1-426f-9247-bb680e5fe0c88"), None);
    assert_eq!(parse_id("67e5504410b1426f9247bb680e5fe0c8QQQQ"), None);
    // uppercase digits are not the canonical form
    assert_eq!(parse_id("67E55044-10B1-426F-9247-BB680E5FE0C8"), None);
    // misplaced separators
    assert_eq!(parse_id("67e5504-410b1-426f-9247-bb680e5fe0c8"), None);
}

#[test]
fn content_hash_known_vectors() {
    // SHA-256 of the two bytes 0x48 0x49 ("HI")
    assert_eq!(
        content_hash(&[0x48, 0x49]),
        "cd6f6854353f68f47c9c93217c5084bc66ea1af918ae1518a2d715a1885e1fcb"
    );
    // SHA-256 of the empty input
    assert_eq!(
        content_hash(&[]),
        "e3b0c44298fc1c149afbf4c8996fb92427ae41e4649b934ca495991b7852b855"
    );
}

#[test]
fn content_hash_matches_direct_use_of_the_hasher() {
    let data = b"some larger body of bytes for the hasher";
    let expected = base16ct::lower::encode_string(&sha2::Sha256::digest(data.as_slice()));
    assert_eq!(content_hash(data.as_slice()), expected);
}

#[test]
fn blob_paths_use_two_prefix_levels() {
    let id = parse_id("67e55044-10b1-426f-9247-bb680e5fe0c8").unwrap();
    assert_eq!(
        path_for_id("/srv/fstore/objects", id),
        "/srv/fstore/objects/67/e5/67e55044-10b1-426f-9247-bb680e5fe0c8"
    );
    assert_eq!(objects_dir("/srv/fstore"), "/srv/fstore/objects");
    assert_eq!(parts_dir("/srv/fstore"), "/srv/fstore/parts");
    assert_eq!(dump_path("/mnt/archive"), "/mnt/archive/fstore.dump");
    assert_eq!(null(), "/dev/null");
    assert_eq!(root(), "/");
}

#[test]
fn status_codes_classify_as_the_client_expects() {
    assert_eq!(error_kind_for_status(404), ErrorKind::NotFound);
    assert_eq!(error_kind_for_status(400), ErrorKind::Client);
    assert_eq!(error_kind_for_status(409), ErrorKind::Client);
    assert_eq!(error_kind_for_status(500), ErrorKind::Server);
    assert_eq!(error_kind_for_status(503), ErrorKind::Server);
    assert_eq!(error_kind_for_status(200), ErrorKind::Other);
    assert_eq!(error_kind_for_status(302), ErrorKind::Other);
}

#[test]
fn absent_values_become_not_found() {
    let missing: Option<u32> = None;
    match missing.ok_or_not_found("Bucket") {
        Err(Error::NotFound(entity)) => assert_eq!(entity, "Bucket"),
        _ => panic!("expected NotFound"),
    }
    assert_eq!(Some(7u32).ok_or_not_found("Bucket").unwrap(), 7);
}

#[test]
fn error_messages() {
    assert_eq!(Error::NotFound("Object".to_string()).message(), "Object not found");
    assert_eq!(Error::InProgress.message(), "task already in progress");
    assert!(Error::WriteLock.message().contains("written"));
    assert!(Error::NotFound(String::new()).is_not_found());
    assert!(!Error::WriteLock.is_not_found());
}

#[test]
fn media_types_split_at_the_first_slash() {
    let m = parse_media_type("text/plain").unwrap();
    assert_eq!(m.ty, "text");
    assert_eq!(m.subtype, "plain");
    let m = parse_media_type("a/b/c").unwrap();
    assert_eq!(m.ty, "a");
    assert_eq!(m.subtype, "b");
    assert!(parse_media_type("noslash").is_err());

    let o = Object {
        id: 1,
        hash: String::new(),
        size: 0,
        ty: "image".to_string(),
        subtype: "png".to_string(),
        added: 0,
    };
    assert_eq!(o.media_type(), "image/png");
}

#[test]
fn proxy_methods_name_their_http_verbs() {
    assert_eq!(ProxyMethod::Get.name(), "GET");
    assert_eq!(ProxyMethod::Head.name(), "HEAD");
}

#[test]
fn id_lists_parse_line_by_line() {
    let a = format_id(1);
    let b = format_id(2);
    let body = format!("{a}\n{b}");
    assert_eq!(parse_id_list(&body), Some(vec![1, 2]));
    // a trailing line feed ends the last line
    let body = format!("{a}\n{b}\n");
    assert_eq!(parse_id_list(&body), Some(vec![1, 2]));
    assert_eq!(parse_id_list(""), Some(vec![]));
    assert_eq!(parse_id_list("junk"), None);
    assert_eq!(parse_id_list(&format!("{a}\njunk")), None);
}

#[test]
fn archive_sweep_keeps_only_known_blobs() {
    let name = format_id(7);
    assert!(!extraneous_verdict(&name, true));
    assert!(extraneous_verdict(&name, false));
    assert!(extraneous_verdict("README", true));
    assert!(extraneous_verdict("README", false));
}

#[test]
fn copies_are_skipped_when_the_destination_matches() {
    let hash = content_hash(b"x");
    assert!(!should_copy(&hash, Some(hash.clone())));
    assert!(should_copy(&hash, Some("something else".to_string())));
    assert!(should_copy(&hash, None));
}

#[test]
fn check_verdicts() {
    let good = content_hash(b"sound");
    assert!(check_verdict(&good, Ok(good.clone())).is_ok());
    let tampered = content_hash(b"tampered");
    let verdict = check_verdict(&good, Ok(tampered.clone()));
    assert_eq!(verdict.unwrap_err(), format!("hash mismatch: {tampered}"));
    assert_eq!(
        check_verdict(&good, Err("cannot open".to_string())).unwrap_err(),
        "cannot open"
    );
    assert_eq!(
        missing_file_message("/x/y"),
        "file '/x/y' does not exist"
    );
}
