//! Behaviour of the media store and of the artifact path derivation.

use sav::{media_path, MediaKind, MediaStore};

#[test]
fn write_then_open_round_trips_bytes() {
    let mut m = MediaStore::new();
    m.write(1, MediaKind::Photo, &[1, 2, 3]);
    assert!(m.has_media(1, MediaKind::Photo));
    assert_eq!(m.open(1, MediaKind::Photo), Some(vec![1, 2, 3]));
}

#[test]
fn write_overwrites_prior_content() {
    let mut m = MediaStore::new();
    m.write(1, MediaKind::Invoice, &[1, 2, 3]);
    m.write(1, MediaKind::Invoice, &[9]);
    assert_eq!(m.open(1, MediaKind::Invoice), Some(vec![9]));
}

#[test]
fn empty_write_leaves_existing_artifact_unchanged() {
    let mut m = MediaStore::new();
    m.write(1, MediaKind::Photo, &[1, 2, 3]);
    m.write(1, MediaKind::Photo, &[]);
    assert_eq!(m.open(1, MediaKind::Photo), Some(vec![1, 2, 3]));
    // and an empty write under a fresh key creates nothing
    m.write(2, MediaKind::Photo, &[]);
    assert!(!m.has_media(2, MediaKind::Photo));
}

#[test]
fn kinds_are_independent_keys() {
    let mut m = MediaStore::new();
    m.write(1, MediaKind::Photo, &[1]);
    m.write(1, MediaKind::Notice, &[2]);
    assert_eq!(m.open(1, MediaKind::Photo), Some(vec![1]));
    assert_eq!(m.open(1, MediaKind::Notice), Some(vec![2]));
    assert!(!m.has_media(1, MediaKind::Invoice));
    assert!(m.open(2, MediaKind::Photo).is_none());
}

#[test]
fn delete_all_removes_only_the_record_s_artifacts() {
    let mut m = MediaStore::new();
    m.write(1, MediaKind::Photo, &[1]);
    m.write(1, MediaKind::Invoice, &[2]);
    m.write(2, MediaKind::Photo, &[3]);
    m.delete_all(1);
    assert!(!m.has_media(1, MediaKind::Photo));
    assert!(!m.has_media(1, MediaKind::Invoice));
    assert_eq!(m.open(2, MediaKind::Photo), Some(vec![3]));
}

#[test]
fn media_path_is_dir_id_kind() {
    assert_eq!(media_path("data", 7, "photo"), "data/7/photo");
    assert_eq!(media_path("/var/lib/sav", 120, "invoice"), "/var/lib/sav/120/invoice");
    assert_eq!(media_path("data", 1234567890, "notice"), "data/1234567890/notice");
    assert_eq!(media_path("d", -5, "photo"), "d/-5/photo");
    assert_eq!(media_path("d", 0, "photo"), "d/0/photo");
}

#[test]
fn media_path_accepts_kind_names() {
    assert_eq!(MediaKind::Photo.as_str(), "photo");
    assert_eq!(MediaKind::Invoice.as_str(), "invoice");
    assert_eq!(MediaKind::Notice.as_str(), "notice");
    assert_eq!(media_path("data", 3, MediaKind::Invoice.as_str()), "data/3/invoice");
}
