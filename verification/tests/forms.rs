//! Form decoding, the save flow, and hard deletion with media cleanup.

use sav::{hard_delete, save, Database, Date, Entity, Error, FormData, MediaKind, MediaStore};

fn day(year: i64, month: u8, d: u8) -> Date {
    Date { year, month, day: d }
}

fn form(name: &str, shop: &str, warranty: i32, price: i64, created_at: &str) -> FormData {
    FormData {
        id: None,
        created_at: created_at.to_string(),
        serial: None,
        name: name.to_string(),
        url: None,
        shop: shop.to_string(),
        warranty,
        price,
        photo: None,
        invoice: None,
        notice: None,
    }
}

#[test]
fn from_parses_the_calendar_date() {
    let e = Entity::from(&form("Laptop", "Acme", 2, 999_00, "2024-01-10")).unwrap();
    assert_eq!(e.created_at, day(2024, 1, 10));
    assert_eq!(e.name, "Laptop");
    assert_eq!(e.shop, "Acme");
    assert_eq!(e.warranty, 2);
    assert_eq!(e.price, 999_00);
    assert_eq!(e.trashed_at, None);
    assert_eq!(e.warranty_at, day(2026, 1, 10));
}

#[test]
fn from_rejects_text_that_is_no_date() {
    assert_eq!(
        Entity::from(&form("Laptop", "Acme", 2, 1, "not-a-date")).map(|_| ()),
        Err(Error::Validation)
    );
    assert_eq!(
        Entity::from(&form("Laptop", "Acme", 2, 1, "2024-13-01")).map(|_| ()),
        Err(Error::Validation)
    );
    assert_eq!(
        Entity::from(&form("Laptop", "Acme", 2, 1, "2023-02-29")).map(|_| ()),
        Err(Error::Validation)
    );
}

#[test]
fn warranty_addition_clamps_leap_day() {
    let e = Entity::from(&form("Laptop", "Acme", 1, 1, "2024-02-29")).unwrap();
    assert_eq!(e.warranty_at, day(2025, 2, 28));
    let e = Entity::from(&form("Laptop", "Acme", 4, 1, "2024-02-29")).unwrap();
    assert_eq!(e.warranty_at, day(2028, 2, 29));
}

#[test]
fn created_laptop_has_positive_id_and_running_warranty() {
    let mut db = Database::new();
    let e = Entity::from(&form("Laptop", "Acme", 2, 999_00, "2024-01-10")).unwrap();
    let today = day(2024, 6, 1);
    let saved = db.create(e, &today).unwrap();
    assert!(saved.id.unwrap() > 0);
    assert_eq!(saved.warranty_at, day(2026, 1, 10));
    // the current date still lies before 2026-01-10
    assert!(saved.warranty_active);
    let later = db.get(saved.id.unwrap(), &day(2026, 6, 1)).unwrap();
    assert!(!later.warranty_active);
}

#[test]
fn save_creates_row_then_writes_media() {
    let mut db = Database::new();
    let mut media = MediaStore::new();
    let today = day(2024, 6, 1);
    let mut f = form("Laptop", "Acme", 2, 999_00, "2024-01-10");
    f.photo = Some(vec![1, 2, 3]);
    f.notice = Some(vec![]);
    let saved = save(&mut db, &mut media, -1, &f, &today).unwrap().unwrap();
    let id = saved.id.unwrap();
    assert_eq!(media.open(id, MediaKind::Photo), Some(vec![1, 2, 3]));
    // an empty upload is "no replacement supplied", not a cleared field
    assert!(!media.has_media(id, MediaKind::Notice));
    assert!(!media.has_media(id, MediaKind::Invoice));
    assert!(db.get(id, &today).is_some());
}

#[test]
fn save_with_positive_id_updates_and_missing_id_is_none() {
    let mut db = Database::new();
    let mut media = MediaStore::new();
    let today = day(2024, 6, 1);
    let created = save(&mut db, &mut media, -1, &form("Laptop", "Acme", 2, 1, "2024-01-10"), &today)
        .unwrap()
        .unwrap();
    let id = created.id.unwrap();
    let mut f = form("Laptop Pro", "Acme", 2, 1, "2024-01-10");
    f.invoice = Some(vec![7]);
    let updated = save(&mut db, &mut media, id, &f, &today).unwrap().unwrap();
    assert_eq!(updated.id, Some(id));
    assert_eq!(updated.name, "Laptop Pro");
    assert_eq!(media.open(id, MediaKind::Invoice), Some(vec![7]));
    assert_eq!(save(&mut db, &mut media, 999, &f, &today), Ok(None));
}

#[test]
fn save_rejects_invalid_forms_without_touching_anything() {
    let mut db = Database::new();
    let mut media = MediaStore::new();
    let today = day(2024, 6, 1);
    let mut f = form("Laptop", "Acme", 2, 1, "never");
    f.photo = Some(vec![1]);
    assert_eq!(save(&mut db, &mut media, -1, &f, &today), Err(Error::Validation));
    let f = form("", "Acme", 2, 1, "2024-01-10");
    assert_eq!(save(&mut db, &mut media, -1, &f, &today), Err(Error::Validation));
    assert_eq!(db.rows.len(), 0);
    assert_eq!(media.entries.len(), 0);
}

#[test]
fn hard_delete_erases_row_and_every_artifact() {
    let mut db = Database::new();
    let mut media = MediaStore::new();
    let today = day(2024, 6, 1);
    let mut f = form("Laptop", "Acme", 2, 1, "2024-01-10");
    f.photo = Some(vec![1]);
    f.invoice = Some(vec![2]);
    let saved = save(&mut db, &mut media, -1, &f, &today).unwrap().unwrap();
    let id = saved.id.unwrap();
    assert!(media.has_media(id, MediaKind::Photo));

    let removed = hard_delete(&mut db, &mut media, id, &today).unwrap();
    assert_eq!(removed.id, Some(id));
    assert!(db.get(id, &today).is_none());
    assert!(!media.has_media(id, MediaKind::Photo));
    assert!(!media.has_media(id, MediaKind::Invoice));
    assert!(!media.has_media(id, MediaKind::Notice));
    // deleting again is an empty result
    assert!(hard_delete(&mut db, &mut media, id, &today).is_none());
}

#[test]
fn trash_keeps_media_so_untrash_restores_fully() {
    let mut db = Database::new();
    let mut media = MediaStore::new();
    let today = day(2024, 6, 1);
    let mut f = form("Laptop", "Acme", 2, 1, "2024-01-10");
    f.photo = Some(vec![1]);
    let saved = save(&mut db, &mut media, -1, &f, &today).unwrap().unwrap();
    let id = saved.id.unwrap();
    db.trash(id, &today);
    assert!(media.has_media(id, MediaKind::Photo));
    db.untrash(id, &today);
    assert_eq!(media.open(id, MediaKind::Photo), Some(vec![1]));
}
