//! Behaviour of the repository: listing, pagination, the trash lifecycle,
//! and shop enumeration.

use sav::{Database, Date, Entity, Error, FormData};

fn day(year: i64, month: u8, d: u8) -> Date {
    Date { year, month, day: d }
}

fn form(name: &str, shop: &str, warranty: i32, price: i64, created_at: &str) -> FormData {
    FormData {
        id: None,
        created_at: created_at.to_string(),
        serial: None,
        name: name.to_string(),
        url: None,
        shop: shop.to_string(),
        warranty,
        price,
        photo: None,
        invoice: None,
        notice: None,
    }
}

fn seed(db: &mut Database, name: &str, shop: &str, created_at: &str) -> Entity {
    let e = Entity::from(&form(name, shop, 2, 100_00, created_at)).unwrap();
    db.create(e, &day(2024, 6, 1)).unwrap()
}

#[test]
fn create_assigns_sequential_ids() {
    let mut db = Database::new();
    let a = seed(&mut db, "Laptop", "Acme", "2024-01-10");
    let b = seed(&mut db, "Phone", "Acme", "2024-02-10");
    assert_eq!(a.id, Some(1));
    assert_eq!(b.id, Some(2));
}

#[test]
fn create_rejects_empty_name_and_shop() {
    let mut db = Database::new();
    let today = day(2024, 6, 1);
    let e = Entity::from(&form("", "Acme", 1, 100, "2024-01-10")).unwrap();
    assert_eq!(db.create(e, &today), Err(Error::Validation));
    let e = Entity::from(&form("Laptop", "", 1, 100, "2024-01-10")).unwrap();
    assert_eq!(db.create(e, &today), Err(Error::Validation));
    assert_eq!(db.rows.len(), 0);
}

#[test]
fn create_reports_exhausted_id_space_as_storage_error() {
    let mut db = Database {
        rows: vec![],
        next_id: i32::MAX,
    };
    let e = Entity::from(&form("Laptop", "Acme", 1, 100, "2024-01-10")).unwrap();
    assert_eq!(db.create(e, &day(2024, 6, 1)), Err(Error::Storage));
}

#[test]
fn create_clears_caller_supplied_trash_state() {
    let mut db = Database::new();
    let mut e = Entity::from(&form("Laptop", "Acme", 1, 100, "2024-01-10")).unwrap();
    e.trashed_at = Some(day(2023, 1, 1));
    e.trashed = true;
    let saved = db.create(e, &day(2024, 6, 1)).unwrap();
    assert_eq!(saved.trashed_at, None);
    assert!(!saved.trashed);
}

#[test]
fn get_finds_by_id_and_reports_absence_as_none() {
    let mut db = Database::new();
    let today = day(2024, 6, 1);
    let a = seed(&mut db, "Laptop", "Acme", "2024-01-10");
    let found = db.get(a.id.unwrap(), &today).unwrap();
    assert_eq!(found.name, "Laptop");
    assert_eq!(found.created_at, day(2024, 1, 10));
    assert!(db.get(999, &today).is_none());
}

#[test]
fn update_replaces_fields_but_never_trash_state() {
    let mut db = Database::new();
    let today = day(2024, 6, 1);
    let a = seed(&mut db, "Laptop", "Acme", "2024-01-10");
    let id = a.id.unwrap();
    db.trash(id, &day(2024, 3, 1));

    let mut replacement = Entity::from(&form("Laptop Pro", "Bmart", 3, 200_00, "2024-02-02")).unwrap();
    // even an explicit attempt to clear the trash state through update is ignored
    replacement.trashed_at = None;
    let updated = db.update(id, replacement, &today).unwrap().unwrap();
    assert_eq!(updated.name, "Laptop Pro");
    assert_eq!(updated.shop, "Bmart");
    assert_eq!(updated.created_at, day(2024, 2, 2));
    assert_eq!(updated.trashed_at, Some(day(2024, 3, 1)));
    assert!(updated.trashed);
}

#[test]
fn update_of_absent_id_is_none_and_validation_still_fails() {
    let mut db = Database::new();
    let today = day(2024, 6, 1);
    seed(&mut db, "Laptop", "Acme", "2024-01-10");
    let e = Entity::from(&form("X", "Y", 1, 1, "2024-01-01")).unwrap();
    assert_eq!(db.update(42, e, &today), Ok(None));
    let bad = Entity::from(&form("", "Y", 1, 1, "2024-01-01")).unwrap();
    assert_eq!(db.update(1, bad, &today), Err(Error::Validation));
}

#[test]
fn delete_removes_permanently() {
    let mut db = Database::new();
    let today = day(2024, 6, 1);
    let a = seed(&mut db, "Laptop", "Acme", "2024-01-10");
    let id = a.id.unwrap();
    let removed = db.delete(id, &today).unwrap();
    assert_eq!(removed.name, "Laptop");
    assert!(db.get(id, &today).is_none());
    // gone is terminal: no operation revives or changes the record
    assert!(db.delete(id, &today).is_none());
    assert!(db.trash(id, &today).is_none());
    assert!(db.untrash(id, &today).is_none());
}

#[test]
fn listing_is_ordered_by_date_then_id_descending() {
    let mut db = Database::new();
    let today = day(2024, 6, 1);
    seed(&mut db, "Oldest", "A", "2023-01-01");
    seed(&mut db, "Tie Low", "A", "2024-01-01");
    seed(&mut db, "Tie High", "A", "2024-01-01");
    seed(&mut db, "Newest", "A", "2024-05-05");
    let page = db.all(None, 1, 50, false, &today);
    let names: Vec<&str> = page.items.iter().map(|e| e.name.as_str()).collect();
    // ties on 2024-01-01 broken by id descending: "Tie High" (id 3) first
    assert_eq!(names, vec!["Newest", "Tie High", "Tie Low", "Oldest"]);
    assert_eq!(page.total, 4);
}

#[test]
fn listing_filters_by_name_case_insensitively() {
    let mut db = Database::new();
    let today = day(2024, 6, 1);
    seed(&mut db, "Laptop", "Acme", "2024-01-10");
    seed(&mut db, "Phone", "Acme", "2024-01-11");
    seed(&mut db, "LAPTOP stand", "Acme", "2024-01-12");
    let page = db.all(Some("laptop".to_string()), 1, 50, false, &today);
    assert_eq!(page.total, 2);
    let names: Vec<&str> = page.items.iter().map(|e| e.name.as_str()).collect();
    assert_eq!(names, vec!["LAPTOP stand", "Laptop"]);
    // the empty query matches every row
    let page = db.all(Some(String::new()), 1, 50, false, &today);
    assert_eq!(page.total, 3);
}

#[test]
fn listing_partitions_by_trash_state() {
    let mut db = Database::new();
    let today = day(2024, 6, 1);
    let a = seed(&mut db, "Laptop", "Acme", "2024-01-10");
    seed(&mut db, "Phone", "Acme", "2024-01-11");
    db.trash(a.id.unwrap(), &today);

    let active = db.all(None, 1, 50, false, &today);
    assert_eq!(active.total, 1);
    assert!(active.items.iter().all(|e| e.trashed_at.is_none() && !e.trashed));
    assert!(active.items.iter().all(|e| e.id != a.id));

    let trashed = db.all(None, 1, 50, true, &today);
    assert_eq!(trashed.total, 1);
    assert!(trashed.items.iter().all(|e| e.trashed_at.is_some() && e.trashed));
    assert!(trashed.items.iter().any(|e| e.id == a.id));
}

#[test]
fn untrash_restores_listing_visibility() {
    let mut db = Database::new();
    let today = day(2024, 6, 1);
    let a = seed(&mut db, "Laptop", "Acme", "2024-01-10");
    let id = a.id.unwrap();
    db.trash(id, &today);
    db.untrash(id, &today);
    let active = db.all(None, 1, 50, false, &today);
    assert!(active.items.iter().any(|e| e.id == Some(id)));
    let trashed = db.all(None, 1, 50, true, &today);
    assert_eq!(trashed.total, 0);
}

#[test]
fn pagination_of_120_records_with_limit_50() {
    let mut db = Database::new();
    let today = day(2024, 6, 1);
    for i in 0..120 {
        let m = (i % 12) as u8 + 1;
        let d = (i % 28) as u8 + 1;
        let date = format!("2023-{:02}-{:02}", m, d);
        seed(&mut db, &format!("Item {}", i), "Acme", &date);
    }
    let counts: Vec<usize> = (1..=4)
        .map(|p| db.all(None, p, 50, false, &today).items.len())
        .collect();
    assert_eq!(counts, vec![50, 50, 20, 0]);
    for p in 1..=4 {
        assert_eq!(db.all(None, p, 50, false, &today).total, 120);
    }
}

#[test]
fn page_past_the_end_is_empty_not_an_error() {
    let mut db = Database::new();
    let today = day(2024, 6, 1);
    seed(&mut db, "Laptop", "Acme", "2024-01-10");
    let page = db.all(None, 99, 50, false, &today);
    assert_eq!(page.items.len(), 0);
    assert_eq!(page.total, 1);
    assert_eq!(page.page, 99);
    assert_eq!(page.limit, 50);
}

#[test]
fn trash_twice_still_trashed_and_untrash_of_active_is_a_noop() {
    let mut db = Database::new();
    let a_day = day(2024, 3, 1);
    let b_day = day(2024, 4, 1);
    let a = seed(&mut db, "Laptop", "Acme", "2024-01-10");
    let id = a.id.unwrap();

    let first = db.trash(id, &a_day).unwrap();
    assert!(first.trashed);
    let second = db.trash(id, &b_day).unwrap();
    assert!(second.trashed);
    assert_eq!(second.trashed_at, Some(b_day));

    db.untrash(id, &b_day).unwrap();
    let before = db.get(id, &b_day).unwrap();
    let restored = db.untrash(id, &b_day).unwrap();
    assert!(!restored.trashed);
    assert_eq!(restored.trashed_at, None);
    let after = db.get(id, &b_day).unwrap();
    assert_eq!(before.trashed_at, after.trashed_at);
    assert_eq!(before.name, after.name);
}

#[test]
fn trash_of_absent_id_is_none() {
    let mut db = Database::new();
    let today = day(2024, 6, 1);
    assert!(db.trash(7, &today).is_none());
    assert!(db.untrash(7, &today).is_none());
}

#[test]
fn shops_are_distinct_sorted_and_ignore_trash_state() {
    let mut db = Database::new();
    let today = day(2024, 6, 1);
    seed(&mut db, "A", "Zebra Mart", "2024-01-01");
    let b = seed(&mut db, "B", "Acme", "2024-01-02");
    seed(&mut db, "C", "Acme", "2024-01-03");
    seed(&mut db, "D", "Midway", "2024-01-04");
    db.trash(b.id.unwrap(), &today);
    let shops = db.shops();
    assert_eq!(shops, vec!["Acme", "Midway", "Zebra Mart"]);
}

#[test]
fn shops_sort_by_code_point_and_keep_case_variants_apart() {
    let mut db = Database::new();
    seed(&mut db, "A", "apple", "2024-01-01");
    seed(&mut db, "B", "Apple", "2024-01-02");
    seed(&mut db, "C", "apple", "2024-01-03");
    // upper-case code points come first; the two spellings are distinct
    assert_eq!(db.shops(), vec!["Apple", "apple"]);
}

#[test]
fn empty_repository_lists_nothing_and_knows_no_shops() {
    let db = Database::new();
    let today = day(2024, 6, 1);
    let page = db.all(None, 1, 50, false, &today);
    assert_eq!(page.total, 0);
    assert_eq!(page.items.len(), 0);
    assert!(db.shops().is_empty());
}

#[test]
fn derived_fields_are_recomputed_at_read_time() {
    let mut db = Database::new();
    let a = seed(&mut db, "Laptop", "Acme", "2024-01-10");
    let id = a.id.unwrap();
    // warranty of 2 years from 2024-01-10 runs until 2026-01-10
    let before = db.get(id, &day(2026, 1, 9)).unwrap();
    assert!(before.warranty_active);
    let at = db.get(id, &day(2026, 1, 10)).unwrap();
    assert!(!at.warranty_active);
    assert_eq!(at.warranty_at, day(2026, 1, 10));
}
