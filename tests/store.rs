use bundle_valley::loader::{catalog_is_well_formed, seed_database};
use bundle_valley::models::{Bundle, Item, ProgressStats, StorageError};
use bundle_valley::store::Database;

fn bundle(id: &str, name: &str, room: &str, items: Vec<Item>) -> Bundle {
    Bundle {
        id: id.to_string(),
        name: name.to_string(),
        room: room.to_string(),
        required_items: items.len() as i32,
        items: Some(items),
    }
}

fn two_item_catalog() -> Vec<Bundle> {
    vec![bundle(
        "test",
        "Test Bundle",
        "Pantry",
        vec![Item::new("x", "test", "X"), Item::new("y", "test", "Y")],
    )]
}

fn percentage(stats: &ProgressStats) -> f32 {
    if stats.total_items > 0 {
        (stats.delivered_items as f32 / stats.total_items as f32) * 100.0
    } else {
        0.0
    }
}

fn statuses(db: &Database) -> Vec<(String, String)> {
    let mut out = Vec::new();
    for b in db.get_all_bundles_with_items() {
        for it in b.items.unwrap() {
            out.push((it.id, it.status));
        }
    }
    out
}

#[test]
fn item_new_starts_missing_without_quality() {
    let it = Item::new("spring_parsnip", "spring_crops", "Parsnip");
    assert_eq!(it.id, "spring_parsnip");
    assert_eq!(it.bundle_id, "spring_crops");
    assert_eq!(it.name, "Parsnip");
    assert_eq!(it.status, "missing");
    assert!(it.quality.is_none());
}

#[test]
fn item_new_with_quality_keeps_tag() {
    let it = Item::new_with_quality("quality_melon", "quality_crops", "Melon", "gold");
    assert_eq!(it.status, "missing");
    assert_eq!(it.quality.as_deref(), Some("gold"));
}

#[test]
fn insert_bundle_keeps_existing_on_duplicate_key() {
    let mut db = Database::new();
    db.insert_bundle(&bundle("b", "First", "Pantry", vec![]));
    db.insert_bundle(&bundle("b", "Second", "Vault", vec![]));
    let all = db.get_all_bundles();
    assert_eq!(all.len(), 1);
    assert_eq!(all[0].name, "First");
    assert_eq!(all[0].room, "Pantry");
    assert!(all[0].items.is_none());
}

#[test]
fn insert_item_keeps_existing_on_duplicate_key() {
    let mut db = Database::new();
    db.insert_bundle(&bundle("b", "B", "Pantry", vec![]));
    db.insert_item(&Item::new("i", "b", "Original"));
    db.insert_item(&Item::new("i", "b", "Other"));
    let listed = db.get_all_bundles_with_items();
    let items = listed[0].items.as_ref().unwrap();
    assert_eq!(items.len(), 1);
    assert_eq!(items[0].name, "Original");
    assert_eq!(db.get_progress_stats().total_items, 1);
}

#[test]
fn seeding_twice_equals_seeding_once() {
    let catalog = vec![
        bundle("a", "Alpha", "Vault", vec![Item::new("a1", "a", "Coin")]),
        bundle(
            "b",
            "Beta",
            "Pantry",
            vec![Item::new("b1", "b", "Parsnip"), Item::new_with_quality("b2", "b", "Melon", "gold")],
        ),
    ];
    let mut once = Database::new();
    seed_database(&mut once, &catalog);
    let mut twice = Database::new();
    seed_database(&mut twice, &catalog);
    seed_database(&mut twice, &catalog);
    let l1 = once.get_all_bundles_with_items();
    let l2 = twice.get_all_bundles_with_items();
    assert_eq!(l1.len(), 2);
    assert_eq!(l1.len(), l2.len());
    for (x, y) in l1.iter().zip(l2.iter()) {
        assert_eq!(x.id, y.id);
        let xi: Vec<&String> = x.items.as_ref().unwrap().iter().map(|i| &i.id).collect();
        let yi: Vec<&String> = y.items.as_ref().unwrap().iter().map(|i| &i.id).collect();
        assert_eq!(xi, yi);
    }
    assert_eq!(once.get_progress_stats(), twice.get_progress_stats());
    assert_eq!(twice.get_progress_stats().total_items, 3);
}

#[test]
fn seeding_skips_a_store_that_has_bundles() {
    let mut db = Database::new();
    db.insert_bundle(&bundle("own", "Own", "Crafts Room", vec![]));
    seed_database(&mut db, &two_item_catalog());
    let all = db.get_all_bundles();
    assert_eq!(all.len(), 1);
    assert_eq!(all[0].id, "own");
    assert_eq!(db.get_progress_stats().total_items, 0);
}

#[test]
fn invalid_status_is_refused_and_changes_nothing() {
    let mut db = Database::new();
    seed_database(&mut db, &two_item_catalog());
    db.update_item_status("x", "collected").unwrap();
    let before = statuses(&db);
    for bad in ["done", "", "Delivered", "missing "] {
        match db.update_item_status("x", bad) {
            Err(StorageError::InvalidInput(s)) => assert_eq!(s, bad),
            other => panic!("expected InvalidInput, got {:?}", other),
        }
        assert_eq!(statuses(&db), before);
    }
}

#[test]
fn unknown_key_update_is_a_no_op() {
    let mut db = Database::new();
    seed_database(&mut db, &two_item_catalog());
    let before = statuses(&db);
    assert!(db.update_item_status("nonexistent", "collected").is_ok());
    assert_eq!(statuses(&db), before);
}

#[test]
fn stats_of_empty_store_are_zero() {
    let db = Database::new();
    let stats = db.get_progress_stats();
    assert_eq!(
        stats,
        ProgressStats {
            total_items: 0,
            collected_items: 0,
            delivered_items: 0,
            bundles_completed: 0,
            total_bundles: 0,
        }
    );
    assert_eq!(percentage(&stats), 0.0);
}

#[test]
fn bundle_completes_only_when_all_items_delivered() {
    let mut db = Database::new();
    seed_database(&mut db, &two_item_catalog());
    assert_eq!(db.get_progress_stats().bundles_completed, 0);
    db.update_item_status("x", "delivered").unwrap();
    db.update_item_status("y", "missing").unwrap();
    assert_eq!(db.get_progress_stats().bundles_completed, 0);
    db.update_item_status("y", "delivered").unwrap();
    let stats = db.get_progress_stats();
    assert_eq!(stats.bundles_completed, 1);
    assert_eq!(stats.total_bundles, 1);
    assert_eq!(stats.delivered_items, 2);
    assert_eq!(percentage(&stats), 100.0);
}

#[test]
fn bundle_without_items_is_never_completed() {
    let mut db = Database::new();
    db.insert_bundle(&bundle("empty", "Empty", "Vault", vec![]));
    let stats = db.get_progress_stats();
    assert_eq!(stats.bundles_completed, 0);
    assert_eq!(stats.total_bundles, 1);
}

#[test]
fn listing_is_ordered_regardless_of_insertion_order() {
    let mut db = Database::new();
    db.insert_bundle(&bundle("v1", "Zeta", "Vault", vec![]));
    db.insert_bundle(&bundle("p2", "Summer", "Pantry", vec![]));
    db.insert_bundle(&bundle("p1", "Spring", "Pantry", vec![]));
    db.insert_bundle(&bundle("b1", "Alpha", "Boiler Room", vec![]));
    db.insert_item(&Item::new("s3", "p1", "Potato"));
    db.insert_item(&Item::new("s1", "p1", "Cauliflower"));
    db.insert_item(&Item::new("s2", "p1", "Green Bean"));
    db.insert_item(&Item::new("t1", "p2", "Tomato"));
    let listed = db.get_all_bundles_with_items();
    let ids: Vec<&str> = listed.iter().map(|b| b.id.as_str()).collect();
    assert_eq!(ids, vec!["b1", "p1", "p2", "v1"]);
    let names: Vec<&str> = listed[1].items.as_ref().unwrap().iter().map(|i| i.name.as_str()).collect();
    assert_eq!(names, vec!["Cauliflower", "Green Bean", "Potato"]);
    assert_eq!(listed[0].items.as_ref().unwrap().len(), 0);
    assert_eq!(listed[2].items.as_ref().unwrap().len(), 1);
}

#[test]
fn percentage_of_one_in_three() {
    let mut db = Database::new();
    db.insert_bundle(&bundle("b", "B", "Pantry", vec![]));
    db.insert_item(&Item::new("i1", "b", "One"));
    db.insert_item(&Item::new("i2", "b", "Two"));
    db.insert_item(&Item::new("i3", "b", "Three"));
    db.update_item_status("i2", "delivered").unwrap();
    let stats = db.get_progress_stats();
    assert_eq!(stats.total_items, 3);
    assert_eq!(stats.delivered_items, 1);
    let pct = percentage(&stats);
    assert!((pct - 33.333_332).abs() < 1e-4);
    assert_ne!(pct, 33.33);
}

#[test]
fn collected_items_are_counted_apart_from_delivered() {
    let mut db = Database::new();
    seed_database(&mut db, &two_item_catalog());
    db.update_item_status("x", "collected").unwrap();
    let stats = db.get_progress_stats();
    assert_eq!(stats.collected_items, 1);
    assert_eq!(stats.delivered_items, 0);
    assert_eq!(stats.total_items, 2);
}

#[test]
fn lookups_report_stored_keys() {
    let mut db = Database::new();
    seed_database(&mut db, &two_item_catalog());
    assert!(db.has_bundle("test"));
    assert!(!db.has_bundle("x"));
    assert!(db.has_item("y"));
    assert!(!db.has_item("test"));
}

#[test]
fn catalog_check_accepts_a_well_formed_catalog() {
    assert!(catalog_is_well_formed(&two_item_catalog()));
    assert!(catalog_is_well_formed(&Vec::new()));
}

#[test]
fn catalog_check_refuses_duplicate_keys_and_foreign_items() {
    let dup_bundle = vec![
        bundle("a", "A", "Pantry", vec![]),
        bundle("a", "B", "Vault", vec![]),
    ];
    assert!(!catalog_is_well_formed(&dup_bundle));
    let dup_item = vec![
        bundle("a", "A", "Pantry", vec![Item::new("i", "a", "One")]),
        bundle("b", "B", "Pantry", vec![Item::new("i", "b", "Two")]),
    ];
    assert!(!catalog_is_well_formed(&dup_item));
    let foreign = vec![bundle("a", "A", "Pantry", vec![Item::new("i", "b", "One")])];
    assert!(!catalog_is_well_formed(&foreign));
    let mut bad_status = Item::new("i", "a", "One");
    bad_status.status = "lost".to_string();
    assert!(!catalog_is_well_formed(&vec![bundle("a", "A", "Pantry", vec![bad_status])]));
}
