use football_coach_poc::export::ExportMetadata;
use football_coach_poc::library::{first_matching_original, sanitize_file_name, LibraryDb, LibraryItem, MediaKind};

fn entry(id: &str, kind: MediaKind, path: &str, secs: i64, nanos: u32, note: u32) -> LibraryItem<u32> {
    LibraryItem {
        id: id.to_string(),
        kind,
        file_path: path.to_string(),
        created_at: (secs, nanos),
        details: note,
    }
}

#[test]
fn media_kind_labels() {
    assert_eq!(MediaKind::Original.label(), "Original");
    assert_eq!(MediaKind::Trimmed.label(), "Trimmed");
}

#[test]
fn file_names_are_sanitized() {
    assert_eq!(sanitize_file_name("My Match: Final!"), "my-match--final");
    assert_eq!(sanitize_file_name("--Clip 01--"), "clip-01");
    assert_eq!(sanitize_file_name("Ünïcode Team"), "n-code-team");
    assert_eq!(sanitize_file_name("!!!"), "");
    assert_eq!(sanitize_file_name(""), "");
    let once = sanitize_file_name("Derby  (2nd half)");
    assert_eq!(once, "derby---2nd-half");
    assert_eq!(sanitize_file_name(&once), once);
}

#[test]
fn upsert_orders_newest_first_and_replaces_by_id() {
    let mut db: LibraryDb<u32> = LibraryDb::new();
    assert!(db.items().is_empty());
    db.upsert_item(entry("a", MediaKind::Original, "/v/a.mp4", 100, 0, 1));
    db.upsert_item(entry("b", MediaKind::Trimmed, "/v/b.mp4", 300, 0, 2));
    db.upsert_item(entry("c", MediaKind::Original, "/v/c.mp4", 200, 5, 3));
    let ids: Vec<&str> = db.items().iter().map(|e| e.id.as_str()).collect();
    assert_eq!(ids, vec!["b", "c", "a"]);

    db.upsert_item(entry("a", MediaKind::Original, "/v/a2.mp4", 400, 0, 4));
    let ids: Vec<&str> = db.items().iter().map(|e| e.id.as_str()).collect();
    assert_eq!(ids, vec!["a", "b", "c"]);
    assert_eq!(db.items()[0].file_path, "/v/a2.mp4");
    assert_eq!(db.items()[0].details, 4);
    assert_eq!(db.items().iter().filter(|e| e.id == "a").count(), 1);
}

#[test]
fn upsert_keeps_insertion_order_for_equal_instants() {
    let mut db: LibraryDb<u32> = LibraryDb::new();
    db.upsert_item(entry("x", MediaKind::Original, "/x", 50, 7, 0));
    db.upsert_item(entry("y", MediaKind::Original, "/y", 50, 7, 0));
    db.upsert_item(entry("z", MediaKind::Original, "/z", 50, 8, 0));
    let ids: Vec<&str> = db.items().iter().map(|e| e.id.as_str()).collect();
    assert_eq!(ids, vec!["z", "x", "y"]);
}

#[test]
fn find_original_matches_only_originals() {
    let mut db: LibraryDb<u32> = LibraryDb::new();
    db.upsert_item(entry("t", MediaKind::Trimmed, "/v/game.mp4", 30, 0, 0));
    db.upsert_item(entry("o", MediaKind::Original, "/v/game.mp4", 20, 0, 0));
    db.upsert_item(entry("p", MediaKind::Original, "/v/other.mp4", 10, 0, 0));
    assert_eq!(db.find_original("/v/game.mp4"), Some(1));
    assert_eq!(db.find_original("/v/other.mp4"), Some(2));
    assert_eq!(db.find_original("/v/missing.mp4"), None);
}

#[test]
fn find_original_compares_as_paths() {
    let mut db: LibraryDb<u32> = LibraryDb::new();
    db.upsert_item(entry("a", MediaKind::Original, "/v/other.mp4", 30, 0, 0));
    db.upsert_item(entry("b", MediaKind::Original, "/v//game.mp4", 20, 0, 0));
    db.upsert_item(entry("c", MediaKind::Original, "/v/game.mp4", 10, 0, 0));
    assert_eq!(db.find_original("/v/game.mp4"), Some(1));
    assert_eq!(db.find_original("/v/./other.mp4"), Some(0));
}

#[test]
fn first_matching_original_picks_first_original_match() {
    assert_eq!(first_matching_original(&vec![MediaKind::Original, MediaKind::Trimmed, MediaKind::Original], &vec![false, true, true]), Some(2));
    assert_eq!(first_matching_original(&vec![MediaKind::Original, MediaKind::Original], &vec![true, true]), Some(0));
    assert_eq!(first_matching_original(&vec![MediaKind::Trimmed, MediaKind::Original], &vec![true, false]), None);
    assert_eq!(first_matching_original(&vec![], &vec![]), None);
}

#[test]
fn registering_twice_gives_back_the_same_entry() {
    let mut db: LibraryDb<u32> = LibraryDb::new();
    db.upsert_item(entry("t", MediaKind::Trimmed, "/v/game.mp4", 5, 0, 0));
    assert_eq!(db.register_original("/v/game.mp4", entry("n1", MediaKind::Original, "/v/game.mp4", 9, 0, 1)), None);
    let before: Vec<String> = db.items().iter().map(|e| e.id.clone()).collect();
    assert_eq!(before, vec!["n1".to_string(), "t".to_string()]);
    let again = db.register_original("/v/game.mp4", entry("n2", MediaKind::Original, "/v/game.mp4", 12, 0, 2));
    assert_eq!(again, Some(0));
    assert_eq!(db.items()[0].id, "n1");
    let after: Vec<String> = db.items().iter().map(|e| e.id.clone()).collect();
    assert_eq!(after, before);
}

#[test]
fn export_metadata_keeps_its_parts() {
    let m = ExportMetadata::new("/clips/match.mp4", "2024-05-01T10:00:00Z".to_string(), "0.1.0");
    assert_eq!(m.video_path, "/clips/match.mp4");
    assert_eq!(m.export_time, "2024-05-01T10:00:00Z");
    assert_eq!(m.version, "0.1.0");
}
