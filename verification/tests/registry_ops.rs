use recent_registry::entry::RecentFile;
use recent_registry::store::MemStore;

fn paths_of(files: &Vec<RecentFile>) -> Vec<String> {
    files.iter().map(|f| f.path.clone()).collect()
}

#[test]
fn front_insert_puts_new_entry_first() {
    let mut store = MemStore::new();
    store.add_recent_file_at("/x.draw".to_string(), "X".to_string(), 10);
    store.add_recent_file_at("/y.draw".to_string(), "Y".to_string(), 11);
    let files = store.get_recent_files().unwrap();
    assert_eq!(files[0].path, "/y.draw");
    assert_eq!(files[0].name, "Y");
    assert_eq!(files[0].last_opened, 11);
}

#[test]
fn dedup_keeps_one_entry_with_latest_name() {
    let mut store = MemStore::new();
    store.add_recent_file_at("/p.draw".to_string(), "n1".to_string(), 1);
    store.add_recent_file_at("/p.draw".to_string(), "n2".to_string(), 2);
    let files = store.get_recent_files().unwrap();
    assert_eq!(files.len(), 1);
    assert_eq!(files[0].path, "/p.draw");
    assert_eq!(files[0].name, "n2");
    assert_eq!(files[0].last_opened, 2);
}

#[test]
fn capacity_evicts_oldest_after_21_distinct_upserts() {
    let mut store = MemStore::new();
    for i in 0..21 {
        store.add_recent_file_at(format!("/f{}.draw", i), format!("f{}", i), i as i64);
    }
    let files = store.get_recent_files().unwrap();
    assert_eq!(files.len(), 20);
    let paths = paths_of(&files);
    assert!(!paths.contains(&"/f0.draw".to_string()));
    assert_eq!(files[0].path, "/f20.draw");
    assert_eq!(files[19].path, "/f1.draw");
}

#[test]
fn remove_preserves_order_of_remaining_entries() {
    let mut store = MemStore::new();
    for i in 0..5 {
        store.add_recent_file_at(format!("/f{}.draw", i), format!("f{}", i), i as i64);
    }
    // current order: f4 f3 f2 f1 f0; remove the middle entry f2
    store.remove_recent_file(&"/f2.draw".to_string());
    let files = store.get_recent_files().unwrap();
    let paths = paths_of(&files);
    assert_eq!(paths, vec!["/f4.draw", "/f3.draw", "/f1.draw", "/f0.draw"]);
}

#[test]
fn clear_deletes_the_resource_but_remove_keeps_it() {
    let mut store = MemStore::new();
    store.add_recent_file_at("/only.draw".to_string(), "only".to_string(), 7);
    assert!(store.content.is_some());
    store.clear_recent_files();
    assert!(store.content.is_none());

    let mut store2 = MemStore::new();
    store2.add_recent_file_at("/only.draw".to_string(), "only".to_string(), 7);
    store2.remove_recent_file(&"/only.draw".to_string());
    assert!(store2.content.is_some());
    let files = store2.get_recent_files().unwrap();
    assert_eq!(files.len(), 0);
}

#[test]
fn exactly_20_distinct_upserts_keep_all_entries() {
    let mut store = MemStore::new();
    for i in 0..20 {
        store.add_recent_file_at(format!("/f{}.draw", i), format!("f{}", i), i as i64);
    }
    let files = store.get_recent_files().unwrap();
    assert_eq!(files.len(), 20);
    assert_eq!(files[19].path, "/f0.draw");
}

#[test]
fn reinsert_when_full_evicts_nothing_else() {
    let mut store = MemStore::new();
    for i in 0..20 {
        store.add_recent_file_at(format!("/f{}.draw", i), format!("f{}", i), i as i64);
    }
    store.add_recent_file_at("/f5.draw".to_string(), "again".to_string(), 99);
    let files = store.get_recent_files().unwrap();
    assert_eq!(files.len(), 20);
    assert_eq!(files[0].path, "/f5.draw");
    assert_eq!(files[0].name, "again");
    let paths = paths_of(&files);
    assert!(paths.contains(&"/f0.draw".to_string()));
    assert!(paths.contains(&"/f19.draw".to_string()));
}

#[test]
fn remove_on_missing_resource_is_a_noop() {
    let mut store = MemStore::new();
    store.remove_recent_file(&"/nothing.draw".to_string());
    assert!(store.content.is_none());
    let files = store.get_recent_files().unwrap();
    assert_eq!(files.len(), 0);
}

#[test]
fn scenario_a_two_inserts() {
    let mut store = MemStore::new();
    store.add_recent_file_at("/a.draw".to_string(), "A".to_string(), 1);
    store.add_recent_file_at("/b.draw".to_string(), "B".to_string(), 2);
    let files = store.get_recent_files().unwrap();
    assert_eq!(files.len(), 2);
    assert_eq!(files[0].path, "/b.draw");
    assert_eq!(files[0].name, "B");
    assert_eq!(files[1].path, "/a.draw");
    assert_eq!(files[1].name, "A");
}

#[test]
fn scenario_b_reinsert_moves_to_front() {
    let mut store = MemStore::new();
    store.add_recent_file_at("/a.draw".to_string(), "A".to_string(), 1);
    store.add_recent_file_at("/b.draw".to_string(), "B".to_string(), 2);
    store.add_recent_file_at("/a.draw".to_string(), "A2".to_string(), 3);
    let files = store.get_recent_files().unwrap();
    assert_eq!(files.len(), 2);
    assert_eq!(files[0].path, "/a.draw");
    assert_eq!(files[0].name, "A2");
    assert_eq!(files[1].path, "/b.draw");
    assert_eq!(files[1].name, "B");
}

#[test]
fn scenario_c_corrupt_content_fails_read_but_heals_on_write() {
    let store = MemStore { content: Some("{not json".to_string()) };
    assert!(store.get_recent_files().is_err());

    let mut store = MemStore { content: Some("{not json".to_string()) };
    store.add_recent_file_at("/c.draw".to_string(), "C".to_string(), 9);
    let files = store.get_recent_files().unwrap();
    assert_eq!(files.len(), 1);
    assert_eq!(files[0].path, "/c.draw");
    assert_eq!(files[0].name, "C");
}

#[test]
fn add_with_wall_clock_succeeds_and_reads_back() {
    let mut store = MemStore::new();
    store.add_recent_file("/now.draw".to_string(), "now".to_string());
    let files = store.get_recent_files().unwrap();
    assert_eq!(files.len(), 1);
    assert_eq!(files[0].path, "/now.draw");
    assert!(files[0].last_opened >= 0);
}

#[test]
fn clock_reads_nonnegative() {
    let t = recent_registry::clock::chrono_timestamp();
    assert!(t >= 0);
}

#[test]
fn timestamp_passes_readable_seconds_through() {
    assert_eq!(recent_registry::clock::timestamp_from(Some(1700000000)), 1700000000);
    assert_eq!(recent_registry::clock::timestamp_from(Some(0)), 0);
    assert_eq!(recent_registry::clock::timestamp_from(Some(i64::MAX as u64)), i64::MAX);
}

#[test]
fn timestamp_degrades_to_fallback_on_unreadable_clock() {
    assert_eq!(recent_registry::clock::timestamp_from(None), 0);
    assert_eq!(recent_registry::clock::timestamp_from(Some(u64::MAX)), 0);
    assert_eq!(recent_registry::clock::timestamp_from(Some(i64::MAX as u64 + 1)), 0);
}

#[test]
fn effective_dimension_prefers_positive_request() {
    assert_eq!(recent_registry::export::effective_dimension(640, 100), 640);
    assert_eq!(recent_registry::export::effective_dimension(0, 100), 100);
}
