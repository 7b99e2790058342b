use std::time::{SystemTime, UNIX_EPOCH};
use zjyo::database::ZDatabase;
use zjyo::entry::DirEntry;
use zjyo::rank::Rank;

fn rank(value: f64) -> Rank {
    Rank::from_micros((value * 1_000_000.0).round() as u64)
}

fn value(rank: Rank) -> f64 {
    rank.micros() as f64 / 1_000_000.0
}

fn now_secs() -> u64 {
    SystemTime::now().duration_since(UNIX_EPOCH).unwrap().as_secs()
}

fn rank_of(db: &ZDatabase, path: &str) -> f64 {
    value(db.get(path).unwrap().rank)
}

fn create_test_db() -> ZDatabase {
    let temp_file = format!(
        "/tmp/test_z_{}",
        SystemTime::now().duration_since(UNIX_EPOCH).unwrap().as_nanos()
    );
    let mut db = ZDatabase::new(temp_file);

    // Add some test entries
    let now = now_secs();
    db.insert(DirEntry::new("/home/user/projects".to_string(), rank(5.0), now - 1000));
    db.insert(DirEntry::new("/home/user/documents".to_string(), rank(3.0), now - 2000));
    db.insert(DirEntry::new("/home/user/downloads".to_string(), rank(7.0), now - 500));

    db
}

#[test]
fn test_dir_entry_frecency() {
    let now = now_secs();
    let entry = DirEntry::new("/test/path".to_string(), rank(10.0), now - 1000);
    let frecency = entry.frecency(now);
    assert!(frecency > 0);

    // More recent entry should have higher frecency than older one with same rank
    let recent_entry = DirEntry::new("/test/path2".to_string(), rank(10.0), now - 100);
    let recent_frecency = recent_entry.frecency(now);
    assert!(recent_frecency > frecency);
}

#[test]
fn test_database_add_new_directory() {
    let mut db = create_test_db();
    let initial_count = db.len();

    db.add("/new/directory", now_secs());

    assert_eq!(db.len(), initial_count + 1);
    assert!(db.contains_key("/new/directory"));
    assert_eq!(rank_of(&db, "/new/directory"), 1.0);
}

#[test]
fn test_database_add_existing_directory() {
    let mut db = create_test_db();
    let initial_rank = rank_of(&db, "/home/user/projects");

    db.add("/home/user/projects", now_secs());

    assert_eq!(rank_of(&db, "/home/user/projects"), initial_rank + 1.0);
}

#[test]
fn test_database_remove() {
    let mut db = create_test_db();
    assert!(db.contains_key("/home/user/projects"));

    db.remove("/home/user/projects");

    assert!(!db.contains_key("/home/user/projects"));
}

#[test]
fn test_find_matches_basic() {
    let db = create_test_db();

    let matches = db.find_matches("proj", None, now_secs());

    assert_eq!(matches.len(), 1);
    assert_eq!(matches[0].path, "/home/user/projects");
}

#[test]
fn test_find_matches_multiple() {
    let db = create_test_db();

    let matches = db.find_matches("user", None, now_secs());

    assert_eq!(matches.len(), 3);
    // Should be sorted by frecency (downloads is most recent, so highest frecency)
    assert_eq!(matches[0].path, "/home/user/downloads");
}

#[test]
fn test_find_matches_case_insensitive() {
    let db = create_test_db();

    let matches = db.find_matches("PROJ", None, now_secs());

    assert_eq!(matches.len(), 1);
    assert_eq!(matches[0].path, "/home/user/projects");
}

#[test]
fn test_find_by_rank() {
    let db = create_test_db();

    let matches = db.find_by_rank("user");

    assert_eq!(matches.len(), 3);
    // Should be sorted by rank (downloads has highest rank: 7.0)
    assert_eq!(matches[0].path, "/home/user/downloads");
    assert_eq!(matches[1].path, "/home/user/projects"); // rank 5.0
    assert_eq!(matches[2].path, "/home/user/documents"); // rank 3.0
}

#[test]
fn test_find_by_time() {
    let db = create_test_db();

    let matches = db.find_by_time("user");

    assert_eq!(matches.len(), 3);
    // Should be sorted by time (downloads is most recent)
    assert_eq!(matches[0].path, "/home/user/downloads");
}

#[test]
fn test_aging_when_rank_exceeds_limit() {
    let mut db = create_test_db();

    // Add entries to exceed 9000 total rank
    for i in 0..3000 {
        db.insert(DirEntry::new(format!("/test/path/{}", i), rank(3.5), now_secs()));
    }

    // Verify total rank exceeds 9000
    let total_rank: f64 = db.entries().iter().map(|e| value(e.rank)).sum();
    assert!(total_rank > 9000.0);

    let initial_count = db.len();
    db.add("/new/test/path", now_secs());

    // After aging, some entries should be removed (those with rank < 1.0 after multiplying by 0.99)
    assert!(db.len() <= initial_count);

    // All remaining entries should have rank >= 1.0
    for entry in db.entries().iter() {
        assert!(value(entry.rank) >= 1.0);
    }
}

#[test]
fn test_save_and_load() {
    let temp_file = format!(
        "/tmp/test_z_save_load_{}",
        SystemTime::now().duration_since(UNIX_EPOCH).unwrap().as_nanos()
    );
    let mut db = ZDatabase::new(temp_file.clone());

    // Add some test data
    let now = now_secs();
    db.insert(DirEntry::new("/test/path1".to_string(), rank(5.0), now));
    db.insert(DirEntry::new("/test/path2".to_string(), rank(3.0), now - 1000));

    // Save to text
    let text = db.save();

    // Create new database and load
    let mut db2 = ZDatabase::new(temp_file);
    db2.load(&text);

    // Should have same entries
    assert_eq!(db2.len(), 2);
    assert!(db2.contains_key("/test/path1"));
    assert!(db2.contains_key("/test/path2"));
    assert_eq!(rank_of(&db2, "/test/path1"), 5.0);
    assert_eq!(rank_of(&db2, "/test/path2"), 3.0);
}

#[test]
fn test_current_directory_restriction() {
    let mut db = create_test_db();
    db.insert(DirEntry::new("/home/user/projects/rust".to_string(), rank(2.0), now_secs()));

    let matches = db.find_matches("rust", Some("/home/user/projects"), now_secs());

    assert_eq!(matches.len(), 1);
    assert_eq!(matches[0].path, "/home/user/projects/rust");

    // Should not match if current dir doesn't match
    let matches = db.find_matches("rust", Some("/home/other"), now_secs());
    assert_eq!(matches.len(), 0);
}

#[test]
fn test_empty_pattern() {
    let db = create_test_db();

    let matches = db.find_matches("", None, now_secs());

    // Empty pattern should match all entries
    assert_eq!(matches.len(), 3);
}

#[test]
fn test_multi_word_pattern_matching() {
    let mut db = create_test_db();

    // Add some entries with more complex paths
    let now = now_secs();

    db.insert(DirEntry::new("/home/user/projects/rust-web-app".to_string(), rank(5.0), now));
    db.insert(DirEntry::new("/home/user/docs/api-reference".to_string(), rank(3.0), now));

    // Test multi-word matching
    let matches = db.find_matches("rust web", None, now);
    assert_eq!(matches.len(), 1);
    assert_eq!(matches[0].path, "/home/user/projects/rust-web-app");

    let matches = db.find_matches("api reference", None, now);
    assert_eq!(matches.len(), 1);
    assert_eq!(matches[0].path, "/home/user/docs/api-reference");

    // Test that both words must be present
    let matches = db.find_matches("rust database", None, now);
    assert_eq!(matches.len(), 0);

    // Test case insensitive multi-word matching
    let matches = db.find_matches("RUST WEB", None, now);
    assert_eq!(matches.len(), 1);
    assert_eq!(matches[0].path, "/home/user/projects/rust-web-app");
}

#[test]
fn tests_test_no_matches() {
    let db = create_test_db();

    let matches = db.find_matches("nonexistent", None, now_secs());

    assert_eq!(matches.len(), 0);
}
