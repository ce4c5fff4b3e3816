use steam_saves::manifest::{Condition, FileEntry, FileTable, GameData, ManifestDatabase, SteamInfo};

fn entry_tagged(tag: &str) -> FileEntry {
    FileEntry { tags: Some(vec![tag.to_string()]), when: None }
}

fn record(id: Option<u64>, marker: &str) -> GameData {
    let mut files = FileTable::new();
    files.insert(marker.to_string(), entry_tagged("save"));
    GameData { files: Some(files), steam: id.map(SteamInfo::new) }
}

#[test]
fn steam_info_keeps_its_id() {
    assert_eq!(SteamInfo::new(42).id(), 42);
    assert_eq!(SteamInfo::new(u64::MAX).id(), u64::MAX);
}

#[test]
fn new_file_table_is_empty() {
    let files = FileTable::new();
    assert_eq!(files.len(), 0);
    assert_eq!(files.get("a"), None);
}

#[test]
fn file_table_keeps_the_order_of_insertion() {
    let mut files = FileTable::new();
    assert_eq!(files.insert("b".to_string(), entry_tagged("1")), None);
    assert_eq!(files.insert("a".to_string(), entry_tagged("2")), None);
    assert_eq!(files.insert("c".to_string(), entry_tagged("3")), None);
    assert_eq!(files.len(), 3);
    assert_eq!(files.entry(0), ("b", &entry_tagged("1")));
    assert_eq!(files.entry(1), ("a", &entry_tagged("2")));
    assert_eq!(files.entry(2), ("c", &entry_tagged("3")));
}

#[test]
fn file_table_insert_replaces_an_entry_in_place() {
    let mut files = FileTable::new();
    files.insert("b".to_string(), entry_tagged("1"));
    files.insert("a".to_string(), entry_tagged("2"));
    assert_eq!(files.insert("b".to_string(), entry_tagged("3")), Some(entry_tagged("1")));
    assert_eq!(files.len(), 2);
    assert_eq!(files.entry(0), ("b", &entry_tagged("3")));
    assert_eq!(files.entry(1), ("a", &entry_tagged("2")));
    assert_eq!(files.get("b"), Some(&entry_tagged("3")));
}

#[test]
fn file_table_get_finds_by_path() {
    let mut files = FileTable::new();
    files.insert("save/profile.dat".to_string(), entry_tagged("save"));
    files.insert("config.ini".to_string(), entry_tagged("config"));
    assert_eq!(files.get("config.ini"), Some(&entry_tagged("config")));
    assert_eq!(files.get("save/profile.dat"), Some(&entry_tagged("save")));
    assert_eq!(files.get("Config.ini"), None);
    assert_eq!(files.get(""), None);
}

#[test]
fn database_finds_a_game_by_its_id() {
    let database = ManifestDatabase::build(vec![record(Some(7), "seven"), record(Some(9), "nine")]);
    assert_eq!(database.get(7), Some(&record(Some(7), "seven")));
    assert_eq!(database.get(9), Some(&record(Some(9), "nine")));
    assert_eq!(database.get(8), None);
    assert_eq!(database.get(0), None);
}

#[test]
fn later_record_with_the_same_id_wins() {
    let database = ManifestDatabase::build(vec![
        record(Some(42), "first"),
        record(Some(1), "other"),
        record(Some(42), "second"),
    ]);
    assert_eq!(database.get(42), Some(&record(Some(42), "second")));
    assert_eq!(database.get(1), Some(&record(Some(1), "other")));
}

#[test]
fn records_without_a_steam_id_are_dropped() {
    let database = ManifestDatabase::build(vec![
        record(None, "nameless"),
        record(Some(0), "zero"),
        record(None, "nameless too"),
    ]);
    assert_eq!(database.get(0), Some(&record(Some(0), "zero")));
    for id in [1u64, 2, 42, u64::MAX] {
        assert_eq!(database.get(id), None);
    }
}

#[test]
fn empty_database_knows_no_game() {
    let database = ManifestDatabase::build(Vec::new());
    assert_eq!(database.get(0), None);
    assert_eq!(database.get(42), None);
}

#[test]
fn records_may_lack_files() {
    let database = ManifestDatabase::build(vec![GameData { files: None, steam: Some(SteamInfo::new(5)) }]);
    assert_eq!(database.get(5), Some(&GameData { files: None, steam: Some(SteamInfo::new(5)) }));
}

#[test]
fn conditions_compare_by_their_fields() {
    let a = Condition { os: Some("windows".to_string()), store: None };
    let b = Condition { os: Some("windows".to_string()), store: None };
    let c = Condition { os: None, store: Some("steam".to_string()) };
    assert_eq!(a, b);
    assert_ne!(a, c);
}
