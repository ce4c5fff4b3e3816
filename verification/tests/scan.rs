use steam_saves::keyvalue::KeyValueNode;
use steam_saves::scan::{
    get_installed_games, is_manifest_file_name, read_manifest, DirEntry, Game, Library, ScanError,
    Steamapps,
};

fn text(s: &str) -> KeyValueNode {
    KeyValueNode::Value(s.to_string())
}

fn block(entries: Vec<(&str, KeyValueNode)>) -> KeyValueNode {
    KeyValueNode::Table(entries.into_iter().map(|(k, v)| (k.to_string(), v)).collect())
}

fn manifest_text(appid: &str, name: &str, installdir: &str) -> Vec<u8> {
    format!(
        "\"AppState\"\n{{\n\t\"appid\"\t\t\"{}\"\n\t\"Universe\"\t\t\"1\"\n\t\"name\"\t\t\"{}\"\n\t\"installdir\"\t\t\"{}\"\n}}\n",
        appid, name, installdir
    )
    .into_bytes()
}

fn file(name: &str, contents: Vec<u8>) -> DirEntry {
    DirEntry::File { name: name.to_string(), contents: Some(contents) }
}

fn library(root: &str, entries: Vec<DirEntry>) -> Library {
    Library { root: root.to_string(), steamapps: Steamapps::Entries(entries) }
}

fn game(appid: u64, name: &str, install_dir: &str) -> Game {
    Game { appid, name: name.to_string(), install_dir: install_dir.to_string() }
}

#[test]
fn manifest_names_begin_with_appmanifest_and_end_in_acf() {
    assert!(is_manifest_file_name("appmanifest_123.acf"));
    assert!(is_manifest_file_name("appmanifest.acf"));
    assert!(is_manifest_file_name("appmanifest_1.tmp.acf"));
    assert!(!is_manifest_file_name("appmanifest_123.acf.bak"));
    assert!(!is_manifest_file_name("appmanifest_123"));
    assert!(!is_manifest_file_name("Appmanifest_123.acf"));
    assert!(!is_manifest_file_name("appmanifest_123.ACF"));
    assert!(!is_manifest_file_name("manifest_123.acf"));
    assert!(!is_manifest_file_name("libraryfolders.vdf"));
    assert!(!is_manifest_file_name(".acf"));
    assert!(!is_manifest_file_name(""));
}

#[test]
fn read_manifest_gives_the_game() {
    let root = block(vec![(
        "AppState",
        block(vec![("appid", text("123")), ("name", text("Test Game")), ("installdir", text("testgame"))]),
    )]);
    assert_eq!(
        read_manifest(&root, "/lib/steamapps"),
        Ok(Some(game(123, "Test Game", "/lib/steamapps/common/testgame")))
    );
}

#[test]
fn read_manifest_without_app_state_gives_nothing() {
    assert_eq!(read_manifest(&block(vec![]), "/lib/steamapps"), Ok(None));
    assert_eq!(read_manifest(&block(vec![("appstate", block(vec![]))]), "/lib/steamapps"), Ok(None));
    assert_eq!(read_manifest(&text("x"), "/lib/steamapps"), Ok(None));
}

#[test]
fn missing_fields_are_empty_strings() {
    let root = block(vec![("AppState", block(vec![("appid", text("5")), ("name", block(vec![]))]))]);
    assert_eq!(read_manifest(&root, "/l/steamapps"), Ok(Some(game(5, "", "/l/steamapps/common/"))));
}

#[test]
fn appid_that_is_no_number_is_an_error() {
    let bad = block(vec![("AppState", block(vec![("appid", text("12x")), ("name", text("n"))]))]);
    assert_eq!(read_manifest(&bad, "/l/steamapps"), Err(ScanError::InvalidAppId("12x".to_string())));
    let missing = block(vec![("AppState", block(vec![("name", text("n"))]))]);
    assert_eq!(read_manifest(&missing, "/l/steamapps"), Err(ScanError::InvalidAppId(String::new())));
    let plain = block(vec![("AppState", text("x"))]);
    assert_eq!(read_manifest(&plain, "/l/steamapps"), Err(ScanError::InvalidAppId(String::new())));
    let large = block(vec![("AppState", block(vec![("appid", text("18446744073709551616"))]))]);
    assert_eq!(
        read_manifest(&large, "/l/steamapps"),
        Err(ScanError::InvalidAppId("18446744073709551616".to_string()))
    );
}

#[test]
fn scan_finds_the_game_of_a_manifest() {
    let libraries = vec![library("/L", vec![file("appmanifest_123.acf", manifest_text("123", "Test Game", "testgame"))])];
    assert_eq!(
        get_installed_games(&libraries),
        Ok(vec![game(123, "Test Game", "/L/steamapps/common/testgame")])
    );
}

#[test]
fn scan_of_a_library_without_steamapps_finds_nothing() {
    let libraries = vec![Library { root: "/L".to_string(), steamapps: Steamapps::Missing }];
    assert_eq!(get_installed_games(&libraries), Ok(vec![]));
    assert_eq!(get_installed_games(&Vec::new()), Ok(vec![]));
}

#[test]
fn library_without_steamapps_does_not_disturb_the_others() {
    let with = vec![
        library("/a", vec![file("appmanifest_1.acf", manifest_text("1", "One", "one"))]),
        Library { root: "/gone".to_string(), steamapps: Steamapps::Missing },
        library("/b", vec![file("appmanifest_2.acf", manifest_text("2", "Two", "two"))]),
    ];
    let without = vec![
        library("/a", vec![file("appmanifest_1.acf", manifest_text("1", "One", "one"))]),
        library("/b", vec![file("appmanifest_2.acf", manifest_text("2", "Two", "two"))]),
    ];
    assert_eq!(get_installed_games(&with), get_installed_games(&without));
    assert_eq!(
        get_installed_games(&with),
        Ok(vec![game(1, "One", "/a/steamapps/common/one"), game(2, "Two", "/b/steamapps/common/two")])
    );
}

#[test]
fn scan_keeps_the_order_of_libraries_and_entries() {
    let libraries = vec![
        library(
            "/a",
            vec![
                file("appmanifest_30.acf", manifest_text("30", "Thirty", "d30")),
                file("appmanifest_10.acf", manifest_text("10", "Ten", "d10")),
            ],
        ),
        library("/b", vec![file("appmanifest_20.acf", manifest_text("20", "Twenty", "d20"))]),
    ];
    assert_eq!(
        get_installed_games(&libraries),
        Ok(vec![
            game(30, "Thirty", "/a/steamapps/common/d30"),
            game(10, "Ten", "/a/steamapps/common/d10"),
            game(20, "Twenty", "/b/steamapps/common/d20"),
        ])
    );
}

#[test]
fn scan_passes_over_other_files() {
    let libraries = vec![library(
        "/a",
        vec![
            file("libraryfolders.vdf", manifest_text("1", "Not A Game", "x")),
            file("appmanifest_2.acf.tmp", manifest_text("2", "Not A Game", "x")),
            file("Appmanifest_3.acf", manifest_text("3", "Not A Game", "x")),
            file("appmanifest_4.acf", manifest_text("4", "Game", "g")),
            DirEntry::File { name: "common".to_string(), contents: None },
        ],
    )];
    assert_eq!(get_installed_games(&libraries), Ok(vec![game(4, "Game", "/a/steamapps/common/g")]));
}

#[test]
fn scan_passes_over_manifests_that_do_not_parse() {
    let libraries = vec![library(
        "/a",
        vec![
            file("appmanifest_1.acf", b"\"AppState\" {".to_vec()),
            file("appmanifest_2.acf", b"\"AppState\" { \"appid\" \"2".to_vec()),
            file("appmanifest_3.acf", b"}".to_vec()),
            file("appmanifest_4.acf", Vec::new()),
            file("appmanifest_5.acf", b"\"Other\" { \"appid\" \"5\" }".to_vec()),
            DirEntry::File { name: "appmanifest_6.acf".to_string(), contents: None },
            file("appmanifest_7.acf", manifest_text("7", "Seven", "seven")),
        ],
    )];
    assert_eq!(get_installed_games(&libraries), Ok(vec![game(7, "Seven", "/a/steamapps/common/seven")]));
}

#[test]
fn scan_fails_on_an_appid_that_is_no_number() {
    let libraries = vec![
        library(
            "/a",
            vec![
                file("appmanifest_1.acf", manifest_text("1", "One", "one")),
                file("appmanifest_x.acf", manifest_text("abc", "Broken", "broken")),
                file("appmanifest_2.acf", manifest_text("2", "Two", "two")),
            ],
        ),
        library("/b", vec![file("appmanifest_3.acf", manifest_text("3", "Three", "three"))]),
    ];
    assert_eq!(get_installed_games(&libraries), Err(ScanError::InvalidAppId("abc".to_string())));
}

#[test]
fn scan_ignores_a_bad_appid_in_a_file_that_is_no_manifest() {
    let libraries = vec![library("/a", vec![file("notes.txt", manifest_text("abc", "Broken", "broken"))])];
    assert_eq!(get_installed_games(&libraries), Ok(vec![]));
}

#[test]
fn scan_fails_where_a_directory_cannot_be_listed() {
    let libraries = vec![
        library("/a", vec![file("appmanifest_1.acf", manifest_text("1", "One", "one"))]),
        Library { root: "/b".to_string(), steamapps: Steamapps::Unreadable("permission denied".to_string()) },
    ];
    assert_eq!(get_installed_games(&libraries), Err(ScanError::Io("permission denied".to_string())));
}

#[test]
fn scan_fails_where_an_entry_cannot_be_listed() {
    let libraries = vec![library(
        "/a",
        vec![
            file("appmanifest_1.acf", manifest_text("1", "One", "one")),
            DirEntry::Unreadable("stale handle".to_string()),
            file("appmanifest_x.acf", manifest_text("abc", "Broken", "broken")),
        ],
    )];
    assert_eq!(get_installed_games(&libraries), Err(ScanError::Io("stale handle".to_string())));
}

#[test]
fn first_error_of_a_scan_is_reported() {
    let libraries = vec![library(
        "/a",
        vec![
            file("appmanifest_x.acf", manifest_text("abc", "Broken", "broken")),
            DirEntry::Unreadable("stale handle".to_string()),
        ],
    )];
    assert_eq!(get_installed_games(&libraries), Err(ScanError::InvalidAppId("abc".to_string())));
}

#[test]
fn absolute_install_directory_stands_alone() {
    let libraries = vec![library("/a", vec![file("appmanifest_1.acf", manifest_text("1", "One", "/opt/one"))])];
    assert_eq!(get_installed_games(&libraries), Ok(vec![game(1, "One", "/opt/one")]));
}

#[test]
fn scan_errors_have_messages() {
    assert_eq!(ScanError::Io("permission denied".to_string()).message(), "permission denied");
    assert_eq!(
        ScanError::InvalidAppId("abc".to_string()).message(),
        "invalid application identifier: abc"
    );
}
