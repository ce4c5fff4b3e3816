use steam_saves::keyvalue::{parse, KeyValueNode};
use steam_saves::locate::{
    get_steam_libraries, get_steam_path, library_file, library_folders, steam_path_candidates,
    LocateError,
};

fn text_node(s: &str) -> KeyValueNode {
    KeyValueNode::Value(s.to_string())
}

fn table_node(entries: Vec<(&str, KeyValueNode)>) -> KeyValueNode {
    KeyValueNode::Table(entries.into_iter().map(|(k, v)| (k.to_string(), v)).collect())
}

fn folder(path: &str) -> KeyValueNode {
    table_node(vec![("path", text_node(path)), ("label", text_node("x"))])
}

#[test]
fn candidates_lie_under_the_home_directory() {
    assert_eq!(
        steam_path_candidates("/home/u"),
        vec!["/home/u/.steam/steam".to_string(), "/home/u/.local/share/Steam".to_string()]
    );
}

#[test]
fn steam_path_is_the_first_candidate_that_exists() {
    assert_eq!(get_steam_path(Some("/home/u"), &[true, true]), Ok("/home/u/.steam/steam".to_string()));
    assert_eq!(get_steam_path(Some("/home/u"), &[true, false]), Ok("/home/u/.steam/steam".to_string()));
    assert_eq!(
        get_steam_path(Some("/home/u"), &[false, true]),
        Ok("/home/u/.local/share/Steam".to_string())
    );
    assert_eq!(get_steam_path(Some("/home/u"), &[true]), Ok("/home/u/.steam/steam".to_string()));
    assert_eq!(
        get_steam_path(Some("/home/u"), &[false, true, true]),
        Ok("/home/u/.local/share/Steam".to_string())
    );
}

#[test]
fn steam_path_fails_where_no_candidate_exists() {
    assert_eq!(get_steam_path(Some("/home/u"), &[false, false]), Err(LocateError::SteamNotFound));
    assert_eq!(get_steam_path(Some("/home/u"), &[]), Err(LocateError::SteamNotFound));
    assert_eq!(get_steam_path(Some("/home/u"), &[false]), Err(LocateError::SteamNotFound));
    assert_eq!(
        get_steam_path(Some("/home/u"), &[false, false, true]),
        Err(LocateError::SteamNotFound)
    );
}

#[test]
fn steam_path_fails_without_a_home_directory() {
    assert_eq!(get_steam_path(None, &[true, true]), Err(LocateError::HomeNotFound));
    assert_eq!(get_steam_path(None, &[]), Err(LocateError::HomeNotFound));
}

#[test]
fn locate_errors_have_messages() {
    assert_eq!(LocateError::HomeNotFound.message(), "Could not find home directory");
    assert_eq!(LocateError::SteamNotFound.message(), "Could not find Steam installation");
}

#[test]
fn library_file_lies_under_steamapps() {
    assert_eq!(library_file("/s"), "/s/steamapps/libraryfolders.vdf");
}

#[test]
fn only_indexed_children_are_library_folders() {
    let root = table_node(vec![(
        "libraryfolders",
        table_node(vec![("0", folder("/a")), ("1", folder("/b")), ("extra", folder("/c"))]),
    )]);
    assert_eq!(library_folders(&root), vec!["/a".to_string(), "/b".to_string()]);
}

#[test]
fn library_folders_come_in_the_order_of_the_table() {
    let root = table_node(vec![(
        "libraryfolders",
        table_node(vec![
            ("2", folder("/two")),
            ("contentstatsid", text_node("99")),
            ("0", folder("/zero")),
            ("+1", folder("/plus")),
            ("0", folder("/again")),
        ]),
    )]);
    assert_eq!(
        library_folders(&root),
        vec!["/two".to_string(), "/zero".to_string(), "/plus".to_string(), "/again".to_string()]
    );
}

#[test]
fn children_without_a_path_string_are_passed_over() {
    let root = table_node(vec![(
        "libraryfolders",
        table_node(vec![
            ("0", text_node("/old/style")),
            ("1", table_node(vec![("label", text_node("x"))])),
            ("2", table_node(vec![("path", table_node(vec![]))])),
            ("3", folder("/ok")),
            ("-1", folder("/negative")),
            ("007", folder("/zeros")),
            ("+", folder("/sign")),
            (" 1", folder("/blank")),
            ("", folder("/empty")),
            ("1a", folder("/mixed")),
        ]),
    )]);
    assert_eq!(library_folders(&root), vec!["/ok".to_string(), "/zeros".to_string()]);
}

#[test]
fn a_listing_without_the_table_names_no_folders() {
    assert_eq!(library_folders(&table_node(vec![])), Vec::<String>::new());
    assert_eq!(library_folders(&table_node(vec![("libraryfolders", text_node("x"))])), Vec::<String>::new());
    assert_eq!(
        library_folders(&table_node(vec![("LibraryFolders", table_node(vec![("0", folder("/a"))]))])),
        Vec::<String>::new()
    );
    assert_eq!(library_folders(&text_node("x")), Vec::<String>::new());
}

#[test]
fn libraries_start_with_the_installation() {
    let listing = b"\"libraryfolders\"\n{\n\t\"0\"\n\t{\n\t\t\"path\"\t\t\"/home/u/.steam/steam\"\n\t}\n\t\"1\"\n\t{\n\t\t\"path\"\t\t\"/mnt/games\"\n\t}\n}\n";
    assert_eq!(
        get_steam_libraries("/home/u/.steam/steam", Some(listing)),
        vec![
            "/home/u/.steam/steam".to_string(),
            "/home/u/.steam/steam".to_string(),
            "/mnt/games".to_string()
        ]
    );
}

#[test]
fn libraries_without_a_listing_are_the_installation_alone() {
    assert_eq!(get_steam_libraries("/s", None), vec!["/s".to_string()]);
}

#[test]
fn libraries_with_a_broken_listing_are_the_installation_alone() {
    assert_eq!(get_steam_libraries("/s", Some(b"\"libraryfolders\" {")), vec!["/s".to_string()]);
    assert_eq!(get_steam_libraries("/s", Some(b"}")), vec!["/s".to_string()]);
    assert_eq!(get_steam_libraries("/s", Some(b"")), vec!["/s".to_string()]);
    assert_eq!(get_steam_libraries("/s", Some(b"\"other\" \"x\"")), vec!["/s".to_string()]);
}

#[test]
fn first_library_is_always_the_installation() {
    let listings: [Option<&[u8]>; 4] = [
        None,
        Some(b"garbage {"),
        Some(b"\"libraryfolders\" { \"0\" { \"path\" \"/x\" } }"),
        Some(b"\"libraryfolders\" { \"extra\" { \"path\" \"/x\" } }"),
    ];
    for listing in listings {
        for primary in ["/s", "", "relative/dir"] {
            assert_eq!(get_steam_libraries(primary, listing)[0], primary);
        }
    }
}

#[test]
fn listing_is_read_by_the_parser() {
    let listing = b"\"libraryfolders\" { \"0\" { \"path\" \"D:\\\\Steam Library\" } }";
    let root = parse(listing).unwrap();
    assert_eq!(library_folders(&root), vec!["D:\\Steam Library".to_string()]);
}

#[test]
fn an_index_may_be_of_any_size() {
    let root = table_node(vec![(
        "libraryfolders",
        table_node(vec![
            ("4294967295", folder("/a")),
            ("4294967296", folder("/big")),
            ("18446744073709551616", folder("/bigger")),
            ("123456789012345678901234567890123456789012345678901234567890", folder("/huge")),
        ]),
    )]);
    assert_eq!(
        library_folders(&root),
        vec!["/a".to_string(), "/big".to_string(), "/bigger".to_string(), "/huge".to_string()]
    );
}

#[test]
fn a_folder_with_a_large_index_is_a_library() {
    let listing = b"\"libraryfolders\" { \"4294967296\" { \"path\" \"/big\" } }";
    assert_eq!(get_steam_libraries("/p", Some(listing)), vec!["/p".to_string(), "/big".to_string()]);
}
