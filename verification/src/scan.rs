//! The installed games of a set of library folders, found from a listing of
//! each folder's directory `steamapps` and the bytes of the manifests in it.

use vstd::prelude::*;
use crate::keyvalue::{document_of, parse, KeyValueNode, NodeView};
use crate::text::{ends_with, join_path, parse_u64, parse_unsigned, path_join, starts_with};

verus! {

/// An installed game.
#[derive(Debug, PartialEq, Eq)]
pub struct Game {
    /// The Steam application identifier.
    pub appid: u64,
    /// The name of the game.
    pub name: String,
    /// The directory that holds the game's files.
    pub install_dir: String,
}

/// The mathematical model of a `Game`.
pub struct GameView {
    pub appid: u64,
    pub name: Seq<char>,
    pub install_dir: Seq<char>,
}

impl View for Game {
    type V = GameView;

    open spec fn view(&self) -> GameView {
        GameView { appid: self.appid, name: self.name@, install_dir: self.install_dir@ }
    }
}

/// The models of a sequence of games.
pub open spec fn games_view(games: Seq<Game>) -> Seq<GameView> {
    games.map_values(|g: Game| g@)
}

/// Why a scan was given up.
#[derive(Debug, PartialEq, Eq)]
pub enum ScanError {
    /// A directory could not be listed. Holds what the system said.
    Io(String),
    /// A manifest names an application identifier that is no unsigned 64-bit
    /// number. Holds the identifier as written.
    InvalidAppId(String),
}

/// The mathematical model of a `ScanError`.
pub enum ScanErrorView {
    Io(Seq<char>),
    InvalidAppId(Seq<char>),
}

impl View for ScanError {
    type V = ScanErrorView;

    open spec fn view(&self) -> ScanErrorView {
        match self {
            ScanError::Io(message) => ScanErrorView::Io(message@),
            ScanError::InvalidAppId(appid) => ScanErrorView::InvalidAppId(appid@),
        }
    }
}

impl ScanError {
    /// The error in words.
    pub fn message(&self) -> (r: String)
        ensures
            r@ == match self@ {
                ScanErrorView::Io(message) => message,
                ScanErrorView::InvalidAppId(appid) => "invalid application identifier: "@ + appid,
            },
    {
        match self {
            ScanError::Io(message) => message.clone(),
            ScanError::InvalidAppId(appid) => {
                let mut out = "invalid application identifier: ".to_owned();
                crate::text::push_str(&mut out, appid.as_str());
                out
            },
        }
    }
}

/// One entry of a listed directory.
#[derive(Debug, PartialEq, Eq)]
pub enum DirEntry {
    /// The listing failed at this entry. Holds what the system said.
    Unreadable(String),
    /// A file, with its name and with its bytes where they could be read.
    File { name: String, contents: Option<Vec<u8>> },
}

/// The mathematical model of a `DirEntry`.
pub enum DirEntryView {
    Unreadable(Seq<char>),
    File { name: Seq<char>, contents: Option<Seq<u8>> },
}

impl View for DirEntry {
    type V = DirEntryView;

    open spec fn view(&self) -> DirEntryView {
        match self {
            DirEntry::Unreadable(message) => DirEntryView::Unreadable(message@),
            DirEntry::File { name, contents } => DirEntryView::File {
                name: name@,
                contents: match contents {
                    Some(bytes) => Some(bytes@),
                    None => None,
                },
            },
        }
    }
}

/// The models of a sequence of directory entries.
pub open spec fn listing_view(entries: Seq<DirEntry>) -> Seq<DirEntryView> {
    entries.map_values(|e: DirEntry| e@)
}

/// What was found of the directory `steamapps` of a library.
#[derive(Debug, PartialEq, Eq)]
pub enum Steamapps {
    /// There is no such directory.
    Missing,
    /// The directory could not be listed. Holds what the system said.
    Unreadable(String),
    /// The entries of the directory, in the order of the listing.
    Entries(Vec<DirEntry>),
}

/// The mathematical model of a `Steamapps`.
pub enum SteamappsView {
    Missing,
    Unreadable(Seq<char>),
    Entries(Seq<DirEntryView>),
}

impl View for Steamapps {
    type V = SteamappsView;

    open spec fn view(&self) -> SteamappsView {
        match self {
            Steamapps::Missing => SteamappsView::Missing,
            Steamapps::Unreadable(message) => SteamappsView::Unreadable(message@),
            Steamapps::Entries(entries) => SteamappsView::Entries(listing_view(entries@)),
        }
    }
}

/// A library root, with what was found of its directory `steamapps`.
#[derive(Debug, PartialEq, Eq)]
pub struct Library {
    pub root: String,
    pub steamapps: Steamapps,
}

/// The mathematical model of a `Library`.
pub struct LibraryView {
    pub root: Seq<char>,
    pub steamapps: SteamappsView,
}

impl View for Library {
    type V = LibraryView;

    open spec fn view(&self) -> LibraryView {
        LibraryView { root: self.root@, steamapps: self.steamapps@ }
    }
}

/// The models of a sequence of libraries.
pub open spec fn libraries_view(libraries: Seq<Library>) -> Seq<LibraryView> {
    libraries.map_values(|l: Library| l@)
}

/// Whether a file of this name is taken for the manifest of a game: the name
/// begins with `appmanifest` and ends in `.acf`, in these very letters.
pub open spec fn is_manifest_name(name: Seq<char>) -> bool {
    "appmanifest"@.is_prefix_of(name) && ".acf"@.is_suffix_of(name)
}

/// The string under `name` in the table `state`, or the empty string where
/// there is none.
pub open spec fn field_of(state: NodeView, name: Seq<char>) -> Seq<char> {
    match state.get(name) {
        Some(NodeView::Value(value)) => value,
        _ => Seq::empty(),
    }
}

/// The game that a parsed manifest describes, for a library whose directory
/// `steamapps` is `steamapps`. A manifest without `AppState` describes none.
/// One whose `appid` is no unsigned 64-bit number is an error.
pub open spec fn manifest_game(root: NodeView, steamapps: Seq<char>) -> Result<
    Option<GameView>,
    ScanErrorView,
> {
    match root.get("AppState"@) {
        None => Ok(None),
        Some(state) => {
            let appid = field_of(state, "appid"@);
            match parse_unsigned(appid, u64::MAX as nat) {
                None => Err(ScanErrorView::InvalidAppId(appid)),
                Some(n) => Ok(
                    Some(
                        GameView {
                            appid: n as u64,
                            name: field_of(state, "name"@),
                            install_dir: path_join(
                                path_join(steamapps, "common"@),
                                field_of(state, "installdir"@),
                            ),
                        },
                    ),
                ),
            }
        },
    }
}

/// The game that a directory entry stands for. A file that is not named like
/// a manifest, that could not be read or that does not parse stands for none.
pub open spec fn entry_game(entry: DirEntryView, steamapps: Seq<char>) -> Result<
    Option<GameView>,
    ScanErrorView,
> {
    match entry {
        DirEntryView::Unreadable(message) => Err(ScanErrorView::Io(message)),
        DirEntryView::File { name, contents } => if !is_manifest_name(name) {
            Ok(None)
        } else {
            match contents {
                None => Ok(None),
                Some(bytes) => match document_of(bytes) {
                    Err(_) => Ok(None),
                    Ok(root) => manifest_game(root, steamapps),
                },
            }
        },
    }
}

/// The games of the entries of a directory, in the order of the entries, or
/// the error of the first entry that has one.
pub open spec fn entries_games(entries: Seq<DirEntryView>, steamapps: Seq<char>) -> Result<
    Seq<GameView>,
    ScanErrorView,
>
    decreases entries.len(),
{
    if entries.len() == 0 {
        Ok(Seq::empty())
    } else {
        match entries_games(entries.drop_last(), steamapps) {
            Err(e) => Err(e),
            Ok(games) => match entry_game(entries.last(), steamapps) {
                Err(e) => Err(e),
                Ok(Some(game)) => Ok(games.push(game)),
                Ok(None) => Ok(games),
            },
        }
    }
}

/// The games of one library.
pub open spec fn library_games(library: LibraryView) -> Result<Seq<GameView>, ScanErrorView> {
    match library.steamapps {
        SteamappsView::Missing => Ok(Seq::empty()),
        SteamappsView::Unreadable(message) => Err(ScanErrorView::Io(message)),
        SteamappsView::Entries(entries) => entries_games(
            entries,
            path_join(library.root, "steamapps"@),
        ),
    }
}

/// The games of a sequence of libraries, in the order of the libraries, or
/// the error of the first library that has one.
pub open spec fn installed_games(libraries: Seq<LibraryView>) -> Result<
    Seq<GameView>,
    ScanErrorView,
>
    decreases libraries.len(),
{
    if libraries.len() == 0 {
        Ok(Seq::empty())
    } else {
        match installed_games(libraries.drop_last()) {
            Err(e) => Err(e),
            Ok(games) => match library_games(libraries.last()) {
                Err(e) => Err(e),
                Ok(more) => Ok(games + more),
            },
        }
    }
}

/// Whether a file of this name is taken for the manifest of a game.
pub fn is_manifest_file_name(name: &str) -> (r: bool)
    ensures
        r == is_manifest_name(name@),
{
    starts_with(name, "appmanifest") && ends_with(name, ".acf")
}

/// The string under `name` in the table `state`, or the empty string.
fn field<'a>(state: &'a KeyValueNode, name: &str) -> (r: &'a str)
    ensures
        r@ == field_of(state@, name@),
{
    proof {
        reveal_strlit("");
    }
    match state.get(name) {
        Some(node) => match node.as_str() {
            Some(value) => value,
            None => "",
        },
        None => "",
    }
}

/// Reads the game that a parsed manifest describes. `steamapps` is the
/// directory in which the manifest lies.
pub fn read_manifest(root: &KeyValueNode, steamapps: &str) -> (r: Result<Option<Game>, ScanError>)
    ensures
        match r {
            Ok(Some(game)) => manifest_game(root@, steamapps@) == Ok::<
                Option<GameView>,
                ScanErrorView,
            >(Some(game@)),
            Ok(None) => manifest_game(root@, steamapps@) == Ok::<Option<GameView>, ScanErrorView>(
                None,
            ),
            Err(e) => manifest_game(root@, steamapps@) == Err::<Option<GameView>, ScanErrorView>(
                e@,
            ),
        },
{
    let state = match root.get("AppState") {
        Some(state) => state,
        None => {
            return Ok(None);
        },
    };
    let appid = field(state, "appid");
    let name = field(state, "name");
    let install_dir = field(state, "installdir");
    match parse_u64(appid) {
        None => Err(ScanError::InvalidAppId(appid.to_owned())),
        Some(appid) => {
            let common = join_path(steamapps, "common");
            Ok(
                Some(
                    Game {
                        appid,
                        name: name.to_owned(),
                        install_dir: join_path(common.as_str(), install_dir),
                    },
                ),
            )
        },
    }
}

/// Reads the game that a directory entry stands for.
fn read_entry(entry: &DirEntry, steamapps: &str) -> (r: Result<Option<Game>, ScanError>)
    ensures
        match r {
            Ok(Some(game)) => entry_game(entry@, steamapps@) == Ok::<
                Option<GameView>,
                ScanErrorView,
            >(Some(game@)),
            Ok(None) => entry_game(entry@, steamapps@) == Ok::<Option<GameView>, ScanErrorView>(
                None,
            ),
            Err(e) => entry_game(entry@, steamapps@) == Err::<Option<GameView>, ScanErrorView>(e@),
        },
{
    match entry {
        DirEntry::Unreadable(message) => Err(ScanError::Io(message.clone())),
        DirEntry::File { name, contents } => {
            if !is_manifest_file_name(name.as_str()) {
                return Ok(None);
            }
            match contents {
                None => Ok(None),
                Some(bytes) => match parse(bytes.as_slice()) {
                    Err(_) => Ok(None),
                    Ok(root) => read_manifest(&root, steamapps),
                },
            }
        },
    }
}

/// Appends the games of one library to `games`.
fn scan_library(library: &Library, games: &mut Vec<Game>) -> (r: Result<(), ScanError>)
    ensures
        match r {
            Ok(()) => match library_games(library@) {
                Ok(more) => games_view(final(games)@) == games_view(old(games)@) + more,
                Err(_) => false,
            },
            Err(e) => library_games(library@) == Err::<Seq<GameView>, ScanErrorView>(e@),
        },
{
    let entries = match &library.steamapps {
        Steamapps::Missing => {
            assert(games_view(games@) + Seq::<GameView>::empty() == games_view(games@));
            return Ok(());
        },
        Steamapps::Unreadable(message) => {
            return Err(ScanError::Io(message.clone()));
        },
        Steamapps::Entries(entries) => entries,
    };
    let steamapps = join_path(library.root.as_str(), "steamapps");
    let ghost all = listing_view(entries@);
    let ghost start = games_view(games@);
    let mut i: usize = 0;
    assert(all.take(0) == Seq::<DirEntryView>::empty());
    assert(start + Seq::<GameView>::empty() == start);
    while i < entries.len()
        invariant
            i <= entries.len(),
            all == listing_view(entries@),
            library@.steamapps == SteamappsView::Entries(all),
            steamapps@ == path_join(library.root@, "steamapps"@),
            match entries_games(all.take(i as int), steamapps@) {
                Ok(found) => games_view(games@) == start + found,
                Err(_) => false,
            },
        decreases entries.len() - i,
    {
        let ghost done = all.take(i + 1);
        assert(done.drop_last() == all.take(i as int));
        assert(done.last() == entries@[i as int]@);
        match read_entry(&entries[i], steamapps.as_str()) {
            Err(e) => {
                proof {
                    lemma_entries_error_stays(all, i + 1, steamapps@);
                }
                return Err(e);
            },
            Ok(Some(game)) => {
                proof {
                    let found = entries_games(all.take(i as int), steamapps@)->Ok_0;
                    assert(games_view(games@.push(game)) == games_view(games@).push(game@));
                    assert((start + found).push(game@) == start + found.push(game@));
                }
                games.push(game);
            },
            Ok(None) => {},
        }
        i += 1;
    }
    assert(all.take(i as int) == all);
    Ok(())
}

/// An error among the first entries of a directory is the error of the
/// whole directory.
proof fn lemma_entries_error_stays(entries: Seq<DirEntryView>, n: int, steamapps: Seq<char>)
    requires
        0 <= n <= entries.len(),
        entries_games(entries.take(n), steamapps) is Err,
    ensures
        entries_games(entries, steamapps) == entries_games(entries.take(n), steamapps),
    decreases entries.len(),
{
    if n == entries.len() {
        assert(entries.take(n) == entries);
    } else {
        assert(entries.drop_last().take(n) == entries.take(n));
        lemma_entries_error_stays(entries.drop_last(), n, steamapps);
    }
}

/// An error among the first libraries is the error of them all.
proof fn lemma_libraries_error_stays(libraries: Seq<LibraryView>, n: int)
    requires
        0 <= n <= libraries.len(),
        installed_games(libraries.take(n)) is Err,
    ensures
        installed_games(libraries) == installed_games(libraries.take(n)),
    decreases libraries.len(),
{
    if n == libraries.len() {
        assert(libraries.take(n) == libraries);
    } else {
        assert(libraries.drop_last().take(n) == libraries.take(n));
        lemma_libraries_error_stays(libraries.drop_last(), n);
    }
}

/// Finds the installed games of the given libraries: for each library that
/// has a directory `steamapps`, one game for each manifest in it.
///
/// A manifest that cannot be read or parsed is passed over. A directory that
/// cannot be listed, and a manifest whose application identifier is no
/// number, end the scan with an error.
pub fn get_installed_games(libraries: &Vec<Library>) -> (r: Result<Vec<Game>, ScanError>)
    ensures
        match r {
            Ok(games) => installed_games(libraries_view(libraries@)) == Ok::<
                Seq<GameView>,
                ScanErrorView,
            >(games_view(games@)),
            Err(e) => installed_games(libraries_view(libraries@)) == Err::<
                Seq<GameView>,
                ScanErrorView,
            >(e@),
        },
{
    let ghost all = libraries_view(libraries@);
    let mut games: Vec<Game> = Vec::new();
    let mut i: usize = 0;
    assert(all.take(0) == Seq::<LibraryView>::empty());
    assert(games_view(games@) == Seq::<GameView>::empty());
    while i < libraries.len()
        invariant
            i <= libraries.len(),
            all == libraries_view(libraries@),
            installed_games(all.take(i as int)) == Ok::<Seq<GameView>, ScanErrorView>(
                games_view(games@),
            ),
        decreases libraries.len() - i,
    {
        let ghost done = all.take(i + 1);
        assert(done.drop_last() == all.take(i as int));
        assert(done.last() == libraries@[i as int]@);
        match scan_library(&libraries[i], &mut games) {
            Err(e) => {
                proof {
                    lemma_libraries_error_stays(all, i + 1);
                }
                return Err(e);
            },
            Ok(()) => {},
        }
        i += 1;
    }
    assert(all.take(i as int) == all);
    Ok(games)
}

/// A library without a directory `steamapps` adds no game and no error,
/// wherever it stands among the libraries.
pub proof fn lemma_missing_steamapps_adds_nothing(
    before: Seq<LibraryView>,
    library: LibraryView,
    after: Seq<LibraryView>,
)
    requires
        library.steamapps is Missing,
    ensures
        library_games(library) == Ok::<Seq<GameView>, ScanErrorView>(Seq::empty()),
        installed_games(before + seq![library] + after) == installed_games(before + after),
    decreases after.len(),
{
    let with = before + seq![library] + after;
    let without = before + after;
    if after.len() == 0 {
        assert(with.drop_last() == before);
        assert(with.last() == library);
        assert(without == before);
        if let Ok(games) = installed_games(before) {
            assert(games + Seq::<GameView>::empty() == games);
        }
    } else {
        assert(with.drop_last() == before + seq![library] + after.drop_last());
        assert(without.drop_last() == before + after.drop_last());
        assert(with.last() == after.last());
        assert(without.last() == after.last());
        lemma_missing_steamapps_adds_nothing(before, library, after.drop_last());
    }
}

} // verus!
