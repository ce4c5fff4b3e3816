//! Where Steam is installed, and which library folders belong to the
//! installation.

use vstd::prelude::*;
use crate::keyvalue::{document_of, entries_view, parse, KeyValueNode, NodeView};
use crate::text::{is_unsigned_decimal, is_unsigned_number, join_path, path_join, texts};

verus! {

/// Why no Steam installation was found.
#[derive(Debug, Clone, Copy, PartialEq, Eq)]
pub enum LocateError {
    /// The user has no home directory.
    HomeNotFound,
    /// None of the places where Steam installs itself exists.
    SteamNotFound,
}

impl LocateError {
    /// The error in words.
    pub fn message(&self) -> (r: String)
        ensures
            r@ == match self {
                LocateError::HomeNotFound => "Could not find home directory"@,
                LocateError::SteamNotFound => "Could not find Steam installation"@,
            },
    {
        match self {
            LocateError::HomeNotFound => "Could not find home directory".to_owned(),
            LocateError::SteamNotFound => "Could not find Steam installation".to_owned(),
        }
    }
}

/// The places under the home directory `home` where Steam installs itself,
/// the preferred one first.
pub open spec fn candidates_of(home: Seq<char>) -> Seq<Seq<char>> {
    seq![path_join(home, ".steam/steam"@), path_join(home, ".local/share/Steam"@)]
}

/// The first of `candidates` that exists. `exists` says of each candidate, by
/// its index, whether it does; one of which it says nothing does not.
pub open spec fn first_existing(candidates: Seq<Seq<char>>, exists: Seq<bool>) -> Option<Seq<char>>
    decreases candidates.len(),
{
    if candidates.len() == 0 || exists.len() == 0 {
        None
    } else if exists[0] {
        Some(candidates[0])
    } else {
        first_existing(candidates.skip(1), exists.skip(1))
    }
}

/// The Steam installation of a user whose home directory is `home`.
pub open spec fn steam_path_of(home: Option<Seq<char>>, exists: Seq<bool>) -> Result<
    Seq<char>,
    LocateError,
> {
    match home {
        None => Err(LocateError::HomeNotFound),
        Some(home) => match first_existing(candidates_of(home), exists) {
            Some(path) => Ok(path),
            None => Err(LocateError::SteamNotFound),
        },
    }
}

/// The places under the home directory `home` where Steam installs itself,
/// the preferred one first.
pub fn steam_path_candidates(home: &str) -> (r: Vec<String>)
    ensures
        texts(r@) == candidates_of(home@),
{
    let mut out: Vec<String> = Vec::new();
    out.push(join_path(home, ".steam/steam"));
    out.push(join_path(home, ".local/share/Steam"));
    assert(texts(out@) =~= candidates_of(home@));
    out
}

/// Picks the Steam installation of a user. `home` is the user's home
/// directory, and `exists` says of each of `steam_path_candidates(home)`, in
/// their order, whether that directory exists.
pub fn get_steam_path(home: Option<&str>, exists: &[bool]) -> (r: Result<String, LocateError>)
    ensures
        match r {
            Ok(path) => steam_path_of(
                match home {
                    Some(h) => Some(h@),
                    None => None,
                },
                exists@,
            ) == Ok::<Seq<char>, LocateError>(path@),
            Err(e) => steam_path_of(
                match home {
                    Some(h) => Some(h@),
                    None => None,
                },
                exists@,
            ) == Err::<Seq<char>, LocateError>(e),
        },
{
    let dir = match home {
        Some(dir) => dir,
        None => {
            return Err(LocateError::HomeNotFound);
        },
    };
    let mut candidates = steam_path_candidates(dir);
    let ghost all = candidates_of(dir@);
    let mut i: usize = 0;
    assert(all.skip(0) == all);
    assert(exists@.skip(0) == exists@);
    while i < candidates.len() && i < exists.len()
        invariant
            i <= candidates.len(),
            i <= exists.len(),
            all == texts(candidates@),
            home == Some(dir),
            all == candidates_of(dir@),
            first_existing(all, exists@) == first_existing(
                all.skip(i as int),
                exists@.skip(i as int),
            ),
        decreases candidates.len() - i,
    {
        assert(all.skip(i as int).skip(1) == all.skip(i + 1));
        assert(exists@.skip(i as int).skip(1) == exists@.skip(i + 1));
        if exists[i] {
            assert(all.skip(i as int)[0] == candidates@[i as int]@);
            return Ok(candidates.swap_remove(i));
        }
        i += 1;
    }
    Err(LocateError::SteamNotFound)
}

/// The file under the Steam installation that lists its library folders.
pub fn library_file(steam_path: &str) -> (r: String)
    ensures
        r@ == path_join(steam_path@, "steamapps/libraryfolders.vdf"@),
{
    join_path(steam_path, "steamapps/libraryfolders.vdf")
}

/// Whether a name is an index: a number in decimal notation that is not
/// negative, of whatever size.
pub open spec fn is_index(name: Seq<char>) -> bool {
    is_unsigned_number(name)
}

/// The paths of the library folders among `children`, in their order: of
/// each child whose name is an index, its `path`, where that is a string.
pub open spec fn folder_paths(children: Seq<(Seq<char>, NodeView)>) -> Seq<Seq<char>>
    decreases children.len(),
{
    if children.len() == 0 {
        Seq::empty()
    } else {
        let earlier = folder_paths(children.drop_last());
        let (name, node) = children.last();
        if is_index(name) {
            match node.lookup("path"@) {
                Some(NodeView::Value(path)) => earlier.push(path),
                _ => earlier,
            }
        } else {
            earlier
        }
    }
}

/// The library folders that a folder listing names: those of the children
/// of its table `libraryfolders`.
pub open spec fn library_folders_of(root: NodeView) -> Seq<Seq<char>> {
    match root.lookup("libraryfolders"@) {
        Some(NodeView::Table(children)) => folder_paths(children),
        _ => Seq::empty(),
    }
}

/// The library roots of an installation at `steam_path`: the installation
/// itself, then the folders that its listing names. `listing` holds the bytes
/// of the listing file, where it could be read. A listing that does not parse
/// names no folders.
pub open spec fn libraries_of(steam_path: Seq<char>, listing: Option<Seq<u8>>) -> Seq<Seq<char>> {
    seq![steam_path] + match listing {
        Some(bytes) => match document_of(bytes) {
            Ok(root) => library_folders_of(root),
            Err(_) => Seq::empty(),
        },
        None => Seq::empty(),
    }
}

/// The library folders that a parsed folder listing names.
pub fn library_folders(root: &KeyValueNode) -> (r: Vec<String>)
    ensures
        texts(r@) == library_folders_of(root@),
{
    let mut out: Vec<String> = Vec::new();
    assert(texts(out@) =~= Seq::<Seq<char>>::empty());
    match root.lookup("libraryfolders") {
        Some(KeyValueNode::Table(children)) => {
            let ghost all = entries_view(children@);
            let mut i: usize = 0;
            assert(all.take(0) =~= Seq::<(Seq<char>, NodeView)>::empty());
            while i < children.len()
                invariant
                    i <= children.len(),
                    all == entries_view(children@),
                    texts(out@) == folder_paths(all.take(i as int)),
                decreases children.len() - i,
            {
                let ghost done = all.take(i + 1);
                assert(done.drop_last() == all.take(i as int));
                assert(done.last() == (children@[i as int].0@, children@[i as int].1@));
                if is_unsigned_decimal(children[i].0.as_str()) {
                    match children[i].1.lookup("path") {
                        Some(KeyValueNode::Value(path)) => {
                            let folder = path.clone();
                            assert(texts(out@.push(folder)) =~= texts(out@).push(folder@));
                            out.push(folder);
                        },
                        _ => {},
                    }
                }
                i += 1;
            }
            assert(all.take(i as int) == all);
        },
        _ => {},
    }
    out
}

/// Lists the library roots of the installation at `steam_path`. `listing`
/// holds the bytes of the file `library_file(steam_path)`, or nothing where
/// the file could not be read. The installation itself always comes first.
pub fn get_steam_libraries(steam_path: &str, listing: Option<&[u8]>) -> (r: Vec<String>)
    ensures
        texts(r@) == libraries_of(
            steam_path@,
            match listing {
                Some(bytes) => Some(bytes@),
                None => None,
            },
        ),
        r@.len() >= 1,
        r@[0]@ == steam_path@,
{
    let mut folders = match listing {
        Some(bytes) => match parse(bytes) {
            Ok(root) => library_folders(&root),
            Err(_) => Vec::new(),
        },
        None => Vec::new(),
    };
    let mut out: Vec<String> = Vec::new();
    out.push(steam_path.to_owned());
    let ghost first = out@;
    let ghost more = folders@;
    out.append(&mut folders);
    assert(texts(first + more) =~= texts(first) + texts(more));
    assert(texts(first) =~= seq![steam_path@]);
    assert(texts(Seq::<String>::empty()) =~= Seq::<Seq<char>>::empty());
    out
}

/// A child whose name is no index adds no library folder, whatever it
/// holds and wherever it stands among the children.
pub proof fn lemma_unindexed_child_adds_nothing(
    before: Seq<(Seq<char>, NodeView)>,
    child: (Seq<char>, NodeView),
    after: Seq<(Seq<char>, NodeView)>,
)
    requires
        !is_index(child.0),
    ensures
        folder_paths(before + seq![child] + after) == folder_paths(before + after),
    decreases after.len(),
{
    let with = before + seq![child] + after;
    let without = before + after;
    if after.len() == 0 {
        assert(with.drop_last() == before);
        assert(with.last() == child);
        assert(without == before);
    } else {
        assert(with.drop_last() == before + seq![child] + after.drop_last());
        assert(without.drop_last() == before + after.drop_last());
        assert(with.last() == after.last());
        assert(without.last() == after.last());
        lemma_unindexed_child_adds_nothing(before, child, after.drop_last());
    }
}

} // verus!
