//! The report: the installed games, each with the save locations that the
//! manifest database knows of it.

use vstd::prelude::*;
use crate::manifest::{FileEntry, FileEntryView, FileTable, GameDataView, ManifestDatabase};
use crate::scan::{games_view, Game, GameView};
use crate::text::{decimal_digits, push_decimal, push_str, str_equal, texts};

verus! {

/// The operating system under which a file pattern is reported as a save
/// location, or nothing where it is not reported.
///
/// A pattern is reported where it carries the tag `save` and has at least
/// one condition. Of its conditions only the first counts: a store other than
/// `steam` keeps the pattern out, and where the condition names no operating
/// system the pattern is reported for `ALL`.
pub open spec fn save_os(entry: FileEntryView) -> Option<Seq<char>> {
    match (entry.tags, entry.when) {
        (Some(tags), Some(conditions)) => if tags.contains("save"@) && conditions.len() > 0 {
            let first = conditions[0];
            if first.store is Some && first.store != Some("steam"@) {
                None
            } else {
                match first.os {
                    Some(os) => Some(os),
                    None => Some("ALL"@),
                }
            }
        } else {
            None
        },
        _ => None,
    }
}

/// The line that reports the file pattern `path` for the system `os`.
pub open spec fn save_line(path: Seq<char>, os: Seq<char>) -> Seq<char> {
    "\tSave Locations: "@ + path + " OS: "@ + os
}

/// The lines that report the save locations among `files`, in their order.
pub open spec fn file_lines(files: Seq<(Seq<char>, FileEntryView)>) -> Seq<Seq<char>>
    decreases files.len(),
{
    if files.len() == 0 {
        Seq::empty()
    } else {
        let earlier = file_lines(files.drop_last());
        match save_os(files.last().1) {
            Some(os) => earlier.push(save_line(files.last().0, os)),
            None => earlier,
        }
    }
}

/// The three lines that head the report of a game.
pub open spec fn head_lines(game: GameView) -> Seq<Seq<char>> {
    seq![
        game.name,
        "\tAppID: "@ + decimal_digits(game.appid as nat),
        "\tInstall Localation: "@ + game.install_dir,
    ]
}

/// The lines that report one game: its head, then its save locations where
/// the database knows the game and its files.
pub open spec fn game_lines(game: GameView, database: Map<u64, GameDataView>) -> Seq<Seq<char>> {
    head_lines(game) + if database.contains_key(game.appid) {
        match database[game.appid].files {
            Some(files) => file_lines(files),
            None => Seq::empty(),
        }
    } else {
        Seq::empty()
    }
}

/// The lines of the report on `games`, in their order.
pub open spec fn report_lines(games: Seq<GameView>, database: Map<u64, GameDataView>) -> Seq<
    Seq<char>,
>
    decreases games.len(),
{
    if games.len() == 0 {
        Seq::empty()
    } else {
        report_lines(games.drop_last(), database) + game_lines(games.last(), database)
    }
}

/// Whether `tag` is among `tags`.
fn has_tag(tags: &Vec<String>, tag: &str) -> (r: bool)
    ensures
        r == texts(tags@).contains(tag@),
{
    let mut i: usize = 0;
    while i < tags.len()
        invariant
            i <= tags.len(),
            forall|j: int| 0 <= j < i ==> texts(tags@)[j] != tag@,
        decreases tags.len() - i,
    {
        if str_equal(tags[i].as_str(), tag) {
            assert(texts(tags@)[i as int] == tag@);
            return true;
        }
        i += 1;
    }
    false
}

/// The operating system under which a file pattern is reported as a save
/// location, or nothing where it is not reported.
pub fn save_location_os(entry: &FileEntry) -> (r: Option<String>)
    ensures
        match r {
            Some(os) => save_os(entry@) == Some(os@),
            None => save_os(entry@) is None,
        },
{
    let tags = match &entry.tags {
        Some(tags) => tags,
        None => {
            return None;
        },
    };
    let conditions = match &entry.when {
        Some(conditions) => conditions,
        None => {
            return None;
        },
    };
    if !has_tag(tags, "save") || conditions.len() == 0 {
        return None;
    }
    let first = &conditions[0];
    assert(entry@.when->Some_0[0] == first@);
    match &first.store {
        Some(store) => {
            if !str_equal(store.as_str(), "steam") {
                return None;
            }
        },
        None => {},
    }
    match &first.os {
        Some(os) => Some(os.clone()),
        None => Some("ALL".to_owned()),
    }
}

/// Appends the lines that report the save locations among `files`.
fn push_file_lines(files: &FileTable, out: &mut Vec<String>)
    ensures
        texts(final(out)@) == texts(old(out)@) + file_lines(files@),
{
    let count = files.len();
    let ghost start = texts(out@);
    let mut i: usize = 0;
    assert(files@.take(0) == Seq::<(Seq<char>, FileEntryView)>::empty());
    assert(start + Seq::<Seq<char>>::empty() == start);
    while i < count
        invariant
            i <= count,
            count == files@.len(),
            texts(out@) == start + file_lines(files@.take(i as int)),
        decreases count - i,
    {
        let ghost done = files@.take(i + 1);
        assert(done.drop_last() == files@.take(i as int));
        assert(done.last() == files@[i as int]);
        let (path, entry) = files.entry(i);
        match save_location_os(entry) {
            Some(os) => {
                let mut line = "\tSave Locations: ".to_owned();
                push_str(&mut line, path);
                push_str(&mut line, " OS: ");
                push_str(&mut line, os.as_str());
                proof {
                    let earlier = file_lines(files@.take(i as int));
                    assert(texts(out@.push(line)) == texts(out@).push(line@));
                    assert((start + earlier).push(line@) == start + earlier.push(line@));
                }
                out.push(line);
            },
            None => {},
        }
        i += 1;
    }
    assert(files@.take(i as int) == files@);
}

/// Appends the lines that report one game.
fn push_game_lines(game: &Game, database: &ManifestDatabase, out: &mut Vec<String>)
    ensures
        texts(final(out)@) == texts(old(out)@) + game_lines(game@, database@),
{
    let ghost start = texts(out@);
    let name = game.name.clone();
    let mut appid = "\tAppID: ".to_owned();
    push_decimal(&mut appid, game.appid);
    let mut location = "\tInstall Localation: ".to_owned();
    push_str(&mut location, game.install_dir.as_str());
    proof {
        assert(texts(out@.push(name).push(appid).push(location)) == start + head_lines(game@));
    }
    out.push(name);
    out.push(appid);
    out.push(location);
    let ghost headed = texts(out@);
    match database.get(game.appid) {
        Some(data) => match &data.files {
            Some(files) => {
                push_file_lines(files, out);
                assert(start + head_lines(game@) + file_lines(files@) == start + (head_lines(game@)
                    + file_lines(files@)));
            },
            None => {
                assert(headed + Seq::<Seq<char>>::empty() == headed);
                assert(start + head_lines(game@) + Seq::<Seq<char>>::empty() == start + (
                head_lines(game@) + Seq::<Seq<char>>::empty()));
            },
        },
        None => {
            assert(start + head_lines(game@) + Seq::<Seq<char>>::empty() == start + (head_lines(
                game@,
            ) + Seq::<Seq<char>>::empty()));
        },
    }
}

/// Writes the report on the installed games: for each game its name, its
/// application identifier and its directory, then one line for each save
/// location that the database knows of it.
pub fn render(games: &Vec<Game>, database: &ManifestDatabase) -> (r: Vec<String>)
    ensures
        texts(r@) == report_lines(games_view(games@), database@),
{
    let ghost all = games_view(games@);
    let mut out: Vec<String> = Vec::new();
    let mut i: usize = 0;
    assert(all.take(0) == Seq::<GameView>::empty());
    assert(texts(out@) == Seq::<Seq<char>>::empty());
    while i < games.len()
        invariant
            i <= games.len(),
            all == games_view(games@),
            texts(out@) == report_lines(all.take(i as int), database@),
        decreases games.len() - i,
    {
        let ghost done = all.take(i + 1);
        assert(done.drop_last() == all.take(i as int));
        assert(done.last() == games@[i as int]@);
        push_game_lines(&games[i], database, &mut out);
        i += 1;
    }
    assert(all.take(i as int) == all);
    out
}

} // verus!
