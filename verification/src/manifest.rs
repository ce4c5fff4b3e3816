//! The manifest database: what is known of the files of each game, and the
//! table that finds a game by its Steam application identifier.

use vstd::prelude::*;
use std::collections::BTreeMap;
use crate::text::{optional_text, str_equal, texts};

verus! {

broadcast use {vstd::std_specs::btree::group_btree_axioms, vstd::laws_cmp::group_laws_cmp};

/// A constraint on where a file of a game is found.
#[derive(Debug, PartialEq, Eq)]
pub struct Condition {
    /// The operating system, where the file belongs to one.
    pub os: Option<String>,
    /// The storefront, where the file belongs to one.
    pub store: Option<String>,
}

/// The mathematical model of a `Condition`.
pub struct ConditionView {
    pub os: Option<Seq<char>>,
    pub store: Option<Seq<char>>,
}

impl View for Condition {
    type V = ConditionView;

    open spec fn view(&self) -> ConditionView {
        ConditionView { os: optional_text(self.os), store: optional_text(self.store) }
    }
}

/// What the database knows of one file pattern of a game.
#[derive(Debug, PartialEq, Eq)]
pub struct FileEntry {
    /// Labels such as `save` or `config`.
    pub tags: Option<Vec<String>>,
    /// Where the pattern applies.
    pub when: Option<Vec<Condition>>,
}

/// The mathematical model of a `FileEntry`.
pub struct FileEntryView {
    pub tags: Option<Seq<Seq<char>>>,
    pub when: Option<Seq<ConditionView>>,
}

impl View for FileEntry {
    type V = FileEntryView;

    open spec fn view(&self) -> FileEntryView {
        FileEntryView {
            tags: match self.tags {
                Some(tags) => Some(texts(tags@)),
                None => None,
            },
            when: match self.when {
                Some(when) => Some(when@.map_values(|c: Condition| c@)),
                None => None,
            },
        }
    }
}

/// The identity of a game on Steam.
#[derive(Debug, Clone, Copy, PartialEq, Eq)]
pub struct SteamInfo {
    id: u64,
}

impl SteamInfo {
    /// The application identifier.
    pub closed spec fn spec_id(&self) -> u64 {
        self.id
    }

    pub fn new(id: u64) -> (r: SteamInfo)
        ensures
            r.spec_id() == id,
    {
        SteamInfo { id }
    }

    /// The application identifier.
    #[verifier::when_used_as_spec(spec_id)]
    pub fn id(&self) -> (r: u64)
        ensures
            r == self.spec_id(),
    {
        self.id
    }
}

/// Whether no path occurs twice among `files`.
pub open spec fn distinct_paths(files: Seq<(Seq<char>, FileEntryView)>) -> bool {
    forall|i: int, j: int|
        0 <= i < j < files.len() ==> (#[trigger] files[i]).0 != (#[trigger] files[j]).0
}

/// The models of file patterns with their entries.
pub open spec fn files_view(files: Seq<(String, FileEntry)>) -> Seq<(Seq<char>, FileEntryView)> {
    files.map_values(|e: (String, FileEntry)| (e.0@, e.1@))
}

/// The file patterns of a game, each with its entry: a map from path pattern
/// to entry in which no pattern occurs twice. It keeps the order in which the
/// patterns came, so that what is written from it has one order.
#[derive(Debug, PartialEq, Eq)]
pub struct FileTable {
    entries: Vec<(String, FileEntry)>,
}

impl View for FileTable {
    type V = Seq<(Seq<char>, FileEntryView)>;

    closed spec fn view(&self) -> Seq<(Seq<char>, FileEntryView)> {
        files_view(self.entries@)
    }
}

impl FileTable {
    #[verifier::type_invariant]
    spec fn paths_are_distinct(self) -> bool {
        distinct_paths(self@)
    }

    /// A table without files.
    pub fn new() -> (r: FileTable)
        ensures
            r@ == Seq::<(Seq<char>, FileEntryView)>::empty(),
            distinct_paths(r@),
    {
        FileTable { entries: Vec::new() }
    }

    /// The number of file patterns.
    pub fn len(&self) -> (r: usize)
        ensures
            r == self@.len(),
            distinct_paths(self@),
    {
        proof {
            use_type_invariant(self);
        }
        self.entries.len()
    }

    /// The file pattern at `index`, with its entry.
    pub fn entry(&self, index: usize) -> (r: (&str, &FileEntry))
        requires
            index < self@.len(),
        ensures
            (r.0@, r.1@) == self@[index as int],
    {
        (self.entries[index].0.as_str(), &self.entries[index].1)
    }

    /// The position of `path` among the patterns.
    fn position(&self, path: &str) -> (r: Option<usize>)
        ensures
            match r {
                Some(i) => i < self@.len() && self@[i as int].0 == path@,
                None => forall|i: int| 0 <= i < self@.len() ==> (#[trigger] self@[i]).0 != path@,
            },
    {
        let mut i: usize = 0;
        while i < self.entries.len()
            invariant
                i <= self.entries.len(),
                forall|j: int| 0 <= j < i ==> (#[trigger] self@[j]).0 != path@,
            decreases self.entries.len() - i,
        {
            if str_equal(self.entries[i].0.as_str(), path) {
                return Some(i);
            }
            i += 1;
        }
        None
    }

    /// The entry of the pattern `path`.
    pub fn get(&self, path: &str) -> (r: Option<&FileEntry>)
        ensures
            match r {
                Some(entry) => exists|i: int|
                    0 <= i < self@.len() && #[trigger] self@[i] == (path@, entry@),
                None => forall|i: int| 0 <= i < self@.len() ==> (#[trigger] self@[i]).0 != path@,
            },
            distinct_paths(self@),
    {
        proof {
            use_type_invariant(self);
        }
        match self.position(path) {
            Some(i) => {
                assert(self@[i as int] == (path@, self.entries@[i as int].1@));
                Some(&self.entries[i].1)
            },
            None => None,
        }
    }

    /// Sets the entry of the pattern `path`. A pattern that the table holds
    /// keeps its place and gets the new entry, and the old one is returned; a
    /// new pattern goes to the end.
    pub fn insert(&mut self, path: String, entry: FileEntry) -> (r: Option<FileEntry>)
        ensures
            match r {
                Some(previous) => exists|i: int|
                    0 <= i < old(self)@.len() && #[trigger] old(self)@[i] == (path@, previous@)
                        && final(self)@ == old(self)@.update(i, (path@, entry@)),
                None => final(self)@ == old(self)@.push((path@, entry@)) && forall|i: int|
                    0 <= i < old(self)@.len() ==> (#[trigger] old(self)@[i]).0 != path@,
            },
            distinct_paths(old(self)@),
            distinct_paths(final(self)@),
    {
        proof {
            use_type_invariant(&*self);
        }
        let found = self.position(path.as_str());
        let mut taken = FileTable::new();
        core::mem::swap(self, &mut taken);
        let FileTable { entries } = taken;
        let mut entries = entries;
        let ghost before = old(self)@;
        let ghost after = (path@, entry@);
        match found {
            Some(i) => {
                let previous = entries.remove(i);
                entries.insert(i, (path, entry));
                assert(before[i as int] == (path@, previous.1@));
                assert(files_view(entries@) =~= before.update(i as int, after));
                assert(distinct_paths(files_view(entries@)));
                *self = FileTable { entries };
                Some(previous.1)
            },
            None => {
                entries.push((path, entry));
                assert(files_view(entries@) =~= before.push(after));
                assert(distinct_paths(files_view(entries@)));
                *self = FileTable { entries };
                None
            },
        }
    }
}

/// What the database knows of one game.
#[derive(Debug, PartialEq, Eq)]
pub struct GameData {
    /// The file patterns of the game, where it has any.
    pub files: Option<FileTable>,
    /// The identity of the game on Steam, where it has one.
    pub steam: Option<SteamInfo>,
}

/// The mathematical model of a `GameData`.
pub struct GameDataView {
    pub files: Option<Seq<(Seq<char>, FileEntryView)>>,
    pub steam: Option<u64>,
}

impl View for GameData {
    type V = GameDataView;

    open spec fn view(&self) -> GameDataView {
        GameDataView {
            files: match self.files {
                Some(files) => Some(files@),
                None => None,
            },
            steam: match self.steam {
                Some(steam) => Some(steam.id()),
                None => None,
            },
        }
    }
}

/// The models of a sequence of records.
pub open spec fn records_view(records: Seq<GameData>) -> Seq<GameDataView> {
    records.map_values(|g: GameData| g@)
}

/// The table that a sequence of records makes: each record that has a Steam
/// identifier stands under it, and of two records with one identifier the
/// later one stays. A record without a Steam identifier is left out.
pub open spec fn manifest_of(records: Seq<GameDataView>) -> Map<u64, GameDataView>
    decreases records.len(),
{
    if records.len() == 0 {
        Map::empty()
    } else {
        let earlier = manifest_of(records.drop_last());
        match records.last().steam {
            Some(id) => earlier.insert(id, records.last()),
            None => earlier,
        }
    }
}

/// The games of the database, each under its Steam application identifier.
#[derive(Debug)]
pub struct ManifestDatabase {
    games: BTreeMap<u64, GameData>,
}

impl View for ManifestDatabase {
    type V = Map<u64, GameDataView>;

    closed spec fn view(&self) -> Map<u64, GameDataView> {
        self.games@.map_values(|g: GameData| g@)
    }
}

impl ManifestDatabase {
    /// Builds the database from the records of its source document, taken in
    /// the order of the document.
    pub fn build(records: Vec<GameData>) -> (r: ManifestDatabase)
        ensures
            r@ == manifest_of(records_view(records@)),
    {
        let ghost all = records_view(records@);
        let mut games: BTreeMap<u64, GameData> = BTreeMap::new();
        assert(all.take(0) == Seq::<GameDataView>::empty());
        assert(games@.map_values(|g: GameData| g@) == Map::<u64, GameDataView>::empty());
        for record in it: records
            invariant
                it.seq() == records@,
                all == records_view(records@),
                games@.map_values(|g: GameData| g@) == manifest_of(all.take(it.index() as int)),
        {
            let ghost done = all.take(it.index() + 1);
            assert(done.drop_last() == all.take(it.index() as int));
            assert(done.last() == record@);
            let id = match &record.steam {
                Some(steam) => Some(steam.id()),
                None => None,
            };
            match id {
                Some(id) => {
                    assert(games@.insert(id, record).map_values(|g: GameData| g@)
                        == games@.map_values(|g: GameData| g@).insert(id, record@));
                    games.insert(id, record);
                },
                None => {},
            }
        }
        assert(all.take(records@.len() as int) == all);
        ManifestDatabase { games }
    }

    /// What the database knows of the game with the identifier `id`.
    pub fn get(&self, id: u64) -> (r: Option<&GameData>)
        ensures
            match r {
                Some(game) => self@.contains_key(id) && self@[id] == game@,
                None => !self@.contains_key(id),
            },
    {
        self.games.get(&id)
    }
}

/// Of the records with one Steam identifier, the database holds the last.
pub proof fn lemma_later_record_stays(records: Seq<GameDataView>, index: int, id: u64)
    requires
        0 <= index < records.len(),
        records[index].steam == Some(id),
        forall|later: int| index < later < records.len() ==> records[later].steam != Some(id),
    ensures
        manifest_of(records).contains_key(id),
        manifest_of(records)[id] == records[index],
    decreases records.len(),
{
    if index < records.len() - 1 {
        lemma_later_record_stays(records.drop_last(), index, id);
    }
}

/// The database holds a game exactly where some record has its identifier,
/// and what it holds is one of those records.
pub proof fn lemma_manifest_holds_records(records: Seq<GameDataView>, id: u64)
    ensures
        manifest_of(records).contains_key(id) <==> exists|i: int|
            0 <= i < records.len() && (#[trigger] records[i]).steam == Some(id),
        manifest_of(records).contains_key(id) ==> manifest_of(records)[id].steam == Some(id),
    decreases records.len(),
{
    if records.len() > 0 {
        let earlier = records.drop_last();
        lemma_manifest_holds_records(earlier, id);
        if manifest_of(earlier).contains_key(id) {
            let i = choose|i: int| 0 <= i < earlier.len() && (#[trigger] earlier[i]).steam == Some(id);
            assert(records[i].steam == Some(id));
        }
        if records.last().steam == Some(id) {
            assert(records[records.len() - 1].steam == Some(id));
        }
        if exists|i: int| 0 <= i < records.len() && (#[trigger] records[i]).steam == Some(id) {
            let i = choose|i: int| 0 <= i < records.len() && (#[trigger] records[i]).steam == Some(id);
            if i < records.len() - 1 {
                assert(earlier[i].steam == Some(id));
            }
        }
    }
}

} // verus!
