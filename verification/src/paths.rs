//! Finding the session databases.
//!
//! Paths and names are bytes, as the platform encodes them. Homes that the user
//! names are searched for their own database only; the default home is searched for
//! the databases of its profiles too. A database that can be reached by several
//! paths is taken once, by the first of them. `F` is an open file.

use crate::files::{is_directory, FileKind};
use crate::identity::DatabaseIdentity;
use crate::location::{join, joined};
use crate::order::{
    goes_before, is_selection, is_stable_order, law_reordering_keeps_the_items,
    lemma_selection_grows, reordered, stable_order, SortKey,
};
use crate::text::{
    comma_separated, contents, is_white_space, split, trimmed_parts, trimmed_start,
};
use vstd::prelude::*;
use vstd::string::*;

verus! {

/// Why no homes are known.
#[derive(Clone, Copy, Debug, PartialEq, Eq, Structural)]
pub enum HermesError {
    HomeDirectoryNotSet,
}

impl HermesError {
    pub fn message(&self) -> (r: String)
        ensures
            r@ == "home directory is not set"@,
    {
        "home directory is not set".to_owned()
    }
}

/// The homes to search, and whether to look for profiles in them.
#[derive(Clone, Debug)]
pub struct HermesHomes {
    pub homes: Vec<Vec<u8>>,
    pub discover_profiles: bool,
}

/// The encoded form of a name.
pub open spec fn encoded(name: &str) -> Seq<u8> {
    name.spec_bytes()
}

/// The homes to search: those that `configured` lists, separated by commas, or else
/// `.hermes` in the home directory, which is then searched for profiles.
pub fn hermes_homes(
    configured: Option<&str>,
    home_dir: Option<Vec<u8>>,
    separator: u8,
) -> (r: Result<HermesHomes, HermesError>)
    ensures
        match (configured, home_dir) {
            (Some(list), _) => r matches Ok(homes) && contents(homes.homes@) == trimmed_parts(
                split(list@, ','),
            ) && !homes.discover_profiles,
            (None, Some(home)) => r matches Ok(homes) && contents(homes.homes@) == seq![
                joined(home@, encoded(".hermes"), separator),
            ] && homes.discover_profiles,
            (None, None) => r == Err::<HermesHomes, HermesError>(HermesError::HomeDirectoryNotSet),
        },
{
    match configured {
        Some(list) => Ok(HermesHomes { homes: comma_separated(list), discover_profiles: false }),
        None => match home_dir {
            None => Err(HermesError::HomeDirectoryNotSet),
            Some(home) => {
                let mut homes: Vec<Vec<u8>> = Vec::new();
                homes.push(join(&home, ".hermes".as_bytes(), separator));
                assert(contents(homes@) =~= seq![joined(home@, encoded(".hermes"), separator)]);
                Ok(HermesHomes { homes, discover_profiles: true })
            },
        },
    }
}

/// A byte string goes before another at the first difference, or by ending there.
pub open spec fn bytes_at_most(left: Seq<u8>, right: Seq<u8>) -> bool
    decreases left.len(),
{
    if left.len() == 0 {
        true
    } else if right.len() == 0 {
        false
    } else if left.first() != right.first() {
        left.first() < right.first()
    } else {
        bytes_at_most(left.drop_first(), right.drop_first())
    }
}

proof fn lemma_bytes_at_most_total(left: Seq<u8>, right: Seq<u8>)
    ensures
        bytes_at_most(left, right) || bytes_at_most(right, left),
    decreases left.len(),
{
    if left.len() > 0 && right.len() > 0 {
        lemma_bytes_at_most_total(left.drop_first(), right.drop_first());
    }
}

proof fn lemma_bytes_at_most_transitive(a: Seq<u8>, b: Seq<u8>, c: Seq<u8>)
    requires
        bytes_at_most(a, b),
        bytes_at_most(b, c),
    ensures
        bytes_at_most(a, c),
    decreases a.len(),
{
    if a.len() > 0 && a.first() == b.first() && b.first() == c.first() {
        lemma_bytes_at_most_transitive(a.drop_first(), b.drop_first(), c.drop_first());
    }
}

impl SortKey for Vec<u8> {
    open spec fn spec_at_most(&self, other: &Self) -> bool {
        bytes_at_most(self@, other@)
    }

    proof fn lemma_total(a: &Self, b: &Self) {
        lemma_bytes_at_most_total(a@, b@);
    }

    proof fn lemma_transitive(a: &Self, b: &Self, c: &Self) {
        lemma_bytes_at_most_transitive(a@, b@, c@);
    }

    fn at_most(&self, other: &Self) -> (r: bool) {
        let mut i: usize = 0;
        assert(self@.skip(0) =~= self@);
        assert(other@.skip(0) =~= other@);
        while i < self.len() && i < other.len() && self[i] == other[i]
            invariant
                i <= self.len(),
                i <= other.len(),
                bytes_at_most(self@, other@) == bytes_at_most(
                    self@.skip(i as int),
                    other@.skip(i as int),
                ),
            decreases self.len() - i,
        {
            assert(self@.skip(i as int).drop_first() =~= self@.skip(i + 1));
            assert(other@.skip(i as int).drop_first() =~= other@.skip(i + 1));
            i = i + 1;
        }
        if i >= self.len() {
            true
        } else if i >= other.len() {
            false
        } else {
            self[i] < other[i]
        }
    }
}

/// An entry of a directory: its name, and its kind where that could be told.
#[derive(Clone, Debug)]
pub struct DirectoryEntry {
    pub name: Vec<u8>,
    pub kind: Option<FileKind>,
}

/// The names of the entries that could be read and are directories.
pub open spec fn directory_names(entries: Seq<Option<DirectoryEntry>>) -> Seq<Seq<u8>>
    decreases entries.len(),
{
    if entries.len() == 0 {
        Seq::empty()
    } else {
        let earlier = directory_names(entries.drop_last());
        match entries.last() {
            Some(entry) => if entry.kind == Some(FileKind::Directory) {
                earlier.push(entry.name@)
            } else {
                earlier
            },
            None => earlier,
        }
    }
}

/// `sorted` has the same names as `names`, in ascending order.
pub open spec fn is_sorted_names(names: Seq<Seq<u8>>, sorted: Seq<Seq<u8>>) -> bool {
    &&& sorted.to_multiset() == names.to_multiset()
    &&& forall|i: int, j: int|
        0 <= i < j < sorted.len() ==> bytes_at_most(#[trigger] sorted[i], #[trigger] sorted[j])
}

/// The names of the profiles, in ascending order: the names of the directories in
/// the profiles directory. There are none unless the profiles directory is one and
/// not a link, and could be opened and listed. An entry that could not be read is
/// `None`.
pub fn profile_names(
    profiles_path: Option<FileKind>,
    opened: bool,
    entries: Option<Vec<Option<DirectoryEntry>>>,
) -> (names: Vec<Vec<u8>>)
    ensures
        profiles_path == Some(FileKind::Directory) && opened && entries is Some ==> is_sorted_names(
            directory_names(entries->0@),
            contents(names@),
        ),
        !(profiles_path == Some(FileKind::Directory) && opened && entries is Some)
            ==> names@.len() == 0,
{
    if !is_directory(profiles_path) || !opened {
        return Vec::new();
    }
    match entries {
        None => Vec::new(),
        Some(entries) => sorted_names(directories(entries)),
    }
}

/// The names of the entries that could be read and are directories.
fn directories(entries: Vec<Option<DirectoryEntry>>) -> (names: Vec<Vec<u8>>)
    ensures
        contents(names@) == directory_names(entries@),
{
    let mut names: Vec<Vec<u8>> = Vec::new();
    let ghost all = entries@;
    assert(all.take(0) =~= Seq::empty());
    assert(contents(names@) =~= Seq::empty());
    for entry in it: entries
        invariant
            it.seq() == all,
            contents(names@) == directory_names(all.take(it.index() as int)),
    {
        assert(all.take(it.index() + 1).drop_last() =~= all.take(it.index() as int));
        if let Some(entry) = entry {
            if is_directory(entry.kind) {
                let ghost before = names@;
                names.push(entry.name);
                assert(contents(names@) =~= contents(before).push(entry.name@));
            }
        }
    }
    assert(all.take(all.len() as int) =~= all);
    names
}

/// The names in ascending order.
fn sorted_names(names: Vec<Vec<u8>>) -> (sorted: Vec<Vec<u8>>)
    ensures
        is_sorted_names(contents(names@), contents(sorted@)),
{
    let order = stable_order(&names);
    let mut sorted: Vec<Vec<u8>> = Vec::with_capacity(order.len());
    let mut k: usize = 0;
    while k < order.len()
        invariant
            k <= order.len(),
            is_stable_order(names@, order@),
            sorted.len() == k,
            forall|m: int| 0 <= m < k ==> (#[trigger] sorted[m])@ == names[order[m] as int]@,
        decreases order.len() - k,
    {
        sorted.push(names[order[k]].clone());
        assert(sorted[k as int]@ =~= names[order[k as int] as int]@);
        k = k + 1;
    }
    proof {
        assert(names@.len() == names.len());
        law_reordering_keeps_the_items(names@, order@, contents(names@));
        assert(contents(sorted@) =~= reordered(contents(names@), order@));
        assert forall|i: int, j: int| 0 <= i < j < contents(sorted@).len() implies bytes_at_most(
            #[trigger] contents(sorted@)[i],
            #[trigger] contents(sorted@)[j],
        ) by {
            assert(goes_before(names@, order[i] as int, order[j] as int));
            lemma_bytes_at_most_total(
                names[order[i] as int]@,
                names[order[j] as int]@,
            );
        }
    }
    sorted
}

/// An open database file, and its identity where it has one.
#[derive(Clone, Debug)]
pub struct OpenedStateDb<F> {
    pub file: F,
    pub database_identity: Option<DatabaseIdentity>,
}

/// The database of a profile.
#[derive(Clone, Debug)]
pub struct ProfileStateDb<F> {
    pub path: Vec<u8>,
    pub profile_name: Vec<u8>,
    pub opened: OpenedStateDb<F>,
}

/// The database that was found at a path: an open file with its identity. A profile's
/// has the profile's name, and links must not be followed to it again.
#[verifier::ext_equal]
pub struct FoundStateDb<F> {
    pub path: Seq<u8>,
    pub file: F,
    pub identity: Option<DatabaseIdentity>,
    pub no_follow: bool,
    pub profile_name: Option<Seq<u8>>,
}

impl<F> View for ProfileStateDb<F> {
    type V = FoundStateDb<F>;

    open spec fn view(&self) -> FoundStateDb<F> {
        FoundStateDb {
            path: self.path@,
            file: self.opened.file,
            identity: self.opened.database_identity,
            no_follow: true,
            profile_name: Some(self.profile_name@),
        }
    }
}

pub open spec fn found_profiles<F>(databases: Seq<ProfileStateDb<F>>) -> Seq<FoundStateDb<F>> {
    databases.map_values(|database: ProfileStateDb<F>| database@)
}

/// The path of the directory that holds the profiles of a home.
pub open spec fn profiles_path(home: Seq<u8>, separator: u8) -> Seq<u8> {
    joined(home, encoded("profiles"), separator)
}

/// The path of the database of a profile.
pub open spec fn profile_state_db_path(home: Seq<u8>, name: Seq<u8>, separator: u8) -> Seq<u8> {
    joined(
        joined(profiles_path(home, separator), name, separator),
        encoded("state.db"),
        separator,
    )
}

/// The databases of the profiles whose database could be opened, in the order of
/// the profiles.
pub open spec fn profile_state_dbs<F>(
    home: Seq<u8>,
    names: Seq<Seq<u8>>,
    opened: Seq<Option<OpenedStateDb<F>>>,
    separator: u8,
) -> Seq<FoundStateDb<F>>
    decreases names.len(),
{
    if names.len() == 0 {
        Seq::empty()
    } else {
        let earlier = profile_state_dbs(home, names.drop_last(), opened.drop_last(), separator);
        match opened.last() {
            None => earlier,
            Some(database) => earlier.push(
                FoundStateDb {
                    path: profile_state_db_path(home, names.last(), separator),
                    file: database.file,
                    identity: database.database_identity,
                    no_follow: true,
                    profile_name: Some(names.last()),
                },
            ),
        }
    }
}

/// The path of the directory that holds the profiles of a home.
pub fn profiles_directory(home: &Vec<u8>, separator: u8) -> (path: Vec<u8>)
    ensures
        path@ == profiles_path(home@, separator),
{
    join(home, "profiles".as_bytes(), separator)
}

/// The databases of the profiles in a home, given the names of the profiles and for
/// each of them the database, where it could be opened.
pub fn profile_state_db_paths<F>(
    home: &Vec<u8>,
    names: &Vec<Vec<u8>>,
    opened: Vec<Option<OpenedStateDb<F>>>,
    separator: u8,
) -> (databases: Vec<ProfileStateDb<F>>)
    requires
        opened.len() == names.len(),
    ensures
        found_profiles(databases@) == profile_state_dbs(
            home@,
            contents(names@),
            opened@,
            separator,
        ),
{
    let mut databases: Vec<ProfileStateDb<F>> = Vec::new();
    let ghost all = opened@;
    let profiles = profiles_directory(home, separator);
    let mut i: usize = 0;
    assert(contents(names@).take(0) =~= Seq::empty());
    assert(found_profiles(databases@) =~= Seq::empty());
    for database in it: opened
        invariant
            it.seq() == all,
            all.len() == names.len(),
            i == it.index(),
            profiles@ == profiles_path(home@, separator),
            found_profiles(databases@) == profile_state_dbs(
                home@,
                contents(names@).take(i as int),
                all.take(i as int),
                separator,
            ),
    {
        proof {
            assert(all.take(i + 1).drop_last() =~= all.take(i as int));
            assert(contents(names@).take(i + 1).drop_last() =~= contents(names@).take(i as int));
            assert(contents(names@).take(i + 1).last() == names[i as int]@);
        }
        if let Some(database) = database {
            let ghost before = databases@;
            let directory = join(&profiles, names[i].as_slice(), separator);
            let path = join(&directory, "state.db".as_bytes(), separator);
            let profile_name = names[i].clone();
            assert(profile_name@ =~= names[i as int]@);
            let found = ProfileStateDb { path, profile_name, opened: database };
            databases.push(found);
            assert(found_profiles(databases@) =~= found_profiles(before).push(found@));
        }
        i = i + 1;
    }
    proof {
        assert(all.take(all.len() as int) =~= all);
        assert(contents(names@).take(names@.len() as int) =~= contents(names@));
    }
    databases
}

/// What was found in a home: its own database and those of its profiles.
#[derive(Clone, Debug)]
pub struct HomeScan<F> {
    pub state_db: Option<OpenedStateDb<F>>,
    pub profiles: Vec<ProfileStateDb<F>>,
}

/// The path of the database of a home.
pub open spec fn home_state_db_path(home: Seq<u8>, separator: u8) -> Seq<u8> {
    joined(home, encoded("state.db"), separator)
}

/// The path of the database of a home.
pub fn state_db_path(home: &Vec<u8>, separator: u8) -> (path: Vec<u8>)
    ensures
        path@ == home_state_db_path(home@, separator),
{
    join(home, "state.db".as_bytes(), separator)
}

/// The home's own database, where it could be opened.
pub open spec fn found_in_root<F>(
    path: Seq<u8>,
    opened: Option<OpenedStateDb<F>>,
) -> Seq<FoundStateDb<F>> {
    match opened {
        None => Seq::empty(),
        Some(database) => seq![
            FoundStateDb {
                path,
                file: database.file,
                identity: database.database_identity,
                no_follow: false,
                profile_name: None,
            },
        ],
    }
}

/// The databases found in the homes, each home's own before those of its profiles,
/// which are left out unless they were looked for.
pub open spec fn found_in_homes<F>(
    homes: Seq<Seq<u8>>,
    discover_profiles: bool,
    scans: Seq<HomeScan<F>>,
    separator: u8,
) -> Seq<FoundStateDb<F>>
    decreases homes.len(),
{
    if homes.len() == 0 {
        Seq::empty()
    } else {
        let earlier = found_in_homes(
            homes.drop_last(),
            discover_profiles,
            scans.drop_last(),
            separator,
        );
        let root = found_in_root(
            home_state_db_path(homes.last(), separator),
            scans.last().state_db,
        );
        if discover_profiles {
            earlier + root + found_profiles(scans.last().profiles@)
        } else {
            earlier + root
        }
    }
}

/// A database to load: where it was found, which file it is, and how it is to be
/// opened.
#[derive(Clone, Debug)]
pub struct HermesStateDbPath<F> {
    pub path: Vec<u8>,
    pub database_identity: DatabaseIdentity,
    pub file: F,
    pub no_follow: bool,
    pub profile_name: Option<Vec<u8>>,
}

/// A database to load.
#[verifier::ext_equal]
pub struct StateDb<F> {
    pub path: Seq<u8>,
    pub identity: DatabaseIdentity,
    pub file: F,
    pub no_follow: bool,
    pub profile_name: Option<Seq<u8>>,
}

impl<F> View for HermesStateDbPath<F> {
    type V = StateDb<F>;

    open spec fn view(&self) -> StateDb<F> {
        StateDb {
            path: self.path@,
            identity: self.database_identity,
            file: self.file,
            no_follow: self.no_follow,
            profile_name: match self.profile_name {
                None => None,
                Some(name) => Some(name@),
            },
        }
    }
}

pub open spec fn state_dbs<F>(paths: Seq<HermesStateDbPath<F>>) -> Seq<StateDb<F>> {
    paths.map_values(|path: HermesStateDbPath<F>| path@)
}

/// One of the databases is the file with the given identity.
pub open spec fn has_identity<F>(databases: Seq<StateDb<F>>, identity: DatabaseIdentity) -> bool {
    exists|i: int| 0 <= i < databases.len() && (#[trigger] databases[i]).identity == identity
}

/// The databases with the one that was found added to them, if it has an identity
/// that none of them has.
pub open spec fn listed<F>(databases: Seq<StateDb<F>>, found: FoundStateDb<F>) -> Seq<StateDb<F>> {
    match found.identity {
        None => databases,
        Some(identity) => if has_identity(databases, identity) {
            databases
        } else {
            databases.push(
                StateDb {
                    path: found.path,
                    identity,
                    file: found.file,
                    no_follow: found.no_follow,
                    profile_name: found.profile_name,
                },
            )
        },
    }
}

/// The databases found, each file once and as it was first found.
pub open spec fn listed_all<F>(
    databases: Seq<StateDb<F>>,
    found: Seq<FoundStateDb<F>>,
) -> Seq<StateDb<F>>
    decreases found.len(),
{
    if found.len() == 0 {
        databases
    } else {
        listed(listed_all(databases, found.drop_last()), found.last())
    }
}

/// Adds an open database, unless it has no identity or one that was added before.
pub fn add_opened_state_db_path<F>(
    path: Vec<u8>,
    opened: OpenedStateDb<F>,
    no_follow: bool,
    profile_name: Option<Vec<u8>>,
    paths: &mut Vec<HermesStateDbPath<F>>,
)
    ensures
        state_dbs(final(paths)@) == listed(
            state_dbs(old(paths)@),
            FoundStateDb {
                path: path@,
                file: opened.file,
                identity: opened.database_identity,
                no_follow,
                profile_name: match profile_name {
                    None => None,
                    Some(name) => Some(name@),
                },
            },
        ),
{
    if let Some(database_identity) = opened.database_identity {
        let mut i: usize = 0;
        while i < paths.len()
            invariant
                paths@ == old(paths)@,
                i <= paths.len(),
                opened.database_identity == Some(database_identity),
                forall|k: int|
                    0 <= k < i ==> (#[trigger] state_dbs(paths@)[k]).identity != database_identity,
            decreases paths.len() - i,
        {
            if paths[i].database_identity == database_identity {
                assert(state_dbs(paths@)[i as int].identity == database_identity);
                return ;
            }
            i = i + 1;
        }
        let added = HermesStateDbPath {
            path,
            database_identity,
            file: opened.file,
            no_follow,
            profile_name,
        };
        paths.push(added);
        assert(state_dbs(paths@) =~= state_dbs(old(paths)@).push(added@));
    }
}

/// Adds the database at a home's own path, where it could be opened.
pub fn add_state_db_path<F>(
    path: Vec<u8>,
    opened: Option<OpenedStateDb<F>>,
    paths: &mut Vec<HermesStateDbPath<F>>,
)
    ensures
        state_dbs(final(paths)@) == listed_all(
            state_dbs(old(paths)@),
            found_in_root(path@, opened),
        ),
{
    if let Some(database) = opened {
        proof {
            let found = found_in_root(path@, opened);
            assert(found.drop_last() =~= Seq::empty());
            assert(listed_all(state_dbs(paths@), found.drop_last()) == state_dbs(paths@));
        }
        add_opened_state_db_path(path, database, false, None, paths);
    }
}

proof fn lemma_listing_adds_up<F>(
    databases: Seq<StateDb<F>>,
    left: Seq<FoundStateDb<F>>,
    right: Seq<FoundStateDb<F>>,
)
    ensures
        listed_all(databases, left + right) == listed_all(listed_all(databases, left), right),
    decreases right.len(),
{
    if right.len() == 0 {
        assert(left + right =~= left);
    } else {
        assert((left + right).drop_last() =~= left + right.drop_last());
        lemma_listing_adds_up(databases, left, right.drop_last());
    }
}

/// Adds the databases of profiles.
fn add_profile_state_db_paths<F>(
    profiles: Vec<ProfileStateDb<F>>,
    paths: &mut Vec<HermesStateDbPath<F>>,
)
    ensures
        state_dbs(final(paths)@) == listed_all(
            state_dbs(old(paths)@),
            found_profiles(profiles@),
        ),
{
    let ghost all = found_profiles(profiles@);
    assert(all.take(0) =~= Seq::empty());
    for profile in it: profiles
        invariant
            all == found_profiles(it.seq()),
            state_dbs(paths@) == listed_all(state_dbs(old(paths)@), all.take(it.index() as int)),
    {
        assert(all.take(it.index() + 1).drop_last() =~= all.take(it.index() as int));
        assert(all.take(it.index() + 1).last() == profile@);
        add_opened_state_db_path(
            profile.path,
            profile.opened,
            true,
            Some(profile.profile_name),
            paths,
        );
    }
    assert(all.take(all.len() as int) =~= all);
}

/// The databases to load, given what was found in each home.
pub fn hermes_state_db_paths<F>(
    homes: &HermesHomes,
    scans: Vec<HomeScan<F>>,
    separator: u8,
) -> (paths: Vec<HermesStateDbPath<F>>)
    requires
        scans.len() == homes.homes.len(),
    ensures
        state_dbs(paths@) == listed_all(
            Seq::empty(),
            found_in_homes(contents(homes.homes@), homes.discover_profiles, scans@, separator),
        ),
{
    let mut paths: Vec<HermesStateDbPath<F>> = Vec::new();
    let ghost all = scans@;
    let ghost names = contents(homes.homes@);
    let mut i: usize = 0;
    assert(names.take(0) =~= Seq::empty());
    assert(state_dbs(paths@) =~= Seq::empty());
    for scan in it: scans
        invariant
            it.seq() == all,
            all.len() == homes.homes.len(),
            names == contents(homes.homes@),
            i == it.index(),
            state_dbs(paths@) == listed_all(
                Seq::empty(),
                found_in_homes(
                    names.take(i as int),
                    homes.discover_profiles,
                    all.take(i as int),
                    separator,
                ),
            ),
    {
        let path = state_db_path(&homes.homes[i], separator);
        proof {
            let earlier = found_in_homes(
                names.take(i as int),
                homes.discover_profiles,
                all.take(i as int),
                separator,
            );
            let root = found_in_root(path@, scan.state_db);
            assert(all.take(i + 1).drop_last() =~= all.take(i as int));
            assert(names.take(i + 1).drop_last() =~= names.take(i as int));
            assert(names.take(i + 1).last() == homes.homes[i as int]@);
            lemma_listing_adds_up(Seq::empty(), earlier, root);
            lemma_listing_adds_up(Seq::empty(), earlier + root, found_profiles(scan.profiles@));
        }
        add_state_db_path(path, scan.state_db, &mut paths);
        if homes.discover_profiles {
            add_profile_state_db_paths(scan.profiles, &mut paths);
        }
        i = i + 1;
    }
    proof {
        assert(all.take(all.len() as int) =~= all);
        assert(names.take(names.len() as int) =~= names);
    }
    paths
}

/// No file is loaded twice.
pub proof fn law_databases_are_different_files<F>(found: Seq<FoundStateDb<F>>, i: int, j: int)
    requires
        0 <= i < j < listed_all(Seq::empty(), found).len(),
    ensures
        listed_all(Seq::empty(), found)[i].identity != listed_all(Seq::empty(), found)[j].identity,
    decreases found.len(),
{
    if found.len() > 0 {
        let earlier = listed_all(Seq::empty(), found.drop_last());
        let databases = listed_all(Seq::empty(), found);
        if j < earlier.len() {
            law_databases_are_different_files(found.drop_last(), i, j);
        } else {
            assert(databases[i] == earlier[i]);
        }
    }
}

/// The database at `k` has an identity, and none before it has the same.
pub open spec fn is_first_find<F>(found: Seq<FoundStateDb<F>>, k: int) -> bool {
    &&& 0 <= k < found.len()
    &&& found[k].identity is Some
    &&& forall|m: int| 0 <= m < k ==> (#[trigger] found[m]).identity != found[k].identity
}

/// Every file that was found and has an identity is loaded, from where it was first
/// found.
pub proof fn law_every_file_is_loaded_as_first_found<F>(found: Seq<FoundStateDb<F>>, k: int)
    requires
        is_first_find(found, k),
    ensures
        listed_all(Seq::empty(), found).contains(
            (StateDb {
                path: found[k].path,
                identity: found[k].identity->0,
                file: found[k].file,
                no_follow: found[k].no_follow,
                profile_name: found[k].profile_name,
            }),
        ),
    decreases found.len(),
{
    let rest = found.drop_last();
    let earlier = listed_all(Seq::empty(), rest);
    let databases = listed_all(Seq::empty(), found);
    let database = StateDb {
        path: found[k].path,
        identity: found[k].identity->0,
        file: found[k].file,
        no_follow: found[k].no_follow,
        profile_name: found[k].profile_name,
    };
    if k < rest.len() {
        assert(is_first_find(rest, k));
        law_every_file_is_loaded_as_first_found(rest, k);
        let i = choose|i: int| 0 <= i < earlier.len() && earlier[i] == database;
        assert(databases[i] == database);
    } else {
        if has_identity(earlier, found[k].identity->0) {
            let i = choose|i: int|
                0 <= i < earlier.len() && (#[trigger] earlier[i]).identity == found[k].identity->0;
            law_loaded_databases_were_found(rest, i);
        }
        assert(databases.last() == database);
    }
}

/// Every database that is loaded was found, and is loaded as it was found.
pub proof fn law_loaded_databases_were_found<F>(found: Seq<FoundStateDb<F>>, i: int)
    requires
        0 <= i < listed_all(Seq::empty(), found).len(),
    ensures
        ({
            let database = listed_all(Seq::empty(), found)[i];
            exists|m: int|
                0 <= m < found.len() && (#[trigger] found[m]).identity == Some(database.identity)
                    && found[m].path == database.path && found[m].file == database.file
                    && found[m].no_follow == database.no_follow && found[m].profile_name
                    == database.profile_name
        }),
    decreases found.len(),
{
    if found.len() > 0 {
        let rest = found.drop_last();
        let earlier = listed_all(Seq::empty(), rest);
        if i < earlier.len() {
            law_loaded_databases_were_found(rest, i);
            let database = earlier[i];
            let m = choose|m: int|
                0 <= m < rest.len() && (#[trigger] rest[m]).identity == Some(database.identity)
                    && rest[m].path == database.path && rest[m].file == database.file
                    && rest[m].no_follow == database.no_follow && rest[m].profile_name
                    == database.profile_name;
            assert(found[m] == rest[m]);
        } else {
            assert(found[found.len() - 1] == found.last());
        }
    }
}

/// Homes that the user names are searched for their own databases alone: none that
/// is loaded is a profile's.
pub proof fn law_named_homes_have_no_profiles<F>(
    homes: Seq<Seq<u8>>,
    scans: Seq<HomeScan<F>>,
    separator: u8,
    i: int,
)
    requires
        homes.len() == scans.len(),
        0 <= i < listed_all(Seq::empty(), found_in_homes(homes, false, scans, separator)).len(),
    ensures
        ({
            let database = listed_all(
                Seq::empty(),
                found_in_homes(homes, false, scans, separator),
            )[i];
            database.profile_name is None && !database.no_follow
        }),
{
    let found = found_in_homes(homes, false, scans, separator);
    law_loaded_databases_were_found(found, i);
    let database = listed_all(Seq::empty(), found)[i];
    let m = choose|m: int|
        0 <= m < found.len() && (#[trigger] found[m]).identity == Some(database.identity)
            && found[m].path == database.path && found[m].file == database.file
            && found[m].no_follow == database.no_follow && found[m].profile_name
            == database.profile_name;
    lemma_roots_are_no_profiles(homes, scans, separator, m);
}

proof fn lemma_roots_are_no_profiles<F>(
    homes: Seq<Seq<u8>>,
    scans: Seq<HomeScan<F>>,
    separator: u8,
    m: int,
)
    requires
        homes.len() == scans.len(),
        0 <= m < found_in_homes(homes, false, scans, separator).len(),
    ensures
        found_in_homes(homes, false, scans, separator)[m].profile_name is None,
        !found_in_homes(homes, false, scans, separator)[m].no_follow,
    decreases homes.len(),
{
    if homes.len() > 0 {
        let earlier = found_in_homes(homes.drop_last(), false, scans.drop_last(), separator);
        if m < earlier.len() {
            lemma_roots_are_no_profiles(homes.drop_last(), scans.drop_last(), separator, m);
        }
    }
}

/// An empty or blank list of homes names none.
pub proof fn law_a_blank_list_names_no_homes(list: Seq<char>)
    requires
        forall|i: int|
            0 <= i < list.len() ==> #[trigger] list[i] == ',' || is_white_space(list[i]),
    ensures
        trimmed_parts(split(list, ',')).len() == 0,
{
    lemma_blank_parts(list);
    lemma_blank_parts_are_dropped(split(list, ','));
}

spec fn is_blank(text: Seq<char>) -> bool {
    forall|i: int| 0 <= i < text.len() ==> is_white_space(#[trigger] text[i])
}

proof fn lemma_blank_parts(list: Seq<char>)
    requires
        forall|i: int|
            0 <= i < list.len() ==> #[trigger] list[i] == ',' || is_white_space(list[i]),
    ensures
        split(list, ',').len() > 0,
        forall|k: int| 0 <= k < split(list, ',').len() ==> is_blank(#[trigger] split(list, ',')[k]),
    decreases list.len(),
{
    if list.len() > 0 {
        lemma_blank_parts(list.drop_last());
        let parts = split(list.drop_last(), ',');
        assert(list[list.len() - 1] == list.last());
        assert(is_blank(parts[parts.len() - 1]));
    }
}

proof fn lemma_blank_parts_are_dropped(parts: Seq<Seq<char>>)
    requires
        forall|k: int| 0 <= k < parts.len() ==> is_blank(#[trigger] parts[k]),
    ensures
        trimmed_parts(parts).len() == 0,
    decreases parts.len(),
{
    if parts.len() > 0 {
        lemma_blank_parts_are_dropped(parts.drop_last());
        assert(is_blank(parts[parts.len() - 1]));
        lemma_blank_is_trimmed_away(parts.last());
    }
}

proof fn lemma_blank_is_trimmed_away(text: Seq<char>)
    requires
        is_blank(text),
    ensures
        trimmed_start(text).len() == 0,
    decreases text.len(),
{
    if text.len() > 0 {
        assert(is_white_space(text[0]));
        assert forall|i: int| 0 <= i < text.drop_first().len() implies is_white_space(
            #[trigger] text.drop_first()[i],
        ) by {
            assert(is_white_space(text[i + 1]));
        }
        lemma_blank_is_trimmed_away(text.drop_first());
    }
}

/// Byte strings are ordered by the first byte in which they differ, at `p`, and where
/// there is none the shorter goes first.
pub proof fn law_bytes_are_ordered_by_their_first_difference(
    left: Seq<u8>,
    right: Seq<u8>,
) -> (p: int)
    ensures
        0 <= p <= left.len(),
        p <= right.len(),
        forall|i: int| 0 <= i < p ==> #[trigger] left[i] == right[i],
        p < left.len() && p < right.len() ==> left[p] != right[p],
        bytes_at_most(left, right) == (p == left.len() || (p < right.len() && left[p] < right[p])),
    decreases left.len(),
{
    if left.len() == 0 || right.len() == 0 || left[0] != right[0] {
        0
    } else {
        let l = left.drop_first();
        let r = right.drop_first();
        let p = law_bytes_are_ordered_by_their_first_difference(l, r);
        assert forall|i: int| 0 <= i < p + 1 implies #[trigger] left[i] == right[i] by {
            if i > 0 {
                assert(l[i - 1] == r[i - 1]);
                assert(l[i - 1] == left[i]);
            }
        }
        if p < l.len() {
            assert(l[p] == left[p + 1]);
        }
        if p < r.len() {
            assert(r[p] == right[p + 1]);
        }
        p + 1
    }
}

/// The entries that are listed are those that could be read and are directories, all of
/// them and in their order.
pub proof fn law_all_directories_are_listed(entries: Seq<Option<DirectoryEntry>>) -> (at: Seq<int>)
    ensures
        is_selection(
            entries.len() as int,
            |i: int| entries[i] is Some && entries[i]->0.kind == Some(FileKind::Directory),
            at,
        ),
        directory_names(entries).len() == at.len(),
        forall|k: int|
            0 <= k < at.len() ==> #[trigger] directory_names(entries)[k] == entries[at[k]]->0.name@,
    decreases entries.len(),
{
    let keep = |i: int| entries[i] is Some && entries[i]->0.kind == Some(FileKind::Directory);
    if entries.len() == 0 {
        Seq::empty()
    } else {
        let fewer = entries.drop_last();
        let before = |i: int| fewer[i] is Some && fewer[i]->0.kind == Some(FileKind::Directory);
        let n = entries.len() - 1;
        let earlier = law_all_directories_are_listed(fewer);
        assert(is_selection(n, before, earlier));
        assert forall|i: int| 0 <= i < n implies #[trigger] before(i) == keep(i) by {
            assert(fewer[i] == entries[i]);
        }
        let at = lemma_selection_grows(n, before, keep, earlier);
        assert forall|k: int| 0 <= k < at.len() implies #[trigger] directory_names(entries)[k]
            == entries[at[k]]->0.name@ by {
            if k < earlier.len() {
                assert(directory_names(entries)[k] == directory_names(fewer)[k]);
                assert(at[k] == earlier[k]);
                assert(fewer[earlier[k]] == entries[at[k]]);
            }
        }
        at
    }
}

/// Sorting names keeps each as often as it occurs, and puts none before a smaller one.
pub proof fn law_names_are_sorted(names: Seq<Seq<u8>>, sorted: Seq<Seq<u8>>, name: Seq<u8>)
    requires
        is_sorted_names(names, sorted),
    ensures
        sorted.len() == names.len(),
        sorted.contains(name) == names.contains(name),
        sorted.to_multiset() == names.to_multiset(),
        forall|i: int, j: int|
            0 <= i < j < sorted.len() ==> bytes_at_most(#[trigger] sorted[i], #[trigger] sorted[j]),
{
    broadcast use vstd::seq_lib::to_multiset_contains;

    vstd::seq_lib::to_multiset_len(names);
    vstd::seq_lib::to_multiset_len(sorted);
    assert(sorted.contains(name) == sorted.to_multiset().contains(name));
    assert(names.contains(name) == names.to_multiset().contains(name));
}

/// The database of every profile that could be opened is found, in the order of the
/// profiles and no other: it has the opened file and its identity, the profile's name, and
/// the path of `state.db` in the directory of that name in `profiles` in the home. Links
/// must not be followed to it.
pub proof fn law_every_profile_with_a_database_is_found<F>(
    home: Seq<u8>,
    names: Seq<Seq<u8>>,
    opened: Seq<Option<OpenedStateDb<F>>>,
    separator: u8,
) -> (at: Seq<int>)
    requires
        opened.len() == names.len(),
    ensures
        is_selection(names.len() as int, |i: int| opened[i] is Some, at),
        profile_state_dbs(home, names, opened, separator).len() == at.len(),
        forall|k: int|
            0 <= k < at.len() ==> {
                let found = #[trigger] profile_state_dbs(home, names, opened, separator)[k];
                &&& found.path == joined(
                    joined(
                        joined(home, "profiles".spec_bytes(), separator),
                        names[at[k]],
                        separator,
                    ),
                    "state.db".spec_bytes(),
                    separator,
                )
                &&& found.file == opened[at[k]]->0.file
                &&& found.identity == opened[at[k]]->0.database_identity
                &&& found.no_follow
                &&& found.profile_name == Some(names[at[k]])
            },
    decreases names.len(),
{
    let keep = |i: int| opened[i] is Some;
    if names.len() == 0 {
        Seq::empty()
    } else {
        let fewer = opened.drop_last();
        let before = |i: int| fewer[i] is Some;
        let n = names.len() - 1;
        let earlier = law_every_profile_with_a_database_is_found(
            home,
            names.drop_last(),
            fewer,
            separator,
        );
        assert(is_selection(n, before, earlier));
        assert forall|i: int| 0 <= i < n implies #[trigger] before(i) == keep(i) by {
            assert(fewer[i] == opened[i]);
        }
        let at = lemma_selection_grows(n, before, keep, earlier);
        let old_dbs = profile_state_dbs(home, names.drop_last(), fewer, separator);
        let dbs = profile_state_dbs(home, names, opened, separator);
        assert forall|k: int| 0 <= k < at.len() implies ({
            let found = #[trigger] dbs[k];
            &&& found.path == joined(
                joined(
                    joined(home, "profiles".spec_bytes(), separator),
                    names[at[k]],
                    separator,
                ),
                "state.db".spec_bytes(),
                separator,
            )
            &&& found.file == opened[at[k]]->0.file
            &&& found.identity == opened[at[k]]->0.database_identity
            &&& found.no_follow
            &&& found.profile_name == Some(names[at[k]])
        }) by {
            if k < earlier.len() {
                assert(at[k] == earlier[k]);
                assert(dbs[k] == old_dbs[k]);
                assert(names.drop_last()[earlier[k]] == names[at[k]]);
                assert(fewer[earlier[k]] == opened[at[k]]);
            }
        }
        at
    }
}

/// Homes are searched one after another: to what is found in those before, a home adds
/// its own database, where it could be opened, and where profiles are looked for those of
/// its profiles.
pub proof fn law_homes_are_searched_one_after_another<F>(
    homes: Seq<Seq<u8>>,
    scans: Seq<HomeScan<F>>,
    home: Seq<u8>,
    scan: HomeScan<F>,
    discover_profiles: bool,
    separator: u8,
)
    requires
        homes.len() == scans.len(),
    ensures
        found_in_homes(Seq::empty(), discover_profiles, Seq::<HomeScan<F>>::empty(), separator).len()
            == 0,
        ({
            let before = found_in_homes(homes, discover_profiles, scans, separator);
            let after = found_in_homes(
                homes.push(home),
                discover_profiles,
                scans.push(scan),
                separator,
            );
            let own: int = if scan.state_db is Some {
                1
            } else {
                0
            };
            let more: int = if discover_profiles {
                scan.profiles@.len() as int
            } else {
                0
            };
            &&& after.len() == before.len() + own + more
            &&& forall|k: int| 0 <= k < before.len() ==> #[trigger] after[k] == before[k]
            &&& scan.state_db matches Some(database) ==> {
                let found = after[before.len() as int];
                &&& found.path == joined(home, "state.db".spec_bytes(), separator)
                &&& found.file == database.file
                &&& found.identity == database.database_identity
                &&& !found.no_follow
                &&& found.profile_name is None
            }
            &&& forall|k: int|
                0 <= k < more ==> {
                    let found = after[before.len() + own + k];
                    let profile = #[trigger] scan.profiles@[k];
                    &&& found.path == profile.path@
                    &&& found.file == profile.opened.file
                    &&& found.identity == profile.opened.database_identity
                    &&& found.no_follow
                    &&& found.profile_name == Some(profile.profile_name@)
                }
        }),
{
    assert(homes.push(home).drop_last() =~= homes);
    assert(scans.push(scan).drop_last() =~= scans);
}

/// The first database with the identity of the one at `m`.
proof fn lemma_first_of_its_file<F>(found: Seq<FoundStateDb<F>>, m: int) -> (first: int)
    requires
        0 <= m < found.len(),
        found[m].identity is Some,
    ensures
        0 <= first <= m,
        found[first].identity == found[m].identity,
        forall|n: int| 0 <= n < first ==> (#[trigger] found[n]).identity != found[m].identity,
    decreases m,
{
    if exists|n: int| 0 <= n < m && (#[trigger] found[n]).identity == found[m].identity {
        let n = choose|n: int| 0 <= n < m && (#[trigger] found[n]).identity == found[m].identity;
        lemma_first_of_its_file(found, n)
    } else {
        m
    }
}

/// The databases to load are those that were found with an identity that none found
/// before has, all of them and in their order, each as it was found.
pub proof fn law_first_finds_are_loaded_in_order<F>(found: Seq<FoundStateDb<F>>) -> (at: Seq<int>)
    ensures
        is_selection(
            found.len() as int,
            |k: int|
                found[k].identity is Some && forall|m: int|
                    0 <= m < k ==> (#[trigger] found[m]).identity != found[k].identity,
            at,
        ),
        listed_all(Seq::empty(), found).len() == at.len(),
        forall|k: int|
            0 <= k < at.len() ==> {
                let database = #[trigger] listed_all(Seq::empty(), found)[k];
                &&& database.path == found[at[k]].path
                &&& Some(database.identity) == found[at[k]].identity
                &&& database.file == found[at[k]].file
                &&& database.no_follow == found[at[k]].no_follow
                &&& database.profile_name == found[at[k]].profile_name
            },
    decreases found.len(),
{
    let keep = |k: int|
        found[k].identity is Some && forall|m: int|
            0 <= m < k ==> (#[trigger] found[m]).identity != found[k].identity;
    if found.len() == 0 {
        Seq::empty()
    } else {
        let fewer = found.drop_last();
        let before = |k: int|
            fewer[k].identity is Some && forall|m: int|
                0 <= m < k ==> (#[trigger] fewer[m]).identity != fewer[k].identity;
        let n = found.len() - 1;
        let earlier = law_first_finds_are_loaded_in_order(fewer);
        assert(is_selection(n, before, earlier));
        assert forall|k: int| 0 <= k < n implies #[trigger] before(k) == keep(k) by {
            assert(fewer[k] == found[k]);
            assert(forall|m: int| 0 <= m < k ==> #[trigger] fewer[m] == found[m]);
            assert(forall|m: int| 0 <= m < k ==> fewer[m] == #[trigger] found[m]);
        }
        let at = lemma_selection_grows(n, before, keep, earlier);
        let old_dbs = listed_all(Seq::empty(), fewer);
        let dbs = listed_all(Seq::empty(), found);
        if found[n].identity is Some {
            let identity = found[n].identity->0;
            if has_identity(old_dbs, identity) {
                let k = choose|k: int|
                    0 <= k < old_dbs.len() && (#[trigger] old_dbs[k]).identity == identity;
                assert(fewer[earlier[k]] == found[earlier[k]]);
                assert(found[earlier[k]].identity == found[n].identity);
                assert(!keep(n));
            } else if !keep(n) {
                let m = choose|m: int|
                    0 <= m < n && (#[trigger] found[m]).identity == found[n].identity;
                assert(fewer[m] == found[m]);
                let first = lemma_first_of_its_file(fewer, m);
                assert(before(first));
                let k = choose|k: int| 0 <= k < earlier.len() && earlier[k] == first;
                assert(old_dbs[k].identity == identity);
                assert(false);
            }
        }
        assert forall|k: int| 0 <= k < at.len() implies ({
            let database = #[trigger] dbs[k];
            &&& database.path == found[at[k]].path
            &&& Some(database.identity) == found[at[k]].identity
            &&& database.file == found[at[k]].file
            &&& database.no_follow == found[at[k]].no_follow
            &&& database.profile_name == found[at[k]].profile_name
        }) by {
            if k < earlier.len() {
                assert(at[k] == earlier[k]);
                assert(dbs[k] == old_dbs[k]);
                assert(fewer[earlier[k]] == found[at[k]]);
            }
        }
        at
    }
}

/// What a profile's database and a database to load are is what their fields hold.
pub proof fn law_views_show_the_fields<F>(
    profiles: Seq<ProfileStateDb<F>>,
    databases: Seq<HermesStateDbPath<F>>,
)
    ensures
        found_profiles(profiles).len() == profiles.len(),
        forall|k: int|
            0 <= k < profiles.len() ==> {
                let found = #[trigger] found_profiles(profiles)[k];
                &&& found.path == profiles[k].path@
                &&& found.file == profiles[k].opened.file
                &&& found.identity == profiles[k].opened.database_identity
                &&& found.no_follow
                &&& found.profile_name == Some(profiles[k].profile_name@)
            },
        state_dbs(databases).len() == databases.len(),
        forall|k: int|
            0 <= k < databases.len() ==> {
                let database = #[trigger] state_dbs(databases)[k];
                &&& database.path == databases[k].path@
                &&& database.identity == databases[k].database_identity
                &&& database.file == databases[k].file
                &&& database.no_follow == databases[k].no_follow
                &&& database.profile_name is Some == databases[k].profile_name is Some
                &&& databases[k].profile_name matches Some(name) ==> database.profile_name == Some(
                    name@,
                )
            },
{
}

/// A database that was found is added after the others if it has an identity and none of
/// them has the same; otherwise nothing changes. Databases are added one after another.
pub proof fn law_a_file_is_added_once<F>(
    databases: Seq<StateDb<F>>,
    earlier: Seq<FoundStateDb<F>>,
    found: FoundStateDb<F>,
)
    ensures
        ({
            let after = listed(databases, found);
            if found.identity is Some && forall|i: int|
                0 <= i < databases.len() ==> Some((#[trigger] databases[i]).identity)
                    != found.identity {
                &&& after.len() == databases.len() + 1
                &&& forall|i: int| 0 <= i < databases.len() ==> #[trigger] after[i] == databases[i]
                &&& after[databases.len() as int].path == found.path
                &&& Some(after[databases.len() as int].identity) == found.identity
                &&& after[databases.len() as int].file == found.file
                &&& after[databases.len() as int].no_follow == found.no_follow
                &&& after[databases.len() as int].profile_name == found.profile_name
            } else {
                after == databases
            }
        }),
        listed_all(databases, Seq::empty()) == databases,
        listed_all(databases, earlier.push(found)) == listed(listed_all(databases, earlier), found),
{
    assert(earlier.push(found).drop_last() =~= earlier);
}

} // verus!
