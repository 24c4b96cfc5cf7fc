use ccusage_adapters::files::{
    file_matches_path, is_directory, is_regular_non_symlink, is_symlink, may_enter_profile_directory,
    may_open_state_db, open_profile_state_db, open_profile_state_db_by_path,
    open_profiles_directory, open_profiles_directory_by_path, open_state_db_file,
    present_non_symlink, DirectorySighting, FileKind,
};
use ccusage_adapters::identity::{windows_file_identity, DatabaseIdentity, WindowsFileInformation};
use ccusage_adapters::paths::{
    add_opened_state_db_path, add_state_db_path, hermes_homes, hermes_state_db_paths,
    profile_names, profile_state_db_paths, profiles_directory, state_db_path, DirectoryEntry,
    HermesError, HermesHomes, HermesStateDbPath, HomeScan, OpenedStateDb, ProfileStateDb,
};
use std::collections::BTreeMap;

#[derive(Clone)]
enum Node {
    File(u64),
    Directory,
    Link(String),
}

/// A file system in memory, rooted at `/root`.
struct Disk {
    nodes: BTreeMap<String, Node>,
    next_inode: u64,
}

impl Disk {
    fn new(files: &[&str]) -> Disk {
        let mut disk = Disk {
            nodes: BTreeMap::new(),
            next_inode: 1,
        };
        disk.create_dir_all("");
        for file in files {
            disk.create_file(file);
        }
        disk
    }

    fn path(&self, relative: &str) -> String {
        format!("/root/{relative}")
    }

    fn insert_parents(&mut self, path: &str) {
        let mut end = 0;
        while let Some(next) = path[end + 1..].find('/') {
            end = end + 1 + next;
            self.nodes
                .entry(path[..end].to_string())
                .or_insert(Node::Directory);
        }
    }

    fn create_dir_all(&mut self, relative: &str) {
        let path = self.path(relative);
        let path = path.trim_end_matches('/').to_string();
        self.insert_parents(&path);
        self.nodes.insert(path, Node::Directory);
    }

    fn create_file(&mut self, relative: &str) {
        let path = self.path(relative);
        self.insert_parents(&path);
        self.nodes.insert(path, Node::File(self.next_inode));
        self.next_inode += 1;
    }

    fn symlink(&mut self, target: &str, relative: &str) {
        let (target, path) = (self.path(target), self.path(relative));
        self.insert_parents(&path);
        self.nodes.insert(path, Node::Link(target));
    }

    fn hard_link(&mut self, original: &str, alias: &str) {
        let node = self.nodes[&self.path(original)].clone();
        self.nodes.insert(self.path(alias), node);
    }

    fn inode(&self, file: &str) -> Option<u64> {
        match self.nodes[file] {
            Node::File(inode) => Some(inode),
            _ => None,
        }
    }

    /// The path without links, the final one followed or not.
    fn resolve(&self, path: &str, follow: bool) -> Option<String> {
        let parts: Vec<&str> = path.split('/').filter(|p| !p.is_empty() && *p != ".").collect();
        let mut resolved = String::new();
        for (i, part) in parts.iter().enumerate() {
            let next = format!("{resolved}/{part}");
            match self.nodes.get(&next)? {
                Node::Link(target) if follow || i + 1 < parts.len() => {
                    resolved = self.resolve(target, true)?;
                }
                _ => resolved = next,
            }
        }
        Some(resolved)
    }

    fn kind(&self, path: &str) -> Option<FileKind> {
        Some(match self.nodes[&self.resolve(path, false)?] {
            Node::File(_) => FileKind::File,
            Node::Directory => FileKind::Directory,
            Node::Link(_) => FileKind::Symlink,
        })
    }

    fn open(&self, path: &str, follow: bool) -> Option<String> {
        let resolved = self.resolve(path, follow)?;
        match self.nodes[&resolved] {
            Node::Link(_) => None,
            _ => Some(resolved),
        }
    }

    fn opened(&self, file: String) -> OpenedStateDb<String> {
        let numbers = match self.nodes[&file] {
            Node::File(inode) => Some((1, inode)),
            _ => Some((1, 0)),
        };
        OpenedStateDb {
            database_identity: DatabaseIdentity::from_open_file(self.kind(&file), numbers),
            file,
        }
    }

    fn entries(&self, directory: &str) -> Vec<Option<DirectoryEntry>> {
        let prefix = format!("{directory}/");
        let mut entries: Vec<Option<DirectoryEntry>> = self
            .nodes
            .keys()
            .filter_map(|path| path.strip_prefix(&prefix).filter(|name| !name.contains('/')))
            .map(|name| {
                Some(DirectoryEntry {
                    name: name.as_bytes().to_vec(),
                    kind: self.kind(&format!("{prefix}{name}")),
                })
            })
            .collect();
        entries.reverse();
        entries.push(None);
        entries
    }

    fn profiles(&self, home: &Vec<u8>) -> Vec<ProfileStateDb<String>> {
        let path = text(&profiles_directory(home, b'/'));
        let kind = self.kind(&path);
        let directory = if is_directory(kind) {
            let opened = self.open(&path, false);
            let kind = opened.as_ref().and_then(|file| self.kind(file));
            open_profiles_directory(opened, kind)
        } else {
            None
        };
        let entries = directory.as_ref().map(|directory| self.entries(directory));
        let names = profile_names(kind, directory.is_some(), entries);
        let opened = names
            .iter()
            .map(|name| {
                let profile = format!("{path}/{}", text(name));
                let directory = self.open(&profile, false);
                let database = self.open(&format!("{profile}/state.db"), false);
                let kind = database.as_ref().and_then(|file| self.kind(file));
                open_profile_state_db(directory.and_then(|d| self.kind(&d)), database, kind)
                    .map(|file| self.opened(file))
            })
            .collect();
        profile_state_db_paths(home, &names, opened, b'/')
    }

    fn discover(
        &self,
        configured: Option<&str>,
    ) -> Result<Vec<HermesStateDbPath<String>>, HermesError> {
        let homes = hermes_homes(configured, Some(b"/root".to_vec()), b'/')?;
        let scans = homes
            .homes
            .iter()
            .map(|home| {
                let path = text(&state_db_path(home, b'/'));
                let opened = open_state_db_file(
                    true,
                    self.kind(&path),
                    self.open(&path, true),
                    self.kind(&path),
                    false,
                );
                HomeScan {
                    state_db: opened.map(|file| self.opened(file)),
                    profiles: self.profiles(home),
                }
            })
            .collect();
        Ok(hermes_state_db_paths(&homes, scans, b'/'))
    }

    fn discovered_paths(&self, configured: Option<&str>) -> Vec<String> {
        self.discover(configured)
            .unwrap()
            .iter()
            .map(|path| text(&path.path))
            .collect()
    }
}

fn text(bytes: &Vec<u8>) -> String {
    String::from_utf8(bytes.clone()).unwrap()
}

#[test]
fn discovers_default_and_immediate_profile_databases_in_stable_order() {
    let mut fixture = Disk::new(&[
        ".hermes/state.db",
        ".hermes/profiles/personal/state.db",
        ".hermes/profiles/work/state.db",
        ".hermes/profiles/deep/ignored/state.db",
        ".hermes/profiles/not-a-profile",
    ]);
    fixture.create_dir_all(".hermes/profiles/directory-db/state.db");

    let paths = fixture.discovered_paths(None);

    assert_eq!(
        paths,
        vec![
            fixture.path(".hermes/state.db"),
            fixture.path(".hermes/profiles/personal/state.db"),
            fixture.path(".hermes/profiles/work/state.db"),
        ]
    );
}

#[test]
fn opens_default_and_profile_databases_with_distinct_identities() {
    let fixture = Disk::new(&[".hermes/state.db", ".hermes/profiles/work/state.db"]);

    let paths = fixture.discover(None).unwrap();

    assert_eq!(paths.len(), 2);
    assert_eq!(paths[0].profile_name, None);
    assert_eq!(paths[1].profile_name, Some(b"work".to_vec()));
    assert!(!paths[0].no_follow);
    assert!(paths[1].no_follow);
    assert_ne!(paths[0].database_identity, paths[1].database_identity);
}

#[test]
fn discovers_profiles_without_a_default_database() {
    let fixture = Disk::new(&[".hermes/profiles/work/state.db"]);

    let paths = fixture.discovered_paths(None);

    assert_eq!(paths, vec![fixture.path(".hermes/profiles/work/state.db")]);
}

#[test]
fn ignores_missing_profile_directory() {
    let fixture = Disk::new(&[".hermes/state.db"]);

    let paths = fixture.discovered_paths(None);

    assert_eq!(paths, vec![fixture.path(".hermes/state.db")]);
}

#[test]
fn ignores_invalid_profile_directory_and_state_db_entries() {
    let fixture = Disk::new(&[".hermes/state.db", ".hermes/profiles"]);

    assert_eq!(
        fixture.discovered_paths(None),
        vec![fixture.path(".hermes/state.db")]
    );
}

#[test]
fn ignores_non_directory_profiles_and_non_regular_state_dbs() {
    let mut fixture = Disk::new(&[".hermes/state.db", ".hermes/profiles/not-a-profile"]);
    fixture.create_dir_all(".hermes/profiles/directory-db/state.db");

    assert_eq!(
        fixture.discovered_paths(None),
        vec![fixture.path(".hermes/state.db")]
    );
}

#[test]
fn explicit_homes_are_authoritative_and_deduplicated() {
    let fixture = Disk::new(&[
        "first/state.db",
        "first/profiles/ignored/state.db",
        "second/state.db",
    ]);
    let first = fixture.path("first");
    let homes = [
        first.clone(),
        format!("{first}/./"),
        fixture.path("second"),
        fixture.path("missing"),
    ]
    .join(",");

    let paths = fixture.discovered_paths(Some(&homes));

    assert_eq!(
        paths,
        vec![
            fixture.path("first/state.db"),
            fixture.path("second/state.db")
        ]
    );
}

#[test]
fn empty_explicit_home_disables_default_discovery() {
    let fixture = Disk::new(&[".hermes/state.db", ".hermes/profiles/work/state.db"]);

    assert!(fixture.discovered_paths(Some("")).is_empty());
    assert!(fixture.discovered_paths(Some(" , ,")).is_empty());
}

#[test]
fn follows_default_root_state_db_symlinks() {
    let mut fixture = Disk::new(&[".hermes/state-target.db"]);
    fixture.symlink(".hermes/state-target.db", ".hermes/state.db");

    assert_eq!(
        fixture.discovered_paths(None),
        vec![fixture.path(".hermes/state.db")]
    );
}

#[test]
fn preserves_explicit_state_db_symlink_compatibility() {
    let mut fixture = Disk::new(&["state-target.db"]);
    fixture.symlink("state-target.db", "state.db");

    assert_eq!(
        fixture.discovered_paths(Some("/root")),
        vec![fixture.path("state.db")]
    );
}

#[test]
fn canonicalizes_duplicate_explicit_roots() {
    let mut fixture = Disk::new(&["first/state.db"]);
    fixture.symlink("first", "alias");
    let homes = [fixture.path("first"), fixture.path("alias")].join(",");

    let paths = fixture.discovered_paths(Some(&homes));

    assert_eq!(paths, vec![fixture.path("first/state.db")]);
}

#[test]
fn does_not_follow_profile_directory_or_state_db_symlinks() {
    let mut fixture = Disk::new(&[".hermes/state.db", ".hermes/profiles/real/state.db"]);
    fixture.symlink(".hermes/profiles/real", ".hermes/profiles/linked");
    fixture.symlink(
        ".hermes/state.db",
        ".hermes/profiles/symlinked-state/state.db",
    );

    let paths = fixture.discovered_paths(None);

    assert_eq!(
        paths,
        vec![
            fixture.path(".hermes/state.db"),
            fixture.path(".hermes/profiles/real/state.db"),
        ]
    );
}

#[test]
fn derives_the_same_identity_from_opened_hard_links() {
    let mut fixture = Disk::new(&["original.db", "other.db"]);
    fixture.hard_link("original.db", "alias.db");
    let identity = |relative: &str| {
        let file = fixture.open(&fixture.path(relative), true).unwrap();
        let index = fixture.inode(&file).unwrap();
        let information = WindowsFileInformation {
            volume_serial_number: 7,
            file_index_high: (index >> 32) as u32,
            file_index_low: index as u32,
        };
        let identity = DatabaseIdentity::from_open_file(
            fixture.kind(&file),
            windows_file_identity(Some(information)),
        );
        assert_eq!(identity, DatabaseIdentity::from_windows_handle(Some(information)));
        identity
    };

    assert!(identity("original.db").is_some());
    assert_eq!(identity("original.db"), identity("alias.db"));
    assert_ne!(identity("original.db"), identity("other.db"));
}

#[test]
fn windows_identifies_files_by_volume_and_index() {
    let information = WindowsFileInformation {
        volume_serial_number: 9,
        file_index_high: 1,
        file_index_low: 2,
    };
    assert_eq!(
        windows_file_identity(Some(information)),
        Some((9, 0x1_0000_0002))
    );
    let largest = WindowsFileInformation {
        volume_serial_number: u32::MAX,
        file_index_high: u32::MAX,
        file_index_low: u32::MAX,
    };
    assert_eq!(
        windows_file_identity(Some(largest)),
        Some((u32::MAX as u64, u64::MAX))
    );
    assert_eq!(windows_file_identity(None), None);
    assert_eq!(DatabaseIdentity::from_windows_handle(None), None);
}

#[test]
fn only_regular_files_have_an_identity() {
    let numbers = Some((3, 4));
    assert_eq!(
        DatabaseIdentity::from_open_file(Some(FileKind::File), numbers),
        Some(DatabaseIdentity::File {
            device: 3,
            inode: 4
        })
    );
    for kind in [FileKind::Directory, FileKind::Symlink, FileKind::Other] {
        assert_eq!(DatabaseIdentity::from_open_file(Some(kind), numbers), None);
    }
    assert_eq!(DatabaseIdentity::from_open_file(None, numbers), None);
    assert_eq!(
        DatabaseIdentity::from_open_file(Some(FileKind::File), None),
        None
    );
}

#[test]
fn session_keys_name_database_and_session() {
    let database = DatabaseIdentity::File {
        device: 64_769,
        inode: 12,
    };
    assert_eq!(database.session_key("abc"), "64769:12\0abc");
    assert_eq!(
        DatabaseIdentity::Unsupported.session_key("abc"),
        "unsupported\0abc"
    );
    let other = DatabaseIdentity::File {
        device: 6_476,
        inode: 912,
    };
    assert_ne!(database.session_key("abc"), other.session_key("abc"));
    assert_ne!(database.session_key("abc"), database.session_key("abd"));
}

#[test]
fn without_a_home_directory_nothing_is_searched() {
    let error = hermes_homes(None, None, b'/').unwrap_err();
    assert_eq!(error, HermesError::HomeDirectoryNotSet);
    assert_eq!(error.message(), "home directory is not set");
    assert!(hermes_homes(Some("/a"), None, b'/').is_ok());
}

#[test]
fn profiles_are_sorted_by_name_and_unreadable_entries_skipped() {
    let entry = |name: &str, kind| {
        Some(DirectoryEntry {
            name: name.as_bytes().to_vec(),
            kind,
        })
    };
    let entries = || {
        Some(vec![
            entry("work", Some(FileKind::Directory)),
            None,
            entry("file", Some(FileKind::File)),
            entry("unknown", None),
            entry("link", Some(FileKind::Symlink)),
            entry("wor", Some(FileKind::Directory)),
            entry("Work", Some(FileKind::Directory)),
        ])
    };
    let directory = Some(FileKind::Directory);
    assert_eq!(
        profile_names(directory, true, entries()),
        vec![b"Work".to_vec(), b"wor".to_vec(), b"work".to_vec()]
    );
    assert!(profile_names(directory, false, entries()).is_empty());
    assert!(profile_names(directory, true, None).is_empty());
    assert!(profile_names(Some(FileKind::Symlink), true, entries()).is_empty());
    assert!(profile_names(None, true, entries()).is_empty());
}

#[test]
fn a_database_is_added_once_and_needs_an_identity() {
    let opened = |file: u8, inode: Option<u64>| OpenedStateDb {
        file,
        database_identity: inode.map(|inode| DatabaseIdentity::File { device: 1, inode }),
    };
    let mut paths = Vec::new();
    add_state_db_path(b"a".to_vec(), None, &mut paths);
    add_state_db_path(b"b".to_vec(), Some(opened(1, None)), &mut paths);
    assert!(paths.is_empty());
    add_state_db_path(b"c".to_vec(), Some(opened(2, Some(5))), &mut paths);
    add_opened_state_db_path(b"d".to_vec(), opened(3, Some(5)), true, None, &mut paths);
    let name = Some(b"p".to_vec());
    add_opened_state_db_path(b"e".to_vec(), opened(4, Some(6)), true, name, &mut paths);
    assert_eq!(paths.len(), 2);
    assert_eq!((paths[0].file, paths[1].file), (2, 4));
    assert_eq!((paths[0].no_follow, paths[1].no_follow), (false, true));
    assert_eq!(paths[1].path, b"e".to_vec());
    assert_eq!(paths[1].profile_name, Some(b"p".to_vec()));
}

#[test]
fn profiles_of_named_homes_are_left_out() {
    let opened = |inode| OpenedStateDb {
        file: inode,
        database_identity: Some(DatabaseIdentity::File { device: 1, inode }),
    };
    let scan = || {
        vec![HomeScan {
            state_db: Some(opened(1)),
            profiles: vec![ProfileStateDb {
                path: b"/p".to_vec(),
                profile_name: b"p".to_vec(),
                opened: opened(2),
            }],
        }]
    };
    let homes = |discover_profiles| HermesHomes {
        homes: vec![b"/h".to_vec()],
        discover_profiles,
    };
    assert_eq!(hermes_state_db_paths(&homes(false), scan(), b'/').len(), 1);
    assert_eq!(hermes_state_db_paths(&homes(true), scan(), b'/').len(), 2);
}

#[test]
fn kinds_decide_what_may_be_used() {
    let (file, directory) = (Some(FileKind::File), Some(FileKind::Directory));
    let link = Some(FileKind::Symlink);
    assert!(is_symlink(link) && !is_symlink(file) && !is_symlink(None));
    assert!(is_directory(directory) && !is_directory(link) && !is_directory(None));
    assert!(is_regular_non_symlink(file, directory));
    assert!(!is_regular_non_symlink(link, directory));
    assert!(!is_regular_non_symlink(file, link));
    assert!(!is_regular_non_symlink(file, None));
    assert!(present_non_symlink(file) && !present_non_symlink(link) && !present_non_symlink(None));
    assert!(file_matches_path(file, Some(true), file));
    assert!(!file_matches_path(link, Some(true), file));
    assert!(!file_matches_path(file, Some(false), file));
    assert!(!file_matches_path(file, None, file));
    assert!(!file_matches_path(file, Some(true), link));
    assert!(!file_matches_path(file, Some(true), None));
    assert!(may_open_state_db(true, link) && may_open_state_db(false, None));
    assert!(!may_open_state_db(false, link));
    assert_eq!(open_state_db_file(true, link, Some(1), None, false), Some(1));
    assert_eq!(open_state_db_file(false, file, Some(1), file, true), Some(1));
    assert_eq!(open_state_db_file(false, link, Some(1), file, true), None);
    assert_eq!(open_state_db_file(false, file, Some(1), directory, true), None);
    assert_eq!(open_state_db_file(false, file, Some(1), None, true), None);
    assert_eq!(open_state_db_file(false, file, Some(1), file, false), None);
    assert_eq!(open_state_db_file::<u8>(true, file, None, file, true), None);
    assert_eq!(open_profiles_directory(Some(1), directory), Some(1));
    assert_eq!(open_profiles_directory(Some(1), file), None);
    let by_path = open_profiles_directory_by_path;
    assert_eq!(by_path(directory, Some(1), directory, true), Some(1));
    assert_eq!(by_path(link, Some(1), directory, true), None);
    assert_eq!(by_path(directory, Some(1), link, true), None);
    assert_eq!(by_path(directory, Some(1), directory, false), None);
    assert_eq!(open_profile_state_db(directory, Some(1), file), Some(1));
    assert_eq!(open_profile_state_db(None, Some(1), file), None);
    assert_eq!(open_profile_state_db(directory, Some(1), directory), None);
}

#[test]
fn a_replaced_profile_directory_is_not_used() {
    let directory = Some(FileKind::Directory);
    let seen = |path, matches_path| DirectorySighting { path, matches_path };
    let good = seen(directory, true);
    assert!(may_enter_profile_directory(good, directory));
    assert!(!may_enter_profile_directory(good, Some(FileKind::File)));
    assert!(!may_enter_profile_directory(seen(directory, false), directory));
    let open = open_profile_state_db_by_path;
    assert_eq!(open(good, directory, Some(1), good), Some(1));
    assert_eq!(open(good, directory, None::<i32>, good), None);
    assert_eq!(open(good, directory, Some(1), seen(directory, false)), None);
    assert_eq!(
        open(good, directory, Some(1), seen(Some(FileKind::Symlink), true)),
        None
    );
    assert_eq!(open(seen(None, true), directory, Some(1), good), None);
}
