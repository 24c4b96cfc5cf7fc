use ccusage_adapters::connection::{
    canonical_path_without_final_component, descriptor_path, is_success, load_state_db_entries,
    statement_step, OpenStep, SqliteOpening, StateDbEvent, StateDbFailure, StateDbReading,
    StatementStep, SESSION_QUERY,
};
use ccusage_adapters::identity::DatabaseIdentity;
use ccusage_adapters::loader::{
    load_entries, load_entries_inner, profile_text, select_sessions, session_label,
    sort_by_timestamp, source_index, HermesEntry, LoadedEntry,
};
use ccusage_adapters::files::{
    file_matches_path, is_regular_non_symlink, still_leads_to_file, FileKind,
};
use ccusage_adapters::paths::{
    hermes_homes, hermes_state_db_paths, profile_state_db_paths, HermesError, HermesStateDbPath,
    HomeScan, OpenedStateDb,
};

#[derive(Clone, Debug, PartialEq)]
struct Row {
    timestamp: i64,
    input_tokens: u64,
    output_tokens: u64,
}

#[derive(Debug, PartialEq)]
struct Loaded {
    key: String,
    session_id: String,
    input_tokens: u64,
    output_tokens: u64,
}

fn database(path: &str, inode: u64, profile: Option<&[u8]>) -> HermesStateDbPath<()> {
    HermesStateDbPath {
        path: path.as_bytes().to_vec(),
        database_identity: DatabaseIdentity::File { device: 1, inode },
        file: (),
        no_follow: profile.is_some(),
        profile_name: profile.map(|name| name.to_vec()),
    }
}

fn session(id: &str, seconds: i64, input_tokens: u64, output_tokens: u64) -> HermesEntry<Row> {
    HermesEntry {
        session_id: id.to_string(),
        record: Row {
            timestamp: seconds * 1000,
            input_tokens,
            output_tokens,
        },
    }
}

fn to_loaded_entry(
    entry: HermesEntry<Row>,
    key: String,
    label: Option<String>,
) -> LoadedEntry<Loaded> {
    LoadedEntry {
        timestamp: entry.record.timestamp,
        record: Loaded {
            key,
            session_id: label.unwrap_or(entry.session_id),
            input_tokens: entry.record.input_tokens,
            output_tokens: entry.record.output_tokens,
        },
    }
}

fn session_ids(entries: &[LoadedEntry<Loaded>]) -> Vec<&str> {
    entries
        .iter()
        .map(|entry| entry.record.session_id.as_str())
        .collect()
}

#[test]
fn keeps_same_session_ids_distinct_across_databases_in_every_report_mode() {
    let databases = vec![
        database(".hermes/state.db", 1, None),
        database(".hermes/profiles/work/state.db", 2, Some(b"work")),
    ];
    let loaded = vec![
        vec![
            session("default-only", 1_750_000_000, 100, 10),
            session("shared", 1_750_000_001, 200, 10),
        ],
        vec![
            session("profile-only", 1_750_000_002, 300, 10),
            session("shared", 1_750_000_003, 400, 10),
        ],
    ];

    let entries = load_entries_inner(&databases, b'/', loaded, to_loaded_entry);

    assert_eq!(entries.len(), 4);
    assert_eq!(
        session_ids(&entries),
        vec!["default-only", "shared", "work/profile-only", "work/shared"]
    );
    assert_ne!(entries[1].record.key, entries[3].record.key);
    assert_eq!(
        entries
            .iter()
            .map(|entry| entry.record.input_tokens)
            .sum::<u64>(),
        1000
    );
    assert_eq!(
        entries
            .iter()
            .map(|entry| entry.record.output_tokens)
            .sum::<u64>(),
        40
    );
}

#[test]
fn explicit_homes_load_only_their_root_databases() {
    let opened = |inode: u64, session_id: &'static str| OpenedStateDb {
        file: session_id,
        database_identity: Some(DatabaseIdentity::File { device: 1, inode }),
    };
    let homes = hermes_homes(Some("/root/first,/root/second"), None, b'/').unwrap();
    let ignored = profile_state_db_paths(
        &homes.homes[0],
        &vec![b"ignored".to_vec()],
        vec![Some(opened(3, "profile"))],
        b'/',
    );
    assert_eq!(ignored.len(), 1);
    let scans = vec![
        HomeScan {
            state_db: Some(opened(1, "first")),
            profiles: ignored,
        },
        HomeScan {
            state_db: Some(opened(2, "second")),
            profiles: Vec::new(),
        },
    ];
    let databases = hermes_state_db_paths(&homes, scans, b'/');
    let loaded = databases
        .iter()
        .map(|database| match database.file {
            "first" => vec![session("first", 1_750_000_000, 100, 10)],
            "second" => vec![session("second", 1_750_000_001, 200, 20)],
            _ => vec![session("profile", 1_750_000_002, 400, 40)],
        })
        .collect();

    let entries = load_entries_inner(&databases, b'/', loaded, to_loaded_entry);

    assert_eq!(session_ids(&entries), vec!["first", "second"]);
}

#[test]
fn skips_missing_and_invalid_state_databases() {
    let databases = vec![
        database(".hermes/state.db", 1, None),
        database(".hermes/profiles/broken/state.db", 2, Some(b"broken")),
    ];
    let valid = load_state_db_entries(vec![
        StateDbEvent::Row(Some(session("valid", 1_750_000_000, 100, 10))),
        StateDbEvent::Done,
    ]);
    let broken = load_state_db_entries(vec![StateDbEvent::PrepareFailed]);
    assert_eq!(broken.outcome, Some(Err(StateDbFailure::Read)));

    let entries = load_entries_inner(
        &databases,
        b'/',
        vec![valid.entries, broken.entries],
        to_loaded_entry,
    );

    assert_eq!(entries.len(), 1);
    assert_eq!(entries[0].record.session_id, "valid");
}

#[test]
fn profile_sessions_keep_their_scope() {
    let databases = vec![
        database(".hermes/state.db", 1, None),
        database(".hermes/profiles/alpha/state.db", 2, Some(b"alpha")),
        database(".hermes/profiles/beta/state.db", 3, Some(b"beta")),
    ];
    let loaded = vec![
        vec![session("collision", 1_750_000_000, 100, 10)],
        vec![session("collision", 1_750_000_000, 200, 20)],
        vec![session("collision", 1_750_000_000, 300, 30)],
    ];

    let entries = load_entries(Ok(databases), b'/', loaded, to_loaded_entry).unwrap();

    assert_eq!(
        session_ids(&entries),
        vec!["collision", "alpha/collision", "beta/collision"]
    );
    assert_eq!(entries[0].record.key, "1:1\0collision");
    assert_eq!(entries[1].record.key, "1:2\0collision");
    assert_eq!(entries[2].record.key, "1:3\0collision");
}

#[test]
fn repeated_sessions_of_one_database_are_loaded_once() {
    let databases = vec![database("a", 1, None), database("b", 1, Some(b"again"))];
    let loaded = vec![
        vec![session("s", 5, 1, 0), session("t", 4, 2, 0), session("s", 3, 3, 0)],
        vec![session("s", 2, 4, 0), session("u", 1, 5, 0)],
    ];

    let entries = load_entries_inner(&databases, b'/', loaded, to_loaded_entry);

    assert_eq!(session_ids(&entries), vec!["again/u", "t", "s"]);
    assert_eq!(entries[2].record.input_tokens, 1);
}

#[test]
fn a_path_found_twice_is_read_by_its_first_discovery() {
    let databases = vec![
        database("a", 1, None),
        database("b", 2, None),
        database("a", 3, Some(b"late")),
    ];
    assert_eq!(source_index(&databases, b'/', 0), 0);
    assert_eq!(source_index(&databases, b'/', 1), 1);
    assert_eq!(source_index(&databases, b'/', 2), 0);

    let loaded = vec![
        vec![session("s", 1, 1, 0)],
        vec![session("s", 2, 2, 0)],
        vec![session("s", 3, 3, 0), session("t", 4, 4, 0)],
    ];
    let selected = select_sessions(&databases, b'/', loaded);
    let keys: Vec<&str> = selected.iter().map(|s| s.session_key.as_str()).collect();
    assert_eq!(keys, vec!["1:1\0s", "1:2\0s", "1:1\0t"]);
    assert!(selected.iter().all(|s| s.session_label.is_none()));
}

#[test]
fn a_path_written_differently_is_the_same_path() {
    let databases = vec![
        database("/home//a/state.db", 1, None),
        database("/home/a/./state.db", 2, None),
        database("home/a/state.db", 3, None),
    ];
    assert_eq!(source_index(&databases, b'/', 0), 0);
    assert_eq!(source_index(&databases, b'/', 1), 0);
    assert_eq!(source_index(&databases, b'/', 2), 2);
}

#[test]
fn labels_replace_what_is_not_text_in_a_profile_name() {
    let databases = vec![
        database("a", 1, Some(b"wo\xffrk")),
        database("b", 2, Some("gr\u{fc}n".as_bytes())),
    ];
    let loaded = vec![vec![session("s", 1, 1, 0)], vec![session("s", 2, 1, 0)]];

    let entries = load_entries_inner(&databases, b'/', loaded, to_loaded_entry);

    assert_eq!(session_ids(&entries), vec!["wo\u{fffd}rk/s", "gr\u{fc}n/s"]);
    assert_eq!(session_label("p", "s"), "p/s");
}

#[test]
fn a_surrogate_is_replaced_once_where_names_are_made_of_units() {
    let name = b"wo\xed\xa0\x80rk".to_vec();
    assert_eq!(profile_text(&name, b'\\'), "wo\u{fffd}rk");
    assert_eq!(profile_text(&name, b'/'), "wo\u{fffd}\u{fffd}\u{fffd}rk");
    let pair = b"\xed\xb0\x80\xed\xa0\x80".to_vec();
    assert_eq!(profile_text(&pair, b'\\'), "\u{fffd}\u{fffd}");
    let valid = "gr\u{fc}n \u{d7ff}\u{1f600}";
    assert_eq!(profile_text(&valid.as_bytes().to_vec(), b'\\'), valid);
    assert_eq!(profile_text(&valid.as_bytes().to_vec(), b'/'), valid);

    let databases = vec![database("a", 1, Some(&name))];
    let loaded = vec![vec![session("s", 1, 1, 0)]];
    let entries = load_entries_inner(&databases, b'\\', loaded, to_loaded_entry);
    assert_eq!(session_ids(&entries), vec!["wo\u{fffd}rk/s"]);
}

#[test]
fn entries_are_sorted_by_time_and_keep_their_order_within_it() {
    let entry = |timestamp, record| LoadedEntry { timestamp, record };
    let sorted = sort_by_timestamp(vec![
        entry(3, 'a'),
        entry(1, 'b'),
        entry(3, 'c'),
        entry(-2, 'd'),
        entry(1, 'e'),
    ]);
    let order: Vec<char> = sorted.iter().map(|entry| entry.record).collect();
    assert_eq!(order, vec!['d', 'b', 'e', 'a', 'c']);
}

#[test]
fn both_ways_of_loading_give_the_same_entries() {
    let databases = vec![database("a", 1, None), database("b", 2, Some(b"work"))];
    let loaded = vec![
        vec![session("s", 3, 1, 0), session("t", 1, 2, 0), session("s", 2, 3, 0)],
        vec![session("s", 3, 4, 0)],
    ];
    let inner = load_entries_inner(&databases, b'/', loaded.clone(), to_loaded_entry);
    let entries = load_entries(Ok(databases), b'/', loaded, to_loaded_entry).unwrap();
    assert_eq!(session_ids(&inner), vec!["t", "s", "work/s"]);
    assert_eq!(inner.len(), entries.len());
    for (left, right) in inner.iter().zip(&entries) {
        assert_eq!(left.timestamp, right.timestamp);
        assert_eq!(left.record, right.record);
    }
}

#[test]
fn an_unknown_home_directory_is_reported() {
    let found: Result<Vec<HermesStateDbPath<()>>, HermesError> =
        Err(HermesError::HomeDirectoryNotSet);
    let result = load_entries(found, b'/', Vec::new(), to_loaded_entry);
    assert_eq!(result.unwrap_err(), HermesError::HomeDirectoryNotSet);
}

fn run(opening: SqliteOpening, succeeds: &[OpenStep]) -> (OpenStep, Vec<OpenStep>) {
    let mut steps = Vec::new();
    let mut step = opening.first_step();
    while !matches!(
        step,
        OpenStep::UsePath | OpenStep::UseDescriptor | OpenStep::GiveUp
    ) {
        steps.push(step);
        step = opening.next_step(step, succeeds.contains(&step));
    }
    (step, steps)
}

/// The ids of the sessions that are read where the path leads to one database and the
/// open file to another.
fn session_ids_read(
    opening: SqliteOpening,
    path: FileKind,
    same_file: bool,
    at_path: &str,
    in_open_file: &str,
) -> Vec<String> {
    let parent = Some(FileKind::Directory);
    let mut succeeds = vec![
        OpenStep::ResolveParent,
        OpenStep::OpenPath,
        OpenStep::OpenDescriptor,
    ];
    if is_regular_non_symlink(Some(path), parent) {
        succeeds.push(OpenStep::InspectPath);
    }
    let matches_path = file_matches_path(Some(path), Some(same_file), Some(path));
    if still_leads_to_file(Some(path), parent, matches_path) {
        succeeds.push(OpenStep::RecheckPath);
    }
    let events = match run(opening, &succeeds).0 {
        OpenStep::UsePath => vec![
            StateDbEvent::Row(Some(session(at_path, 1_750_000_001, 200, 20))),
            StateDbEvent::Done,
        ],
        OpenStep::UseDescriptor => vec![
            StateDbEvent::Row(Some(session(in_open_file, 1_750_000_000, 100, 10))),
            StateDbEvent::Done,
        ],
        _ => vec![StateDbEvent::OpenFailed],
    };
    load_state_db_entries(events)
        .entries
        .into_iter()
        .map(|entry| entry.session_id)
        .collect()
}

#[test]
fn reads_the_database_opened_during_profile_discovery_after_path_replacement() {
    let opening = SqliteOpening {
        no_follow: true,
        descriptor_paths: true,
    };
    assert_eq!(
        session_ids_read(opening, FileKind::Symlink, false, "replacement", "original"),
        vec!["original"]
    );
    assert_eq!(
        session_ids_read(opening, FileKind::File, false, "replacement", "original"),
        vec!["original"]
    );

    let (end, steps) = run(opening, &[OpenStep::OpenPath, OpenStep::OpenDescriptor]);
    assert_eq!(end, OpenStep::UseDescriptor);
    assert_eq!(steps, vec![OpenStep::InspectPath, OpenStep::OpenDescriptor]);

    let (end, steps) = run(
        opening,
        &[
            OpenStep::InspectPath,
            OpenStep::ResolveParent,
            OpenStep::OpenPath,
            OpenStep::OpenDescriptor,
        ],
    );
    assert_eq!(end, OpenStep::UseDescriptor);
    assert_eq!(
        steps,
        vec![
            OpenStep::InspectPath,
            OpenStep::ResolveParent,
            OpenStep::OpenPath,
            OpenStep::RecheckPath,
            OpenStep::OpenDescriptor,
        ]
    );
}

#[test]
fn rejects_an_automatic_load_from_a_different_open_file() {
    let opening = SqliteOpening {
        no_follow: true,
        descriptor_paths: false,
    };
    assert!(session_ids_read(opening, FileKind::File, false, "mutable", "opened").is_empty());
    assert_eq!(
        session_ids_read(opening, FileKind::File, true, "mutable", "mutable"),
        vec!["mutable"]
    );

    let (end, steps) = run(opening, &[OpenStep::InspectPath, OpenStep::OpenPath]);
    assert_eq!(end, OpenStep::GiveUp);
    assert_eq!(
        steps,
        vec![
            OpenStep::InspectPath,
            OpenStep::OpenPath,
            OpenStep::RecheckPath
        ]
    );
}

#[test]
fn databases_are_opened_by_path_where_that_is_safe() {
    let profile = SqliteOpening {
        no_follow: true,
        descriptor_paths: true,
    };
    let all = [
        OpenStep::InspectPath,
        OpenStep::ResolveParent,
        OpenStep::OpenPath,
        OpenStep::RecheckPath,
        OpenStep::OpenDescriptor,
    ];
    assert_eq!(run(profile, &all).0, OpenStep::UsePath);
    assert_eq!(run(profile, &[]).0, OpenStep::GiveUp);
    let without_parent = [OpenStep::InspectPath, OpenStep::OpenDescriptor];
    assert_eq!(run(profile, &without_parent).0, OpenStep::UseDescriptor);
    assert_eq!(profile.path_flags(), 0x0100_0001);
    assert_eq!(profile.descriptor_flags(), 1);
    let root = SqliteOpening {
        no_follow: false,
        descriptor_paths: true,
    };
    assert_eq!(run(root, &all), (OpenStep::UsePath, vec![OpenStep::OpenPath]));
    let descriptor = [OpenStep::OpenDescriptor];
    assert_eq!(run(root, &descriptor), (OpenStep::GiveUp, vec![OpenStep::OpenPath]));
    assert_eq!(root.path_flags(), 1);
}

#[test]
fn flags_and_codes_are_those_of_sqlite() {
    let profile = SqliteOpening {
        no_follow: true,
        descriptor_paths: false,
    };
    assert_eq!(
        profile.path_flags(),
        sqlite::ffi::SQLITE_OPEN_READONLY | sqlite::ffi::SQLITE_OPEN_NOFOLLOW
    );
    assert_eq!(profile.descriptor_flags(), sqlite::ffi::SQLITE_OPEN_READONLY);
    assert!(is_success(sqlite::ffi::SQLITE_OK));
    assert!(!is_success(sqlite::ffi::SQLITE_ERROR));
    assert_eq!(statement_step(sqlite::ffi::SQLITE_ROW), StatementStep::Row);
    assert_eq!(statement_step(sqlite::ffi::SQLITE_DONE), StatementStep::Done);
    assert_eq!(statement_step(sqlite::ffi::SQLITE_OK), StatementStep::Failed);
    assert_eq!(statement_step(sqlite::ffi::SQLITE_BUSY), StatementStep::Failed);
}

#[test]
fn paths_for_opening_are_put_together() {
    let canonical = |path: &str, parent: Option<&str>| {
        canonical_path_without_final_component(
            &path.as_bytes().to_vec(),
            parent.map(|parent| parent.as_bytes().to_vec()),
            b'/',
        )
        .map(|path| String::from_utf8(path).unwrap())
    };
    assert_eq!(
        canonical("/var/home/state.db", Some("/private/var/home")).as_deref(),
        Some("/private/var/home/state.db")
    );
    assert_eq!(canonical("/state.db", Some("/")).as_deref(), Some("/state.db"));
    assert_eq!(canonical("./state.db", Some("/home")).as_deref(), Some("/home/state.db"));
    assert_eq!(canonical("/var/home/state.db", None), None);
    assert_eq!(canonical("/", Some("/")), None);
    assert_eq!(canonical("a/..", Some("/home/a")), None);
    assert_eq!(canonical("state.db", Some("/home")), None);
    assert_eq!(canonical("", Some("/home")), None);
    assert_eq!(descriptor_path(0), "/dev/fd/0");
    assert_eq!(descriptor_path(1024), "/dev/fd/1024");
}

#[test]
fn rows_read_before_a_failure_are_kept() {
    let reading = load_state_db_entries(vec![
        StateDbEvent::Row(Some(1)),
        StateDbEvent::Row(None),
        StateDbEvent::Row(Some(2)),
        StateDbEvent::StepFailed,
        StateDbEvent::Row(Some(3)),
    ]);
    assert_eq!(reading.entries, vec![1, 2]);
    assert_eq!(reading.outcome, Some(Err(StateDbFailure::Query)));
    let reading = load_state_db_entries(vec![StateDbEvent::OpenFailed, StateDbEvent::Row(Some(1))]);
    assert!(reading.entries.is_empty());
    assert_eq!(reading.outcome, Some(Err(StateDbFailure::Open)));
}

#[test]
fn reading_goes_on_until_it_ends() {
    let mut reading = StateDbReading::begin();
    assert!(reading.record(StateDbEvent::Row(Some('a'))));
    assert!(reading.record(StateDbEvent::Row(None)));
    assert!(!reading.record(StateDbEvent::Done));
    assert!(!reading.record(StateDbEvent::Row(Some('b'))));
    assert_eq!(reading.entries, vec!['a']);
    assert_eq!(reading.outcome, Some(Ok(())));
}

#[test]
fn failures_name_the_database() {
    assert_eq!(
        StateDbFailure::Open.message("/db"),
        "Failed to open Hermes state database: /db"
    );
    assert_eq!(
        StateDbFailure::Read.message("/db"),
        "Failed to read Hermes state database: /db"
    );
    assert_eq!(
        StateDbFailure::Query.message("/db"),
        "Failed to query Hermes state database: /db"
    );
}

#[test]
fn the_query_names_twelve_columns() {
    let columns = SESSION_QUERY
        .split("FROM")
        .next()
        .unwrap()
        .matches(',')
        .count()
        + 1;
    assert_eq!(columns, 12);
    assert!(SESSION_QUERY.contains("TRIM(model) != ''"));
}
