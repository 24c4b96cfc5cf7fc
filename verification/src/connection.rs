//! Opening and reading a session database, one step at a time.
//!
//! A database that was found as somebody's profile must be the file that was found,
//! even if its path is replaced in the meantime. It is opened by path all the same,
//! because SQLite derives the names of the files beside a database from its path;
//! the path is then looked at again. Where that fails, and the platform has a path
//! for an open file, the database is opened by the file that was found.

use crate::location::{file_name, file_name_of, join, joined, parent, parent_of};
use crate::order::{is_selection, lemma_selection_grows};
use crate::text::{append_decimal, decimal};
use vstd::prelude::*;
use vstd::string::*;

verus! {

/// The columns of a session, in the order in which they are read, for the sessions
/// that name a model.
pub const SESSION_QUERY: &'static str = "
    SELECT
        id,
        model,
        billing_provider,
        started_at,
        message_count,
        input_tokens,
        output_tokens,
        cache_read_tokens,
        cache_write_tokens,
        reasoning_tokens,
        estimated_cost_usd,
        actual_cost_usd
    FROM sessions
    WHERE model IS NOT NULL
        AND TRIM(model) != ''
";

/// What SQLite returns where it did what it was asked to.
pub const SUCCESS_CODE: i32 = 0;

/// What SQLite returns when it has fetched a row.
pub const ROW_CODE: i32 = 100;

/// What SQLite returns when there are no more rows.
pub const DONE_CODE: i32 = 101;

/// The flag that has SQLite open a database for reading only.
pub const READ_ONLY_FLAG: i32 = 1;

/// The flag that has SQLite open a database without following links.
pub const NO_FOLLOW_FLAG: i32 = 0x100_0000;

/// `sqlite::ffi::SQLITE_OK`, which is zero.
#[verifier::external_body]
fn code_of_success() -> (code: i32)
    ensures
        code == SUCCESS_CODE,
{
    sqlite::ffi::SQLITE_OK
}

/// `sqlite::ffi::SQLITE_ROW`, which is one hundred.
#[verifier::external_body]
fn code_of_row() -> (code: i32)
    ensures
        code == ROW_CODE,
{
    sqlite::ffi::SQLITE_ROW
}

/// `sqlite::ffi::SQLITE_DONE`, which is one hundred and one.
#[verifier::external_body]
fn code_of_done() -> (code: i32)
    ensures
        code == DONE_CODE,
{
    sqlite::ffi::SQLITE_DONE
}

/// `sqlite::ffi::SQLITE_OPEN_READONLY`, which is one.
#[verifier::external_body]
fn open_read_only() -> (flag: i32)
    ensures
        flag == READ_ONLY_FLAG,
{
    sqlite::ffi::SQLITE_OPEN_READONLY
}

/// `sqlite::ffi::SQLITE_OPEN_NOFOLLOW`, which is two to the power of twenty-four.
#[verifier::external_body]
fn open_no_follow() -> (flag: i32)
    ensures
        flag == NO_FOLLOW_FLAG,
{
    sqlite::ffi::SQLITE_OPEN_NOFOLLOW
}

/// Whether SQLite did what it was asked to, given what it returned.
pub fn is_success(code: i32) -> (r: bool)
    ensures
        r == (code == SUCCESS_CODE),
        r == (code == 0),
{
    code == code_of_success()
}

/// What came of fetching the next row.
#[derive(Clone, Copy, Debug, PartialEq, Eq, Structural)]
pub enum StatementStep {
    Row,
    Done,
    Failed,
}

/// What came of fetching the next row, given what SQLite returned.
pub fn statement_step(code: i32) -> (r: StatementStep)
    ensures
        r == if code == ROW_CODE {
            StatementStep::Row
        } else if code == DONE_CODE {
            StatementStep::Done
        } else {
            StatementStep::Failed
        },
        r is Row <==> code == 100,
        r is Done <==> code == 101,
{
    if code == code_of_row() {
        StatementStep::Row
    } else if code == code_of_done() {
        StatementStep::Done
    } else {
        StatementStep::Failed
    }
}

/// What is to be done next to open a database. Each step either succeeds or not,
/// up to the last three, which are the ways it can end.
#[derive(Clone, Copy, Debug, PartialEq, Eq, Structural)]
pub enum OpenStep {
    /// Look whether the path is a regular file in a directory, without links.
    InspectPath,
    /// Find the path without links in the parent directory.
    ResolveParent,
    /// Open the database by path, for reading only.
    OpenPath,
    /// Look whether the path is still a regular file and leads to the open file.
    RecheckPath,
    /// Open the database by the open file, for reading only.
    OpenDescriptor,
    /// Use the connection that was opened by path.
    UsePath,
    /// Use the connection that was opened by the open file.
    UseDescriptor,
    /// There is no connection.
    GiveUp,
}

/// How a database is to be opened.
#[derive(Clone, Copy, Debug, PartialEq, Eq, Structural)]
pub struct SqliteOpening {
    /// Links must not be followed, and the file must be the one that was found.
    pub no_follow: bool,
    /// The platform has paths for open files.
    pub descriptor_paths: bool,
}

impl SqliteOpening {
    pub open spec fn spec_first_step(self) -> OpenStep {
        if self.no_follow {
            OpenStep::InspectPath
        } else {
            OpenStep::OpenPath
        }
    }

    /// What to do where the database cannot be opened by path.
    pub open spec fn fallback(self) -> OpenStep {
        if self.descriptor_paths {
            OpenStep::OpenDescriptor
        } else {
            OpenStep::GiveUp
        }
    }

    pub open spec fn spec_next_step(self, step: OpenStep, succeeded: bool) -> OpenStep {
        match step {
            OpenStep::InspectPath => if !succeeded {
                self.fallback()
            } else if self.descriptor_paths {
                OpenStep::ResolveParent
            } else {
                OpenStep::OpenPath
            },
            OpenStep::ResolveParent => if succeeded {
                OpenStep::OpenPath
            } else {
                self.fallback()
            },
            OpenStep::OpenPath => if self.no_follow {
                if succeeded {
                    OpenStep::RecheckPath
                } else {
                    self.fallback()
                }
            } else if succeeded {
                OpenStep::UsePath
            } else {
                OpenStep::GiveUp
            },
            OpenStep::RecheckPath => if succeeded {
                OpenStep::UsePath
            } else {
                self.fallback()
            },
            OpenStep::OpenDescriptor => if succeeded {
                OpenStep::UseDescriptor
            } else {
                OpenStep::GiveUp
            },
            OpenStep::UsePath => OpenStep::UsePath,
            OpenStep::UseDescriptor => OpenStep::UseDescriptor,
            OpenStep::GiveUp => OpenStep::GiveUp,
        }
    }

    /// The step to begin with.
    pub fn first_step(&self) -> (r: OpenStep)
        ensures
            r == self.spec_first_step(),
    {
        if self.no_follow {
            OpenStep::InspectPath
        } else {
            OpenStep::OpenPath
        }
    }

    /// The flags with which a database is opened by path: for reading only, and where
    /// links must not be followed, without following any.
    pub fn path_flags(&self) -> (flags: i32)
        ensures
            self.no_follow ==> flags == READ_ONLY_FLAG | NO_FOLLOW_FLAG,
            !self.no_follow ==> flags == READ_ONLY_FLAG,
            self.no_follow ==> flags == 1i32 | 0x100_0000i32,
            !self.no_follow ==> flags == 1,
    {
        if self.no_follow {
            open_read_only() | open_no_follow()
        } else {
            open_read_only()
        }
    }

    /// The flags with which a database is opened by the open file: for reading only.
    pub fn descriptor_flags(&self) -> (flags: i32)
        ensures
            flags == READ_ONLY_FLAG,
            flags == 1,
    {
        open_read_only()
    }

    fn by_descriptor(&self) -> (r: OpenStep)
        ensures
            r == self.fallback(),
    {
        if self.descriptor_paths {
            OpenStep::OpenDescriptor
        } else {
            OpenStep::GiveUp
        }
    }

    /// The step that follows `step`, which succeeded or not.
    pub fn next_step(&self, step: OpenStep, succeeded: bool) -> (r: OpenStep)
        ensures
            r == self.spec_next_step(step, succeeded),
    {
        match step {
            OpenStep::InspectPath => if !succeeded {
                self.by_descriptor()
            } else if self.descriptor_paths {
                OpenStep::ResolveParent
            } else {
                OpenStep::OpenPath
            },
            OpenStep::ResolveParent => if succeeded {
                OpenStep::OpenPath
            } else {
                self.by_descriptor()
            },
            OpenStep::OpenPath => if self.no_follow {
                if succeeded {
                    OpenStep::RecheckPath
                } else {
                    self.by_descriptor()
                }
            } else if succeeded {
                OpenStep::UsePath
            } else {
                OpenStep::GiveUp
            },
            OpenStep::RecheckPath => if succeeded {
                OpenStep::UsePath
            } else {
                self.by_descriptor()
            },
            OpenStep::OpenDescriptor => if succeeded {
                OpenStep::UseDescriptor
            } else {
                OpenStep::GiveUp
            },
            OpenStep::UsePath => OpenStep::UsePath,
            OpenStep::UseDescriptor => OpenStep::UseDescriptor,
            OpenStep::GiveUp => OpenStep::GiveUp,
        }
    }

    /// The step reached from `step` after `n` more steps, each of which succeeds as
    /// `outcome` says.
    pub open spec fn after(
        self,
        step: OpenStep,
        outcome: spec_fn(OpenStep) -> bool,
        n: nat,
    ) -> OpenStep
        decreases n,
    {
        if n == 0 {
            step
        } else {
            self.after(self.spec_next_step(step, outcome(step)), outcome, (n - 1) as nat)
        }
    }
}

/// The path of a database with its parent directory replaced by `canonical_parent`, the
/// path of that directory without links, where it could be found. The name of the
/// database stays, and with it the names of the files beside it. There is none where the
/// path has no parent or no name at its end, nor where the parent is the empty path, at
/// which there is no directory.
pub fn canonical_path_without_final_component(
    path: &Vec<u8>,
    canonical_parent: Option<Vec<u8>>,
    separator: u8,
) -> (r: Option<Vec<u8>>)
    ensures
        match (parent_of(path@, separator), file_name_of(path@, separator), canonical_parent) {
            (Some(parent), Some(name), Some(canonical)) => if parent.len() > 0 {
                r matches Some(replaced) && replaced@ == joined(canonical@, name, separator)
            } else {
                r is None
            },
            _ => r is None,
        },
{
    match (parent(path, separator), file_name(path, separator), canonical_parent) {
        (Some(parent), Some(name), Some(canonical)) => if parent.len() > 0 {
            Some(join(&canonical, name.as_slice(), separator))
        } else {
            None
        },
        _ => None,
    }
}

/// The path of the open file with the given descriptor.
pub fn descriptor_path(descriptor: u32) -> (path: String)
    ensures
        path@ == "/dev/fd/"@ + decimal(descriptor as nat),
{
    let mut path = "/dev/fd/".to_owned();
    append_decimal(&mut path, descriptor as u64);
    path
}

/// The step is one of the ways to end.
pub open spec fn is_final(step: OpenStep) -> bool {
    step is UsePath || step is UseDescriptor || step is GiveUp
}

/// Where links must not be followed, the database is opened by path if the path is
/// regular, its parent is resolved where the platform asks for that, SQLite opens
/// it, and the path then still leads to the file that was found. Otherwise it is
/// opened by that file, where the platform allows it and SQLite opens it. Where
/// links may be followed, it is opened by path or not at all. Five steps suffice.
pub proof fn law_opening_ends_as_the_steps_say(
    opening: SqliteOpening,
    outcome: spec_fn(OpenStep) -> bool,
    n: nat,
)
    requires
        n >= 5,
    ensures
        opening.after(opening.spec_first_step(), outcome, n) == if !opening.no_follow {
            if outcome(OpenStep::OpenPath) {
                OpenStep::UsePath
            } else {
                OpenStep::GiveUp
            }
        } else if outcome(OpenStep::InspectPath) && (opening.descriptor_paths ==> outcome(
            OpenStep::ResolveParent,
        )) && outcome(OpenStep::OpenPath) && outcome(OpenStep::RecheckPath) {
            OpenStep::UsePath
        } else if opening.descriptor_paths && outcome(OpenStep::OpenDescriptor) {
            OpenStep::UseDescriptor
        } else {
            OpenStep::GiveUp
        },
{
    reveal_with_fuel(SqliteOpening::after, 6);
    let first = opening.spec_first_step();
    let reached = opening.after(first, outcome, 5);
    assert(is_final(reached));
    lemma_steps_add_up(opening, first, outcome, 5, (n - 5) as nat);
    lemma_final_steps_stay(opening, reached, outcome, (n - 5) as nat);
}

proof fn lemma_steps_add_up(
    opening: SqliteOpening,
    step: OpenStep,
    outcome: spec_fn(OpenStep) -> bool,
    n: nat,
    m: nat,
)
    ensures
        opening.after(step, outcome, n + m) == opening.after(
            opening.after(step, outcome, n),
            outcome,
            m,
        ),
    decreases n,
{
    if n > 0 {
        lemma_steps_add_up(
            opening,
            opening.spec_next_step(step, outcome(step)),
            outcome,
            (n - 1) as nat,
            m,
        );
    }
}

proof fn lemma_final_steps_stay(
    opening: SqliteOpening,
    step: OpenStep,
    outcome: spec_fn(OpenStep) -> bool,
    n: nat,
)
    requires
        is_final(step),
    ensures
        opening.after(step, outcome, n) == step,
    decreases n,
{
    if n > 0 {
        lemma_final_steps_stay(opening, step, outcome, (n - 1) as nat);
    }
}

/// Why the sessions of a database were not all read.
#[derive(Clone, Copy, Debug, PartialEq, Eq, Structural)]
pub enum StateDbFailure {
    /// The database could not be opened.
    Open,
    /// The query could not be prepared.
    Read,
    /// A row could not be fetched.
    Query,
}

/// What is said of a failure, before the path of the database.
pub open spec fn failure_text(failure: StateDbFailure) -> Seq<char> {
    match failure {
        StateDbFailure::Open => "Failed to open Hermes state database: "@,
        StateDbFailure::Read => "Failed to read Hermes state database: "@,
        StateDbFailure::Query => "Failed to query Hermes state database: "@,
    }
}

impl StateDbFailure {
    /// The message that reports the failure.
    pub fn message(&self, path: &str) -> (r: String)
        ensures
            r@ == failure_text(*self) + path@,
            *self is Open ==> r@ == "Failed to open Hermes state database: "@ + path@,
            *self is Read ==> r@ == "Failed to read Hermes state database: "@ + path@,
            *self is Query ==> r@ == "Failed to query Hermes state database: "@ + path@,
    {
        let mut message = String::new();
        match *self {
            StateDbFailure::Open => message.append("Failed to open Hermes state database: "),
            StateDbFailure::Read => message.append("Failed to read Hermes state database: "),
            StateDbFailure::Query => message.append("Failed to query Hermes state database: "),
        }
        message.append(path);
        assert(message@ =~= failure_text(*self) + path@);
        message
    }
}

/// What happens while the sessions of a database are read.
#[derive(Clone, Debug)]
pub enum StateDbEvent<E> {
    /// The database could not be opened.
    OpenFailed,
    /// The query could not be prepared.
    PrepareFailed,
    /// A row was fetched, and holds the given entry where it can be read.
    Row(Option<E>),
    /// There are no more rows.
    Done,
    /// Fetching a row failed.
    StepFailed,
}

/// The sessions read so far, and how reading ended, once it has.
#[derive(Clone, Debug)]
pub struct StateDbReading<E> {
    pub entries: Vec<E>,
    pub outcome: Option<Result<(), StateDbFailure>>,
}

/// The sessions read so far, and how reading ended.
#[verifier::ext_equal]
pub struct ReadingSoFar<E> {
    pub entries: Seq<E>,
    pub outcome: Option<Result<(), StateDbFailure>>,
}

impl<E> View for StateDbReading<E> {
    type V = ReadingSoFar<E>;

    open spec fn view(&self) -> ReadingSoFar<E> {
        ReadingSoFar { entries: self.entries@, outcome: self.outcome }
    }
}

/// Reading before anything has happened.
pub open spec fn reading_begun<E>() -> ReadingSoFar<E> {
    ReadingSoFar { entries: Seq::empty(), outcome: None }
}

/// What an event does to reading. Once reading has ended nothing does anything.
pub open spec fn reading_after<E>(reading: ReadingSoFar<E>, event: StateDbEvent<E>) -> ReadingSoFar<
    E,
> {
    if reading.outcome is Some {
        reading
    } else {
        match event {
            StateDbEvent::OpenFailed => ReadingSoFar {
                outcome: Some(Err(StateDbFailure::Open)),
                ..reading
            },
            StateDbEvent::PrepareFailed => ReadingSoFar {
                outcome: Some(Err(StateDbFailure::Read)),
                ..reading
            },
            StateDbEvent::Row(Some(entry)) => ReadingSoFar {
                entries: reading.entries.push(entry),
                ..reading
            },
            StateDbEvent::Row(None) => reading,
            StateDbEvent::Done => ReadingSoFar { outcome: Some(Ok(())), ..reading },
            StateDbEvent::StepFailed => ReadingSoFar {
                outcome: Some(Err(StateDbFailure::Query)),
                ..reading
            },
        }
    }
}

/// What a sequence of events comes to.
pub open spec fn reading_of<E>(events: Seq<StateDbEvent<E>>) -> ReadingSoFar<E>
    decreases events.len(),
{
    if events.len() == 0 {
        reading_begun()
    } else {
        reading_after(reading_of(events.drop_last()), events.last())
    }
}

impl<E> StateDbReading<E> {
    /// Reading before anything has happened.
    pub fn begin() -> (r: StateDbReading<E>)
        ensures
            r@ == reading_begun::<E>(),
    {
        let r = StateDbReading { entries: Vec::new(), outcome: None };
        assert(r@ =~= reading_begun::<E>());
        r
    }

    /// Takes note of an event, and says whether there is more to read.
    pub fn record(&mut self, event: StateDbEvent<E>) -> (more: bool)
        ensures
            final(self)@ == reading_after(old(self)@, event),
            more == (final(self).outcome is None),
    {
        if self.outcome.is_some() {
            return false;
        }
        match event {
            StateDbEvent::OpenFailed => {
                self.outcome = Some(Err(StateDbFailure::Open));
            },
            StateDbEvent::PrepareFailed => {
                self.outcome = Some(Err(StateDbFailure::Read));
            },
            StateDbEvent::Row(row) => {
                if let Some(entry) = row {
                    self.entries.push(entry);
                }
            },
            StateDbEvent::Done => {
                self.outcome = Some(Ok(()));
            },
            StateDbEvent::StepFailed => {
                self.outcome = Some(Err(StateDbFailure::Query));
            },
        }
        self.outcome.is_none()
    }
}

/// The sessions that a sequence of events leaves read, and how reading ended.
pub fn load_state_db_entries<E>(events: Vec<StateDbEvent<E>>) -> (r: StateDbReading<E>)
    ensures
        r@ == reading_of(events@),
{
    let mut reading = StateDbReading::begin();
    let ghost all = events@;
    assert(all.take(0) =~= Seq::empty());
    for event in it: events
        invariant
            it.seq() == all,
            reading@ == reading_of(all.take(it.index() as int)),
    {
        assert(all.take(it.index() + 1).drop_last() =~= all.take(it.index() as int));
        reading.record(event);
    }
    assert(all.take(all.len() as int) =~= all);
    reading
}

/// Once reading has ended, nothing that happens afterwards changes what was read or
/// how it ended.
pub proof fn law_nothing_follows_the_end<E>(
    events: Seq<StateDbEvent<E>>,
    more: Seq<StateDbEvent<E>>,
)
    requires
        reading_of(events).outcome is Some,
    ensures
        reading_of(events + more) == reading_of(events),
    decreases more.len(),
{
    if more.len() == 0 {
        assert(events + more =~= events);
    } else {
        assert((events + more).drop_last() =~= events + more.drop_last());
        law_nothing_follows_the_end(events, more.drop_last());
    }
}

/// The entries of the rows that could be read.
pub open spec fn readable_entries<E>(rows: Seq<Option<E>>) -> Seq<E>
    decreases rows.len(),
{
    if rows.len() == 0 {
        Seq::empty()
    } else {
        match rows.last() {
            Some(entry) => readable_entries(rows.drop_last()).push(entry),
            None => readable_entries(rows.drop_last()),
        }
    }
}

/// The events of rows being fetched one after another.
pub open spec fn row_events<E>(rows: Seq<Option<E>>) -> Seq<StateDbEvent<E>> {
    rows.map_values(|row: Option<E>| StateDbEvent::Row(row))
}

/// The rows fetched before reading ends are kept, those that cannot be read are
/// skipped, and a failure to fetch another row loses none of them.
pub proof fn law_rows_before_the_end_are_kept<E>(rows: Seq<Option<E>>)
    ensures
        reading_of(row_events(rows)) == (ReadingSoFar {
            entries: readable_entries(rows),
            outcome: None::<Result<(), StateDbFailure>>,
        }),
        reading_of(row_events(rows).push(StateDbEvent::Done)) == (ReadingSoFar {
            entries: readable_entries(rows),
            outcome: Some(Ok::<(), StateDbFailure>(())),
        }),
        reading_of(row_events(rows).push(StateDbEvent::StepFailed)) == (ReadingSoFar {
            entries: readable_entries(rows),
            outcome: Some(Err::<(), StateDbFailure>(StateDbFailure::Query)),
        }),
    decreases rows.len(),
{
    let events = row_events(rows);
    if rows.len() > 0 {
        law_rows_before_the_end_are_kept(rows.drop_last());
        assert(events.drop_last() =~= row_events(rows.drop_last()));
        assert(events.last() == StateDbEvent::Row(rows.last()));
    }
    assert(events.push(StateDbEvent::Done).drop_last() =~= events);
    assert(events.push(StateDbEvent::StepFailed).drop_last() =~= events);
}

/// What each event does to reading that has not ended. A row adds its entry, where it
/// could be read, after those before it, and reading goes on; every other event ends
/// reading, with the entries read so far.
pub proof fn law_what_each_event_does<E>(reading: ReadingSoFar<E>, event: StateDbEvent<E>)
    requires
        reading.outcome is None,
    ensures
        ({
            let after = reading_after(reading, event);
            match event {
                StateDbEvent::Row(Some(entry)) => {
                    &&& after.entries == reading.entries.push(entry)
                    &&& after.outcome is None
                },
                StateDbEvent::Row(None) => {
                    &&& after.entries == reading.entries
                    &&& after.outcome is None
                },
                _ => {
                    &&& after.entries == reading.entries
                    &&& after.outcome is Some
                    &&& event is Done ==> after.outcome->0 is Ok
                    &&& event is OpenFailed ==> after.outcome->0 == Err::<(), StateDbFailure>(
                        StateDbFailure::Open,
                    )
                    &&& event is PrepareFailed ==> after.outcome->0 == Err::<(), StateDbFailure>(
                        StateDbFailure::Read,
                    )
                    &&& event is StepFailed ==> after.outcome->0 == Err::<(), StateDbFailure>(
                        StateDbFailure::Query,
                    )
                },
            }
        }),
{
}

/// Nothing is read before any event, and events are taken one after another.
pub proof fn law_events_are_taken_one_after_another<E>(
    events: Seq<StateDbEvent<E>>,
    event: StateDbEvent<E>,
)
    ensures
        reading_begun::<E>().entries.len() == 0,
        reading_begun::<E>().outcome is None,
        reading_of(Seq::<StateDbEvent<E>>::empty()) == reading_begun::<E>(),
        reading_of(events.push(event)) == reading_after(reading_of(events), event),
        reading_of(events).outcome is Some ==> reading_of(events.push(event)) == reading_of(events),
{
    assert(events.push(event).drop_last() =~= events);
}

/// The rows that could be read give their entries, all of them and in their order.
pub proof fn law_all_readable_rows_are_kept<E>(rows: Seq<Option<E>>) -> (at: Seq<int>)
    ensures
        is_selection(rows.len() as int, |i: int| rows[i] is Some, at),
        readable_entries(rows).len() == at.len(),
        forall|k: int|
            0 <= k < at.len() ==> Some(#[trigger] readable_entries(rows)[k]) == rows[at[k]],
    decreases rows.len(),
{
    let keep = |i: int| rows[i] is Some;
    if rows.len() == 0 {
        Seq::empty()
    } else {
        let fewer = rows.drop_last();
        let before = |i: int| fewer[i] is Some;
        let n = rows.len() - 1;
        let earlier = law_all_readable_rows_are_kept(fewer);
        assert(is_selection(n, before, earlier));
        assert forall|i: int| 0 <= i < n implies #[trigger] before(i) == keep(i) by {
            assert(fewer[i] == rows[i]);
        }
        let at = lemma_selection_grows(n, before, keep, earlier);
        assert forall|k: int| 0 <= k < at.len() implies Some(#[trigger] readable_entries(rows)[k])
            == rows[at[k]] by {
            if k < earlier.len() {
                assert(readable_entries(rows)[k] == readable_entries(fewer)[k]);
                assert(at[k] == earlier[k]);
                assert(fewer[earlier[k]] == rows[at[k]]);
            }
        }
        at
    }
}

/// What has been read is what the fields hold.
pub proof fn law_view_shows_the_fields<E>(reading: StateDbReading<E>)
    ensures
        reading@.entries == reading.entries@,
        reading@.outcome == reading.outcome,
{
}

} // verus!
