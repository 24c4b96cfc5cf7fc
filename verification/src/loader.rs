//! Loading the sessions of the databases that were found.
//!
//! Each session is loaded once, however often its database is read, and sessions of
//! different databases stay apart even if they have the same id.

use crate::identity::{law_session_keys_keep_sessions_apart, session_key_text, DatabaseIdentity};
use crate::location::{is_same_path, same_path, BACKSLASH};
use crate::order::{
    goes_before, is_selection, is_stable_order, law_numbers_are_sorted,
    law_reordering_keeps_the_items, law_stable_order_is_unique,
    law_stable_order_takes_every_position_once, lemma_selection_grows, reordered, stable_order,
};
use crate::paths::{state_dbs, HermesError, HermesStateDbPath, StateDb};
use crate::text::{law_valid_text_has_no_surrogates, replace_surrogates, surrogates_replaced};
use vstd::hash_set::StringHashSet;
use vstd::prelude::*;
use vstd::string::*;
use vstd::utf8::{decode_utf8, valid_utf8};

verus! {

/// A session read from a database.
#[derive(Clone, Debug)]
pub struct HermesEntry<E> {
    pub session_id: String,
    pub record: E,
}

/// A session as it is reported.
#[derive(Clone, Debug)]
pub struct LoadedEntry<L> {
    pub timestamp: i64,
    pub record: L,
}

/// The text of a name that need not be valid UTF-8, as `String::from_utf8_lossy`
/// gives it.
pub uninterp spec fn lossy_text(name: Seq<u8>) -> Seq<char>;

/// `String::from_utf8_lossy`: the text of a name, with a replacement character for
/// what is not valid UTF-8. The text of a valid name is what it decodes to; of what
/// replaces the rest, nothing more is said than that the name decides it.
#[verifier::external_body]
fn name_text(name: &Vec<u8>) -> (text: String)
    ensures
        text@ == lossy_text(name@),
        valid_utf8(name@) ==> text@ == decode_utf8(name@),
{
    String::from_utf8_lossy(name).into_owned()
}

/// The text of a name: what it decodes to, where it is valid UTF-8.
pub open spec fn text_of(name: Seq<u8>) -> Seq<char> {
    if valid_utf8(name) {
        decode_utf8(name)
    } else {
        lossy_text(name)
    }
}

/// The text by which a profile is shown. Where the separator is a backslash, names are
/// made of 16-bit units, and a unit that is no character is encoded as a surrogate: it
/// is replaced by one replacement character.
pub open spec fn shown_name(name: Seq<u8>, separator: u8) -> Seq<char> {
    if separator == BACKSLASH {
        text_of(surrogates_replaced(name))
    } else {
        text_of(name)
    }
}

/// The text by which a profile is shown.
pub fn profile_text(name: &Vec<u8>, separator: u8) -> (text: String)
    ensures
        text@ == shown_name(name@, separator),
{
    if separator == BACKSLASH {
        name_text(&replace_surrogates(name))
    } else {
        name_text(name)
    }
}

/// A profile whose name is valid UTF-8 is shown by that name, on every platform.
pub proof fn law_valid_names_are_shown_as_they_are(name: Seq<u8>, separator: u8)
    requires
        valid_utf8(name),
    ensures
        shown_name(name, separator) == decode_utf8(name),
{
    law_valid_text_has_no_surrogates(name);
}

/// The name under which a profile's session is shown.
pub open spec fn label_text(profile: Seq<char>, session_id: Seq<char>) -> Seq<char> {
    profile.push('/') + session_id
}

/// The name under which the session of a profile is shown.
pub fn session_label(profile: &str, session_id: &str) -> (label: String)
    ensures
        label@ == label_text(profile@, session_id@),
{
    proof {
        reveal_strlit("/");
    }
    let mut label = profile.to_owned();
    label.append("/");
    label.append(session_id);
    assert(label@ =~= label_text(profile@, session_id@));
    label
}

/// A session offered for loading, with the database it was read from and the text by
/// which a profile is shown.
pub struct Offer<E> {
    pub identity: DatabaseIdentity,
    pub profile: Option<Seq<char>>,
    pub session_id: Seq<char>,
    pub record: E,
}

impl<E> Offer<E> {
    /// The two are the same session.
    pub open spec fn is_same_session(self, other: Offer<E>) -> bool {
        self.identity == other.identity && self.session_id == other.session_id
    }

    pub open spec fn key(self) -> Seq<char> {
        session_key_text(self.identity, self.session_id)
    }

    /// Under which name a profile's session is shown.
    pub open spec fn label(self) -> Option<Seq<char>> {
        match self.profile {
            None => None,
            Some(profile) => Some(label_text(profile, self.session_id)),
        }
    }
}

/// The first position from `from` on at which a database has the given path.
pub open spec fn first_with_path<F>(
    databases: Seq<StateDb<F>>,
    path: Seq<u8>,
    separator: u8,
    from: int,
) -> int
    decreases databases.len() - from,
{
    if from >= databases.len() || is_same_path(databases[from].path, path, separator) {
        from
    } else {
        first_with_path(databases, path, separator, from + 1)
    }
}

/// The position of the database that is read for the one at `i`: the first with the
/// same path.
pub open spec fn source_of<F>(databases: Seq<StateDb<F>>, separator: u8, i: int) -> int {
    first_with_path(databases, databases[i].path, separator, 0)
}

/// The sessions read from one database.
pub open spec fn offers_from<F, E>(
    database: StateDb<F>,
    separator: u8,
    entries: Seq<HermesEntry<E>>,
) -> Seq<Offer<E>> {
    entries.map_values(
        |entry: HermesEntry<E>|
            Offer {
                identity: database.identity,
                profile: match database.profile_name {
                    None => None,
                    Some(name) => Some(shown_name(name, separator)),
                },
                session_id: entry.session_id@,
                record: entry.record,
            },
    )
}

/// The sessions read for the databases, in their order.
pub open spec fn offers_of<F, E>(
    databases: Seq<StateDb<F>>,
    separator: u8,
    loaded: Seq<Vec<HermesEntry<E>>>,
) -> Seq<Offer<E>>
    decreases loaded.len(),
{
    if loaded.len() == 0 {
        Seq::empty()
    } else {
        let i = loaded.len() - 1;
        offers_of(databases, separator, loaded.drop_last()) + offers_from(
            databases[source_of(databases, separator, i)],
            separator,
            loaded.last()@,
        )
    }
}

/// One of the sessions is the given one.
pub open spec fn has_session<E>(kept: Seq<Offer<E>>, offer: Offer<E>) -> bool {
    exists|k: int| 0 <= k < kept.len() && (#[trigger] kept[k]).is_same_session(offer)
}

/// The sessions without repetitions: of each the first that is offered.
pub open spec fn without_repetitions<E>(offers: Seq<Offer<E>>) -> Seq<Offer<E>>
    decreases offers.len(),
{
    if offers.len() == 0 {
        Seq::empty()
    } else {
        let earlier = without_repetitions(offers.drop_last());
        if has_session(earlier, offers.last()) {
            earlier
        } else {
            earlier.push(offers.last())
        }
    }
}

/// A session that is to be loaded, with its key and, for a profile's, the name to
/// show.
#[derive(Clone, Debug)]
pub struct SelectedSession<E> {
    pub entry: HermesEntry<E>,
    pub session_key: String,
    pub session_label: Option<String>,
}

impl<E> SelectedSession<E> {
    /// This is the session that was offered.
    pub open spec fn represents(&self, offer: Offer<E>) -> bool {
        &&& self.entry.session_id@ == offer.session_id
        &&& self.entry.record == offer.record
        &&& self.session_key@ == offer.key()
        &&& match offer.label() {
            None => self.session_label is None,
            Some(label) => self.session_label matches Some(shown) && shown@ == label,
        }
    }
}

pub open spec fn represent<E>(sessions: Seq<SelectedSession<E>>, offers: Seq<Offer<E>>) -> bool {
    &&& sessions.len() == offers.len()
    &&& forall|k: int| 0 <= k < sessions.len() ==> (#[trigger] sessions[k]).represents(offers[k])
}

/// The position of the database to read for the one at `i`: the first with the same
/// path.
pub fn source_index<F>(paths: &Vec<HermesStateDbPath<F>>, separator: u8, i: usize) -> (r: usize)
    requires
        i < paths.len(),
    ensures
        r <= i,
        r == source_of(state_dbs(paths@), separator, i as int),
        is_same_path(paths[r as int].path@, paths[i as int].path@, separator),
{
    let ghost databases = state_dbs(paths@);
    let mut j: usize = 0;
    while j < i && !same_path(&paths[j].path, &paths[i].path, separator)
        invariant
            j <= i < paths.len(),
            databases == state_dbs(paths@),
            first_with_path(databases, databases[i as int].path, separator, 0) == first_with_path(
                databases,
                databases[i as int].path,
                separator,
                j as int,
            ),
        decreases i - j,
    {
        assert(databases[j as int].path == paths[j as int].path@);
        j = j + 1;
    }
    assert(databases[j as int].path == paths[j as int].path@);
    j
}

/// The keys are those of the sessions.
spec fn are_keys_of<E>(keys: Set<Seq<char>>, kept: Seq<Offer<E>>) -> bool {
    &&& forall|k: int| 0 <= k < kept.len() ==> keys.contains((#[trigger] kept[k]).key())
    &&& forall|key: Seq<char>|
        keys.contains(key) ==> exists|k: int|
            0 <= k < kept.len() && (#[trigger] kept[k]).key() == key
}

proof fn lemma_key_is_known<E>(keys: Set<Seq<char>>, kept: Seq<Offer<E>>, offer: Offer<E>)
    requires
        are_keys_of(keys, kept),
    ensures
        keys.contains(offer.key()) == has_session(kept, offer),
{
    if keys.contains(offer.key()) {
        let k = choose|k: int| 0 <= k < kept.len() && (#[trigger] kept[k]).key() == offer.key();
        law_session_keys_keep_sessions_apart(
            kept[k].identity,
            kept[k].session_id,
            offer.identity,
            offer.session_id,
        );
        assert(kept[k].is_same_session(offer));
    }
}

/// Adds the sessions of one database that were not seen before.
fn select_from<F, E>(
    database: &HermesStateDbPath<F>,
    separator: u8,
    entries: Vec<HermesEntry<E>>,
    seen: &mut StringHashSet,
    selected: &mut Vec<SelectedSession<E>>,
    Ghost(offers): Ghost<Seq<Offer<E>>>,
)
    requires
        are_keys_of(old(seen)@, without_repetitions(offers)),
        represent(old(selected)@, without_repetitions(offers)),
    ensures
        are_keys_of(
            final(seen)@,
            without_repetitions(offers + offers_from(database@, separator, entries@)),
        ),
        represent(
            final(selected)@,
            without_repetitions(offers + offers_from(database@, separator, entries@)),
        ),
{
    let ghost more = offers_from(database@, separator, entries@);
    assert(offers + more.take(0) =~= offers);
    for entry in it: entries
        invariant
            more == offers_from(database@, separator, it.seq()),
            are_keys_of(seen@, without_repetitions(offers + more.take(it.index() as int))),
            represent(selected@, without_repetitions(offers + more.take(it.index() as int))),
    {
        let ghost now = offers + more.take(it.index() as int);
        let ghost then = offers + more.take(it.index() + 1);
        let ghost offer = more[it.index() as int];
        let ghost kept = without_repetitions(now);
        proof {
            assert(then.drop_last() =~= now);
            assert(then.last() == offer);
            lemma_key_is_known(seen@, kept, offer);
        }
        let session_key = database.database_identity.session_key(entry.session_id.as_str());
        let ghost keys = seen@;
        if seen.insert(session_key.clone()) {
            let session_label = match &database.profile_name {
                None => None,
                Some(name) => {
                    let profile = profile_text(name, separator);
                    Some(session_label(profile.as_str(), entry.session_id.as_str()))
                },
            };
            let ghost before = selected@;
            let session = SelectedSession { entry, session_key, session_label };
            selected.push(session);
            proof {
                assert(session.represents(offer));
                assert(without_repetitions(then) == kept.push(offer));
                assert forall|key: Seq<char>| seen@.contains(key) implies exists|k: int|
                    0 <= k < kept.push(offer).len() && (#[trigger] kept.push(offer)[k]).key()
                        == key by {
                    if keys.contains(key) {
                        let k = choose|k: int|
                            0 <= k < kept.len() && (#[trigger] kept[k]).key() == key;
                        assert(kept.push(offer)[k].key() == key);
                    } else {
                        assert(kept.push(offer)[kept.len() as int].key() == key);
                    }
                }
            }
        } else {
            assert(seen@ =~= keys);
        }
    }
    assert(more.take(more.len() as int) =~= more);
}

/// The sessions to load, without repetitions: `loaded` holds for each database the
/// sessions that were read for it.
pub fn select_sessions<F, E>(
    databases: &Vec<HermesStateDbPath<F>>,
    separator: u8,
    loaded: Vec<Vec<HermesEntry<E>>>,
) -> (selected: Vec<SelectedSession<E>>)
    requires
        loaded.len() == databases.len(),
    ensures
        represent(
            selected@,
            without_repetitions(offers_of(state_dbs(databases@), separator, loaded@)),
        ),
{
    let mut selected: Vec<SelectedSession<E>> = Vec::new();
    let mut seen = StringHashSet::new();
    let ghost all = loaded@;
    let mut i: usize = 0;
    assert(all.take(0) =~= Seq::empty());
    for entries in it: loaded
        invariant
            it.seq() == all,
            all.len() == databases.len(),
            i == it.index(),
            are_keys_of(
                seen@,
                without_repetitions(offers_of(state_dbs(databases@), separator, all.take(i as int))),
            ),
            represent(
                selected@,
                without_repetitions(offers_of(state_dbs(databases@), separator, all.take(i as int))),
            ),
    {
        let source: usize = source_index(databases, separator, i);
        let ghost offers = offers_of(state_dbs(databases@), separator, all.take(i as int));
        proof {
            assert(all.take(i + 1).drop_last() =~= all.take(i as int));
            assert(state_dbs(databases@)[source as int] == databases[source as int]@);
        }
        select_from(
            &databases[source],
            separator,
            entries,
            &mut seen,
            &mut selected,
            Ghost(offers),
        );
        i = i + 1;
    }
    assert(all.take(all.len() as int) =~= all);
    selected
}

/// The times of the entries.
pub open spec fn timestamps<L>(entries: Seq<LoadedEntry<L>>) -> Seq<i64> {
    entries.map_values(|entry: LoadedEntry<L>| entry.timestamp)
}

/// `sorted` are the entries by ascending time, those of the same time in the order
/// they had.
pub open spec fn is_sorted_by_timestamp<L>(
    entries: Seq<LoadedEntry<L>>,
    sorted: Seq<LoadedEntry<L>>,
) -> bool {
    exists|order: Seq<usize>| #[trigger]
        is_stable_order(timestamps(entries), order) && sorted == reordered(entries, order)
}

/// The entries by ascending time, those of the same time in the order they have.
pub fn sort_by_timestamp<L>(entries: Vec<LoadedEntry<L>>) -> (sorted: Vec<LoadedEntry<L>>)
    ensures
        is_sorted_by_timestamp(entries@, sorted@),
{
    let ghost all = entries@;
    let mut times: Vec<i64> = Vec::with_capacity(entries.len());
    let mut slots: Vec<Option<LoadedEntry<L>>> = Vec::with_capacity(entries.len());
    for entry in it: entries
        invariant
            it.seq() == all,
            times.len() == it.index(),
            slots.len() == it.index(),
            forall|k: int| 0 <= k < it.index() ==> #[trigger] times[k] == all[k].timestamp,
            forall|k: int| 0 <= k < it.index() ==> #[trigger] slots[k] == Some(all[k]),
    {
        times.push(entry.timestamp);
        slots.push(Some(entry));
    }
    let order = stable_order(&times);
    let mut sorted: Vec<LoadedEntry<L>> = Vec::with_capacity(order.len());
    let mut k: usize = 0;
    proof {
        assert(times@ =~= timestamps(all));
        law_stable_order_takes_every_position_once(times@, order@);
    }
    while k < order.len()
        invariant
            k <= order.len(),
            is_stable_order(times@, order@),
            order@.no_duplicates(),
            times.len() == all.len(),
            slots.len() == all.len(),
            sorted.len() == k,
            forall|m: int| 0 <= m < k ==> #[trigger] sorted[m] == all[order[m] as int],
            forall|m: int|
                k <= m < order.len() ==> slots[#[trigger] order[m] as int] == Some(
                    all[order[m] as int],
                ),
        decreases order.len() - k,
    {
        let position: usize = order[k];
        let slot = slots[position].take();
        if let Some(entry) = slot {
            sorted.push(entry);
        }
        k = k + 1;
    }
    assert(sorted@ =~= reordered(all, order@));
    sorted
}

/// `loaded` is what `convert` returns for the session that was offered.
pub open spec fn is_conversion_of<
    E,
    L,
    C: Fn(HermesEntry<E>, String, Option<String>) -> LoadedEntry<L>,
>(convert: C, offer: Offer<E>, loaded: LoadedEntry<L>) -> bool {
    exists|session: SelectedSession<E>|
        session.represents(offer) && #[trigger] call_ensures(
            convert,
            (session.entry, session.session_key, session.session_label),
            loaded,
        )
}

pub open spec fn are_conversions_of<
    E,
    L,
    C: Fn(HermesEntry<E>, String, Option<String>) -> LoadedEntry<L>,
>(convert: C, offers: Seq<Offer<E>>, loaded: Seq<LoadedEntry<L>>) -> bool {
    &&& loaded.len() == offers.len()
    &&& forall|k: int|
        0 <= k < offers.len() ==> is_conversion_of(convert, #[trigger] offers[k], loaded[k])
}

/// `entries` are the sessions read for the databases, without repetitions, converted
/// and sorted by time.
pub open spec fn are_loaded_entries<
    F,
    E,
    L,
    C: Fn(HermesEntry<E>, String, Option<String>) -> LoadedEntry<L>,
>(
    databases: Seq<StateDb<F>>,
    separator: u8,
    loaded: Seq<Vec<HermesEntry<E>>>,
    convert: C,
    entries: Seq<LoadedEntry<L>>,
) -> bool {
    exists|converted: Seq<LoadedEntry<L>>| #[trigger]
        are_conversions_of(convert, without_repetitions(offers_of(databases, separator, loaded)), converted)
            && is_sorted_by_timestamp(converted, entries)
}

/// The sessions read for the databases, without repetitions, each as `convert` gives
/// it from the session, its key and the name to show, sorted by time.
pub fn load_entries_inner<
    F,
    E,
    L,
    C: Fn(HermesEntry<E>, String, Option<String>) -> LoadedEntry<L>,
>(
    databases: &Vec<HermesStateDbPath<F>>,
    separator: u8,
    loaded: Vec<Vec<HermesEntry<E>>>,
    convert: C,
) -> (entries: Vec<LoadedEntry<L>>)
    requires
        loaded.len() == databases.len(),
        forall|entry: HermesEntry<E>, key: String, label: Option<String>| #[trigger]
            call_requires(convert, (entry, key, label)),
    ensures
        are_loaded_entries(state_dbs(databases@), separator, loaded@, convert, entries@),
{
    let ghost offers = without_repetitions(offers_of(state_dbs(databases@), separator, loaded@));
    let selected = select_sessions(databases, separator, loaded);
    let mut converted: Vec<LoadedEntry<L>> = Vec::with_capacity(selected.len());
    for session in it: selected
        invariant
            represent(it.seq(), offers),
            converted.len() == it.index(),
            forall|entry: HermesEntry<E>, key: String, label: Option<String>| #[trigger]
                call_requires(convert, (entry, key, label)),
            forall|k: int|
                0 <= k < it.index() ==> is_conversion_of(
                    convert,
                    #[trigger] offers[k],
                    converted[k],
                ),
    {
        let ghost taken = session;
        assert(taken.represents(offers[it.index() as int]));
        let entry = convert(session.entry, session.session_key, session.session_label);
        assert(is_conversion_of(convert, offers[it.index() as int], entry));
        converted.push(entry);
    }
    assert(are_conversions_of(convert, offers, converted@));
    sort_by_timestamp(converted)
}

/// The sessions of the databases that were found, or the reason why none were looked
/// for.
pub fn load_entries<
    F,
    E,
    L,
    C: Fn(HermesEntry<E>, String, Option<String>) -> LoadedEntry<L>,
>(
    found: Result<Vec<HermesStateDbPath<F>>, HermesError>,
    separator: u8,
    loaded: Vec<Vec<HermesEntry<E>>>,
    convert: C,
) -> (r: Result<Vec<LoadedEntry<L>>, HermesError>)
    requires
        found matches Ok(databases) ==> loaded.len() == databases.len(),
        forall|entry: HermesEntry<E>, key: String, label: Option<String>| #[trigger]
            call_requires(convert, (entry, key, label)),
    ensures
        match found {
            Err(error) => r == Err::<Vec<LoadedEntry<L>>, HermesError>(error),
            Ok(databases) => r matches Ok(entries) && are_loaded_entries(
                state_dbs(databases@),
                separator,
                loaded@,
                convert,
                entries@,
            ),
        },
{
    match found {
        Err(error) => Err(error),
        Ok(databases) => Ok(load_entries_inner(&databases, separator, loaded, convert)),
    }
}

/// The two conversions give the same entry for sessions, keys and names that read the
/// same.
pub open spec fn convert_alike<
    E,
    L,
    C: Fn(HermesEntry<E>, String, Option<String>) -> LoadedEntry<L>,
    D: Fn(HermesEntry<E>, String, Option<String>) -> LoadedEntry<L>,
>(convert: C, other: D) -> bool {
    forall|
        offer: Offer<E>,
        session: SelectedSession<E>,
        loaded: LoadedEntry<L>,
        twin: SelectedSession<E>,
        twin_loaded: LoadedEntry<L>,
    |
        #[trigger] session.represents(offer) && #[trigger] twin.represents(offer)
            && #[trigger] call_ensures(
            convert,
            (session.entry, session.session_key, session.session_label),
            loaded,
        ) && #[trigger] call_ensures(
            other,
            (twin.entry, twin.session_key, twin.session_label),
            twin_loaded,
        ) ==> loaded == twin_loaded
}

/// What is loaded is determined by the databases and the sessions read for them, as far
/// as the conversion is determined by what it is given. So [`load_entries`] returns for
/// databases that were found what [`load_entries_inner`] does, in the same order.
pub proof fn law_loading_is_determined<
    F,
    E,
    L,
    C: Fn(HermesEntry<E>, String, Option<String>) -> LoadedEntry<L>,
    D: Fn(HermesEntry<E>, String, Option<String>) -> LoadedEntry<L>,
>(
    databases: Seq<StateDb<F>>,
    separator: u8,
    loaded: Seq<Vec<HermesEntry<E>>>,
    convert: C,
    other: D,
    left: Seq<LoadedEntry<L>>,
    right: Seq<LoadedEntry<L>>,
)
    requires
        convert_alike(convert, other),
        are_loaded_entries(databases, separator, loaded, convert, left),
        are_loaded_entries(databases, separator, loaded, other, right),
    ensures
        left == right,
{
    let offers = without_repetitions(offers_of(databases, separator, loaded));
    let converted = choose|converted: Seq<LoadedEntry<L>>| #[trigger]
        are_conversions_of(convert, offers, converted) && is_sorted_by_timestamp(converted, left);
    let twins = choose|twins: Seq<LoadedEntry<L>>| #[trigger]
        are_conversions_of(other, offers, twins) && is_sorted_by_timestamp(twins, right);
    assert forall|k: int| 0 <= k < offers.len() implies converted[k] == twins[k] by {
        assert(is_conversion_of(convert, offers[k], converted[k]));
        assert(is_conversion_of(other, offers[k], twins[k]));
    }
    assert(converted =~= twins);
    let order = choose|order: Seq<usize>| #[trigger]
        is_stable_order(timestamps(converted), order) && left == reordered(converted, order);
    let twin_order = choose|order: Seq<usize>| #[trigger]
        is_stable_order(timestamps(twins), order) && right == reordered(twins, order);
    law_stable_order_is_unique(timestamps(converted), order, twin_order);
}

/// No session is loaded twice, and no two loaded sessions have the same key.
pub proof fn law_sessions_are_loaded_once<E>(offers: Seq<Offer<E>>, i: int, j: int)
    requires
        0 <= i < j < without_repetitions(offers).len(),
    ensures
        !without_repetitions(offers)[i].is_same_session(without_repetitions(offers)[j]),
        without_repetitions(offers)[i].key() != without_repetitions(offers)[j].key(),
    decreases offers.len(),
{
    if offers.len() > 0 {
        let earlier = without_repetitions(offers.drop_last());
        let kept = without_repetitions(offers);
        if j < earlier.len() {
            law_sessions_are_loaded_once(offers.drop_last(), i, j);
        } else {
            assert(kept[i] == earlier[i]);
            assert(!kept[i].is_same_session(kept[j]));
            if kept[i].key() == kept[j].key() {
                law_session_keys_keep_sessions_apart(
                    kept[i].identity,
                    kept[i].session_id,
                    kept[j].identity,
                    kept[j].session_id,
                );
            }
        }
    }
}

/// Every session that is offered is loaded, as it was first offered: one that no
/// earlier offer repeats is among those that are loaded.
pub proof fn law_every_session_is_loaded_as_first_offered<E>(offers: Seq<Offer<E>>, k: int)
    requires
        0 <= k < offers.len(),
        forall|m: int| 0 <= m < k ==> !(#[trigger] offers[m]).is_same_session(offers[k]),
    ensures
        without_repetitions(offers).contains(offers[k]),
    decreases offers.len(),
{
    let rest = offers.drop_last();
    let earlier = without_repetitions(rest);
    let kept = without_repetitions(offers);
    if k < rest.len() {
        assert forall|m: int| 0 <= m < k implies !(#[trigger] rest[m]).is_same_session(rest[k]) by {
            assert(rest[m] == offers[m]);
        }
        law_every_session_is_loaded_as_first_offered(rest, k);
        let i = choose|i: int| 0 <= i < earlier.len() && earlier[i] == offers[k];
        assert(kept[i] == offers[k]);
    } else {
        if has_session(earlier, offers[k]) {
            let i = choose|i: int|
                0 <= i < earlier.len() && (#[trigger] earlier[i]).is_same_session(offers[k]);
            law_loaded_sessions_were_offered(rest, i);
            let m = choose|m: int| 0 <= m < rest.len() && rest[m] == earlier[i];
            assert(offers[m].is_same_session(offers[k]));
        }
        assert(kept.last() == offers[k]);
    }
}

/// Every session that is loaded was offered.
pub proof fn law_loaded_sessions_were_offered<E>(offers: Seq<Offer<E>>, i: int)
    requires
        0 <= i < without_repetitions(offers).len(),
    ensures
        offers.contains(without_repetitions(offers)[i]),
    decreases offers.len(),
{
    if offers.len() > 0 {
        let rest = offers.drop_last();
        let earlier = without_repetitions(rest);
        if i < earlier.len() {
            law_loaded_sessions_were_offered(rest, i);
            let m = choose|m: int| 0 <= m < rest.len() && rest[m] == earlier[i];
            assert(offers[m] == earlier[i]);
        } else {
            assert(offers[offers.len() - 1] == offers.last());
        }
    }
}

/// Sessions of different databases are both loaded and keep different keys, even if
/// they have the same id.
pub proof fn law_databases_do_not_share_sessions<E>(offers: Seq<Offer<E>>, k: int, m: int)
    requires
        0 <= k < offers.len(),
        0 <= m < offers.len(),
        offers[k].identity != offers[m].identity,
        forall|n: int| 0 <= n < k ==> !(#[trigger] offers[n]).is_same_session(offers[k]),
        forall|n: int| 0 <= n < m ==> !(#[trigger] offers[n]).is_same_session(offers[m]),
    ensures
        without_repetitions(offers).contains(offers[k]),
        without_repetitions(offers).contains(offers[m]),
        offers[k].key() != offers[m].key(),
{
    law_every_session_is_loaded_as_first_offered(offers, k);
    law_every_session_is_loaded_as_first_offered(offers, m);
    if offers[k].key() == offers[m].key() {
        law_session_keys_keep_sessions_apart(
            offers[k].identity,
            offers[k].session_id,
            offers[m].identity,
            offers[m].session_id,
        );
    }
}

/// Sorting by time neither loses nor repeats an entry, and no entry stands before an
/// older one.
pub proof fn law_sorted_entries_ascend<L>(
    entries: Seq<LoadedEntry<L>>,
    sorted: Seq<LoadedEntry<L>>,
)
    requires
        entries.len() <= usize::MAX,
        is_sorted_by_timestamp(entries, sorted),
    ensures
        sorted.to_multiset() == entries.to_multiset(),
        forall|i: int, j: int|
            0 <= i < j < sorted.len() ==> (#[trigger] sorted[i]).timestamp <= (
            #[trigger] sorted[j]).timestamp,
{
    let order = choose|order: Seq<usize>| #[trigger]
        is_stable_order(timestamps(entries), order) && sorted == reordered(entries, order);
    law_reordering_keeps_the_items(timestamps(entries), order, entries);
    assert forall|i: int, j: int| 0 <= i < j < sorted.len() implies (
    #[trigger] sorted[i]).timestamp <= (#[trigger] sorted[j]).timestamp by {
        assert(goes_before(timestamps(entries), order[i] as int, order[j] as int));
    }
}

/// Where no earlier database has the same path, a database is read for itself.
pub proof fn law_databases_are_read_for_themselves<F>(
    databases: Seq<StateDb<F>>,
    separator: u8,
    i: int,
)
    requires
        0 <= i < databases.len(),
        forall|j: int|
            0 <= j < i ==> !is_same_path(
                (#[trigger] databases[j]).path,
                databases[i].path,
                separator,
            ),
    ensures
        source_of(databases, separator, i) == i,
{
    lemma_first_with_path(databases, separator, i, 0);
}

proof fn lemma_first_with_path<F>(databases: Seq<StateDb<F>>, separator: u8, i: int, from: int)
    requires
        0 <= from <= i < databases.len(),
        forall|j: int|
            0 <= j < i ==> !is_same_path(
                (#[trigger] databases[j]).path,
                databases[i].path,
                separator,
            ),
    ensures
        first_with_path(databases, databases[i].path, separator, from) == i,
    decreases i - from,
{
    if from < i {
        lemma_first_with_path(databases, separator, i, from + 1);
    }
}

/// A database is read for the first that has the same path.
pub proof fn law_the_first_database_of_a_path_is_read<F>(
    databases: Seq<StateDb<F>>,
    separator: u8,
    i: int,
)
    requires
        0 <= i < databases.len(),
    ensures
        0 <= source_of(databases, separator, i) <= i,
        is_same_path(
            databases[source_of(databases, separator, i)].path,
            databases[i].path,
            separator,
        ),
        forall|j: int|
            0 <= j < source_of(databases, separator, i) ==> !is_same_path(
                (#[trigger] databases[j]).path,
                databases[i].path,
                separator,
            ),
{
    lemma_first_with_path_is_first(databases, separator, i, 0);
}

proof fn lemma_first_with_path_is_first<F>(
    databases: Seq<StateDb<F>>,
    separator: u8,
    i: int,
    from: int,
)
    requires
        0 <= from <= i < databases.len(),
    ensures
        ({
            let first = first_with_path(databases, databases[i].path, separator, from);
            &&& from <= first <= i
            &&& is_same_path(databases[first].path, databases[i].path, separator)
            &&& forall|j: int|
                from <= j < first ==> !is_same_path(
                    (#[trigger] databases[j]).path,
                    databases[i].path,
                    separator,
                )
        }),
    decreases i - from,
{
    if !is_same_path(databases[from].path, databases[i].path, separator) {
        lemma_first_with_path_is_first(databases, separator, i, from + 1);
    }
}

/// How many sessions were read for the first `i` databases.
pub open spec fn sessions_before<E>(loaded: Seq<Vec<HermesEntry<E>>>, i: int) -> int
    decreases i,
{
    if i <= 0 {
        0
    } else {
        sessions_before(loaded, i - 1) + loaded[i - 1]@.len()
    }
}

proof fn lemma_sessions_before_ascend<E>(loaded: Seq<Vec<HermesEntry<E>>>, i: int, j: int)
    requires
        0 <= i <= j,
    ensures
        0 <= sessions_before(loaded, i) <= sessions_before(loaded, j),
    decreases j,
{
    if i < j {
        lemma_sessions_before_ascend(loaded, i, j - 1);
    } else if 0 < j {
        lemma_sessions_before_ascend(loaded, i - 1, j - 1);
    }
}

proof fn lemma_sessions_before_same<E>(
    loaded: Seq<Vec<HermesEntry<E>>>,
    other: Seq<Vec<HermesEntry<E>>>,
    i: int,
)
    requires
        forall|k: int| 0 <= k < i ==> #[trigger] loaded[k] == other[k],
    ensures
        sessions_before(loaded, i) == sessions_before(other, i),
    decreases i,
{
    if i > 0 {
        lemma_sessions_before_same(loaded, other, i - 1);
        assert(loaded[i - 1] == other[i - 1]);
    }
}

/// All sessions that were read are offered, database by database and in the order in
/// which they were read: the session at `j` of those read for the database at `i` with its
/// id and record, and the identity and the profile of the database that was read.
pub proof fn law_every_session_read_is_offered<F, E>(
    databases: Seq<StateDb<F>>,
    separator: u8,
    loaded: Seq<Vec<HermesEntry<E>>>,
    i: int,
    j: int,
)
    requires
        0 <= i < loaded.len(),
        0 <= j < loaded[i]@.len(),
    ensures
        offers_of(databases, separator, loaded).len() == sessions_before(
            loaded,
            loaded.len() as int,
        ),
        0 <= sessions_before(loaded, i) + j < sessions_before(loaded, loaded.len() as int),
        ({
            let offer = offers_of(databases, separator, loaded)[sessions_before(loaded, i) + j];
            let database = databases[source_of(databases, separator, i)];
            &&& offer.session_id == loaded[i]@[j].session_id@
            &&& offer.record == loaded[i]@[j].record
            &&& offer.identity == database.identity
            &&& offer.profile is Some == database.profile_name is Some
            &&& database.profile_name matches Some(name) ==> offer.profile == Some(
                shown_name(name, separator),
            )
        }),
    decreases loaded.len(),
{
    let rest = loaded.drop_last();
    let n = loaded.len() - 1;
    lemma_offers_are_counted(databases, separator, loaded);
    lemma_offers_are_counted(databases, separator, rest);
    lemma_sessions_before_same(rest, loaded, n);
    lemma_sessions_before_ascend(loaded, i + 1, n + 1);
    lemma_sessions_before_ascend(loaded, 0, i);
    let earlier = offers_of(databases, separator, rest);
    let offers = offers_of(databases, separator, loaded);
    if i < n {
        assert(rest[i] == loaded[i]);
        law_every_session_read_is_offered(databases, separator, rest, i, j);
        lemma_sessions_before_same(rest, loaded, i);
        let at = sessions_before(loaded, i) + j;
        assert(offers[at] == earlier[at]);
    }
}

proof fn lemma_offers_are_counted<F, E>(
    databases: Seq<StateDb<F>>,
    separator: u8,
    loaded: Seq<Vec<HermesEntry<E>>>,
)
    ensures
        offers_of(databases, separator, loaded).len() == sessions_before(
            loaded,
            loaded.len() as int,
        ),
    decreases loaded.len(),
{
    if loaded.len() > 0 {
        let rest = loaded.drop_last();
        lemma_offers_are_counted(databases, separator, rest);
        lemma_sessions_before_same(rest, loaded, rest.len() as int);
    }
}

/// Which of the sessions that were read is the offer at `m`.
proof fn lemma_offer_was_read<E>(loaded: Seq<Vec<HermesEntry<E>>>, n: int, m: int) -> (r: (
    int,
    int,
))
    requires
        0 <= n <= loaded.len(),
        0 <= m < sessions_before(loaded, n),
    ensures
        0 <= r.0 < n,
        0 <= r.1 < loaded[r.0]@.len(),
        m == sessions_before(loaded, r.0) + r.1,
    decreases n,
{
    if m < sessions_before(loaded, n - 1) {
        lemma_offer_was_read(loaded, n - 1, m)
    } else {
        (n - 1, m - sessions_before(loaded, n - 1))
    }
}

/// Of the sessions that are offered those are kept that no earlier one repeats, all of
/// them and in their order. A session repeats another that has the same id and is of the
/// same database.
pub proof fn law_first_offers_are_kept_in_order<E>(offers: Seq<Offer<E>>) -> (at: Seq<int>)
    ensures
        is_selection(
            offers.len() as int,
            |k: int|
                forall|m: int|
                    0 <= m < k ==> !((#[trigger] offers[m]).identity == offers[k].identity
                        && offers[m].session_id == offers[k].session_id),
            at,
        ),
        without_repetitions(offers).len() == at.len(),
        forall|k: int|
            0 <= k < at.len() ==> #[trigger] without_repetitions(offers)[k] == offers[at[k]],
    decreases offers.len(),
{
    let keep = |k: int|
        forall|m: int|
            0 <= m < k ==> !((#[trigger] offers[m]).identity == offers[k].identity
                && offers[m].session_id == offers[k].session_id);
    if offers.len() == 0 {
        Seq::empty()
    } else {
        let fewer = offers.drop_last();
        let before = |k: int|
            forall|m: int|
                0 <= m < k ==> !((#[trigger] fewer[m]).identity == fewer[k].identity
                    && fewer[m].session_id == fewer[k].session_id);
        let n = offers.len() - 1;
        let earlier = law_first_offers_are_kept_in_order(fewer);
        assert(is_selection(n, before, earlier));
        assert forall|k: int| 0 <= k < n implies #[trigger] before(k) == keep(k) by {
            assert(fewer[k] == offers[k]);
            assert(forall|m: int| 0 <= m < k ==> #[trigger] fewer[m] == offers[m]);
            assert(forall|m: int| 0 <= m < k ==> fewer[m] == #[trigger] offers[m]);
        }
        let at = lemma_selection_grows(n, before, keep, earlier);
        let old_kept = without_repetitions(fewer);
        let kept = without_repetitions(offers);
        if has_session(old_kept, offers[n]) {
            let k = choose|k: int|
                0 <= k < old_kept.len() && (#[trigger] old_kept[k]).is_same_session(offers[n]);
            assert(fewer[earlier[k]] == offers[earlier[k]]);
            assert(offers[earlier[k]].identity == offers[n].identity);
            assert(!keep(n));
        } else if !keep(n) {
            let m = choose|m: int|
                0 <= m < n && (#[trigger] offers[m]).identity == offers[n].identity
                    && offers[m].session_id == offers[n].session_id;
            assert(fewer[m] == offers[m]);
            let first = lemma_first_of_its_session(fewer, m);
            assert(before(first));
            let k = choose|k: int| 0 <= k < earlier.len() && earlier[k] == first;
            assert(old_kept[k].is_same_session(offers[n]));
            assert(false);
        }
        assert forall|k: int| 0 <= k < at.len() implies #[trigger] kept[k] == offers[at[k]] by {
            if k < earlier.len() {
                assert(at[k] == earlier[k]);
                assert(kept[k] == old_kept[k]);
                assert(fewer[earlier[k]] == offers[at[k]]);
            }
        }
        at
    }
}

/// The first offer of the session that is offered at `m`.
proof fn lemma_first_of_its_session<E>(offers: Seq<Offer<E>>, m: int) -> (first: int)
    requires
        0 <= m < offers.len(),
    ensures
        0 <= first <= m,
        offers[first].identity == offers[m].identity,
        offers[first].session_id == offers[m].session_id,
        forall|n: int|
            0 <= n < first ==> !((#[trigger] offers[n]).identity == offers[first].identity
                && offers[n].session_id == offers[first].session_id),
    decreases m,
{
    if exists|n: int|
        0 <= n < m && (#[trigger] offers[n]).identity == offers[m].identity && offers[n].session_id
            == offers[m].session_id {
        let n = choose|n: int|
            0 <= n < m && (#[trigger] offers[n]).identity == offers[m].identity
                && offers[n].session_id == offers[m].session_id;
        lemma_first_of_its_session(offers, n)
    } else {
        m
    }
}

/// The session read at `(a, b)` is the same as that read at `(i, j)`: of the same database
/// and with the same id.
pub open spec fn is_same_reading<F, E>(
    databases: Seq<StateDb<F>>,
    separator: u8,
    loaded: Seq<Vec<HermesEntry<E>>>,
    a: int,
    b: int,
    i: int,
    j: int,
) -> bool {
    &&& databases[source_of(databases, separator, a)].identity == databases[
        source_of(databases, separator, i)
    ].identity
    &&& loaded[a]@[b].session_id@ == loaded[i]@[j].session_id@
}

/// The session read at `(i, j)` was not read before, for an earlier database or earlier
/// for the same.
pub open spec fn is_first_reading<F, E>(
    databases: Seq<StateDb<F>>,
    separator: u8,
    loaded: Seq<Vec<HermesEntry<E>>>,
    i: int,
    j: int,
) -> bool {
    forall|a: int, b: int|
        0 <= a < loaded.len() && 0 <= b < loaded[a]@.len() && (a < i || (a == i && b < j))
            ==> !(#[trigger] is_same_reading(databases, separator, loaded, a, b, i, j))
}

/// Every session that was read is selected: for the session at `j` of those read for the
/// database at `i` there is one with its id and with the key of that database and id. Where
/// it was not read before, it is the very record, shown by the name of its profile, a slash
/// and its id, and otherwise by its id alone.
pub proof fn law_every_session_read_is_selected<F, E>(
    databases: Seq<StateDb<F>>,
    separator: u8,
    loaded: Seq<Vec<HermesEntry<E>>>,
    selected: Seq<SelectedSession<E>>,
    i: int,
    j: int,
) -> (k: int)
    requires
        loaded.len() == databases.len(),
        represent(selected, without_repetitions(offers_of(databases, separator, loaded))),
        0 <= i < loaded.len(),
        0 <= j < loaded[i]@.len(),
    ensures
        0 <= k < selected.len(),
        ({
            let database = databases[source_of(databases, separator, i)];
            let session_id = loaded[i]@[j].session_id@;
            &&& selected[k].entry.session_id@ == session_id
            &&& selected[k].session_key@ == session_key_text(database.identity, session_id)
            &&& is_first_reading(databases, separator, loaded, i, j) ==> {
                &&& selected[k].entry.record == loaded[i]@[j].record
                &&& selected[k].session_label is Some == database.profile_name is Some
                &&& database.profile_name matches Some(name) ==> selected[k].session_label->0@
                    == shown_name(name, separator) + seq!['/'] + session_id
            }
        }),
{
    let offers = offers_of(databases, separator, loaded);
    let m = sessions_before(loaded, i) + j;
    law_every_session_read_is_offered(databases, separator, loaded, i, j);
    let at = law_first_offers_are_kept_in_order(offers);
    let keep = |k: int|
        forall|m: int|
            0 <= m < k ==> !((#[trigger] offers[m]).identity == offers[k].identity
                && offers[m].session_id == offers[k].session_id);
    assert(is_selection(offers.len() as int, keep, at));
    let first = lemma_first_of_its_session(offers, m);
    assert(keep(first));
    let k = choose|k: int| 0 <= k < at.len() && at[k] == first;
    assert(without_repetitions(offers)[k] == offers[first]);
    assert(selected[k].represents(offers[first]));
    if is_first_reading(databases, separator, loaded, i, j) && first < m {
        let (a, b) = lemma_offer_was_read(loaded, loaded.len() as int, first);
        law_every_session_read_is_offered(databases, separator, loaded, a, b);
        if a > i {
            lemma_sessions_before_ascend(loaded, i + 1, a);
        }
        assert(is_same_reading(databases, separator, loaded, a, b, i, j));
    }
    if let Some(name) = databases[source_of(databases, separator, i)].profile_name {
        assert(shown_name(name, separator).push('/') + loaded[i]@[j].session_id@ =~= shown_name(
            name,
            separator,
        ) + seq!['/'] + loaded[i]@[j].session_id@);
    }
    k
}

/// Every session that is selected was read, for the database at `r.0` and there at `r.1`,
/// and was not read before.
pub proof fn law_every_selected_session_was_read<F, E>(
    databases: Seq<StateDb<F>>,
    separator: u8,
    loaded: Seq<Vec<HermesEntry<E>>>,
    selected: Seq<SelectedSession<E>>,
    k: int,
) -> (r: (int, int))
    requires
        loaded.len() == databases.len(),
        represent(selected, without_repetitions(offers_of(databases, separator, loaded))),
        0 <= k < selected.len(),
    ensures
        0 <= r.0 < loaded.len(),
        0 <= r.1 < loaded[r.0]@.len(),
        is_first_reading(databases, separator, loaded, r.0, r.1),
        selected[k].entry.session_id@ == loaded[r.0]@[r.1].session_id@,
        selected[k].entry.record == loaded[r.0]@[r.1].record,
        selected[k].session_key@ == session_key_text(
            databases[source_of(databases, separator, r.0)].identity,
            loaded[r.0]@[r.1].session_id@,
        ),
{
    let offers = offers_of(databases, separator, loaded);
    let at = law_first_offers_are_kept_in_order(offers);
    let keep = |k: int|
        forall|m: int|
            0 <= m < k ==> !((#[trigger] offers[m]).identity == offers[k].identity
                && offers[m].session_id == offers[k].session_id);
    assert(is_selection(offers.len() as int, keep, at));
    assert(keep(at[k]));
    lemma_offers_are_counted(databases, separator, loaded);
    let (i, j) = lemma_offer_was_read(loaded, loaded.len() as int, at[k]);
    law_every_session_read_is_offered(databases, separator, loaded, i, j);
    assert(selected[k].represents(without_repetitions(offers)[k]));
    assert forall|a: int, b: int|
        0 <= a < loaded.len() && 0 <= b < loaded[a]@.len() && (a < i || (a == i && b
            < j)) implies !(#[trigger] is_same_reading(
        databases,
        separator,
        loaded,
        a,
        b,
        i,
        j,
    )) by {
        law_every_session_read_is_offered(databases, separator, loaded, a, b);
        if a < i {
            lemma_sessions_before_ascend(loaded, a + 1, i);
        }
        let m = sessions_before(loaded, a) + b;
        assert(m < at[k]);
        assert(!(offers[m].identity == offers[at[k]].identity && offers[m].session_id
            == offers[at[k]].session_id));
    }
    (i, j)
}

/// No two selected sessions have the same key.
pub proof fn law_selected_sessions_have_different_keys<E>(
    offers: Seq<Offer<E>>,
    selected: Seq<SelectedSession<E>>,
    k: int,
    m: int,
)
    requires
        represent(selected, without_repetitions(offers)),
        0 <= k < m < selected.len(),
    ensures
        selected[k].session_key@ != selected[m].session_key@,
{
    law_sessions_are_loaded_once(offers, k, m);
    assert(selected[k].represents(without_repetitions(offers)[k]));
    assert(selected[m].represents(without_repetitions(offers)[m]));
}

/// Sorting by time takes every entry once, the older before the newer, and entries of the
/// same time in the order they had.
pub proof fn law_entries_are_sorted_by_time<L>(
    entries: Seq<LoadedEntry<L>>,
    sorted: Seq<LoadedEntry<L>>,
) -> (order: Seq<usize>)
    requires
        entries.len() <= usize::MAX,
        is_sorted_by_timestamp(entries, sorted),
    ensures
        sorted.len() == entries.len(),
        order.len() == entries.len(),
        forall|i: int| 0 <= i < order.len() ==> (#[trigger] order[i]) < entries.len(),
        forall|p: usize| p < entries.len() ==> #[trigger] order.contains(p),
        forall|i: int| 0 <= i < sorted.len() ==> #[trigger] sorted[i] == entries[order[i] as int],
        forall|i: int, j: int|
            0 <= i < j < order.len() ==> {
                let a = #[trigger] order[i];
                let b = #[trigger] order[j];
                entries[a as int].timestamp < entries[b as int].timestamp || (
                entries[a as int].timestamp == entries[b as int].timestamp && a < b)
            },
{
    let order = choose|order: Seq<usize>| #[trigger]
        is_stable_order(timestamps(entries), order) && sorted == reordered(entries, order);
    law_numbers_are_sorted(timestamps(entries), order);
    assert forall|i: int, j: int| 0 <= i < j < order.len() implies ({
        let a = #[trigger] order[i];
        let b = #[trigger] order[j];
        entries[a as int].timestamp < entries[b as int].timestamp || (entries[a as int].timestamp
            == entries[b as int].timestamp && a < b)
    }) by {
        assert(timestamps(entries)[order[i] as int] == entries[order[i] as int].timestamp);
        assert(timestamps(entries)[order[j] as int] == entries[order[j] as int].timestamp);
    }
    order
}

/// Every session that was read is loaded: for the session at `j` of those read for the
/// database at `i` there is an entry, converted from a session with its id, its key and,
/// where it was not read before, its record and the name it is shown by.
pub proof fn law_every_session_read_is_loaded<
    F,
    E,
    L,
    C: Fn(HermesEntry<E>, String, Option<String>) -> LoadedEntry<L>,
>(
    databases: Seq<StateDb<F>>,
    separator: u8,
    loaded: Seq<Vec<HermesEntry<E>>>,
    convert: C,
    entries: Seq<LoadedEntry<L>>,
    i: int,
    j: int,
) -> (r: (int, SelectedSession<E>))
    requires
        loaded.len() == databases.len(),
        are_loaded_entries(databases, separator, loaded, convert, entries),
        entries.len() <= usize::MAX,
        0 <= i < loaded.len(),
        0 <= j < loaded[i]@.len(),
    ensures
        0 <= r.0 < entries.len(),
        call_ensures(
            convert,
            (r.1.entry, r.1.session_key, r.1.session_label),
            entries[r.0],
        ),
        ({
            let database = databases[source_of(databases, separator, i)];
            let session_id = loaded[i]@[j].session_id@;
            &&& r.1.entry.session_id@ == session_id
            &&& r.1.session_key@ == session_key_text(database.identity, session_id)
            &&& is_first_reading(databases, separator, loaded, i, j) ==> {
                &&& r.1.entry.record == loaded[i]@[j].record
                &&& r.1.session_label is Some == database.profile_name is Some
                &&& database.profile_name matches Some(name) ==> r.1.session_label->0@
                    == shown_name(name, separator) + seq!['/'] + session_id
            }
        }),
{
    let offers = without_repetitions(offers_of(databases, separator, loaded));
    let converted = choose|converted: Seq<LoadedEntry<L>>| #[trigger]
        are_conversions_of(convert, offers, converted) && is_sorted_by_timestamp(
            converted,
            entries,
        );
    let sessions = lemma_sessions_converted(convert, offers, converted, offers.len());
    let k = law_every_session_read_is_selected(databases, separator, loaded, sessions, i, j);
    let some_order = choose|order: Seq<usize>| #[trigger]
        is_stable_order(timestamps(converted), order) && entries == reordered(converted, order);
    assert(entries.len() == converted.len());
    let order = law_entries_are_sorted_by_time(converted, entries);
    assert(order.contains(k as usize));
    let at = choose|at: int| 0 <= at < order.len() && order[at] == k as usize;
    assert(entries[at] == converted[k]);
    (at, sessions[k])
}

/// The sessions that were converted.
proof fn lemma_sessions_converted<
    E,
    L,
    C: Fn(HermesEntry<E>, String, Option<String>) -> LoadedEntry<L>,
>(convert: C, offers: Seq<Offer<E>>, converted: Seq<LoadedEntry<L>>, n: nat) -> (sessions: Seq<
    SelectedSession<E>,
>)
    requires
        are_conversions_of(convert, offers, converted),
        n <= offers.len(),
    ensures
        represent(sessions, offers.take(n as int)),
        n == offers.len() ==> represent(sessions, offers),
        forall|k: int|
            0 <= k < n ==> call_ensures(
                convert,
                (
                    (#[trigger] sessions[k]).entry,
                    sessions[k].session_key,
                    sessions[k].session_label,
                ),
                converted[k],
            ),
    decreases n,
{
    assert(offers.take(offers.len() as int) =~= offers);
    if n == 0 {
        assert(offers.take(0) =~= Seq::empty());
        Seq::empty()
    } else {
        let m = n - 1;
        let earlier = lemma_sessions_converted(convert, offers, converted, m as nat);
        assert(is_conversion_of(convert, offers[m], converted[m]));
        let session = choose|session: SelectedSession<E>|
            session.represents(offers[m]) && #[trigger] call_ensures(
                convert,
                (session.entry, session.session_key, session.session_label),
                converted[m],
            );
        let sessions = earlier.push(session);
        assert forall|k: int| 0 <= k < sessions.len() implies (#[trigger] sessions[k]).represents(
            offers.take(n as int)[k],
        ) by {
            if k < m {
                assert(sessions[k] == earlier[k]);
                assert(offers.take(m)[k] == offers.take(n as int)[k]);
            }
        }
        assert forall|k: int| 0 <= k < n implies call_ensures(
            convert,
            ((#[trigger] sessions[k]).entry, sessions[k].session_key, sessions[k].session_label),
            converted[k],
        ) by {
            if k < m {
                assert(sessions[k] == earlier[k]);
            }
        }
        sessions
    }
}

/// Every entry is converted from a session that was read and was not read before, and
/// there is one entry for each of them.
pub proof fn law_every_loaded_entry_is_of_a_session_that_was_read<
    F,
    E,
    L,
    C: Fn(HermesEntry<E>, String, Option<String>) -> LoadedEntry<L>,
>(
    databases: Seq<StateDb<F>>,
    separator: u8,
    loaded: Seq<Vec<HermesEntry<E>>>,
    convert: C,
    entries: Seq<LoadedEntry<L>>,
    k: int,
) -> (r: (int, int, SelectedSession<E>))
    requires
        loaded.len() == databases.len(),
        are_loaded_entries(databases, separator, loaded, convert, entries),
        entries.len() <= usize::MAX,
        0 <= k < entries.len(),
    ensures
        0 <= r.0 < loaded.len(),
        0 <= r.1 < loaded[r.0]@.len(),
        is_first_reading(databases, separator, loaded, r.0, r.1),
        r.2.entry.session_id@ == loaded[r.0]@[r.1].session_id@,
        r.2.entry.record == loaded[r.0]@[r.1].record,
        call_ensures(convert, (r.2.entry, r.2.session_key, r.2.session_label), entries[k]),
        entries.len() == without_repetitions(offers_of(databases, separator, loaded)).len(),
{
    let offers = without_repetitions(offers_of(databases, separator, loaded));
    let converted = choose|converted: Seq<LoadedEntry<L>>| #[trigger]
        are_conversions_of(convert, offers, converted) && is_sorted_by_timestamp(
            converted,
            entries,
        );
    let sessions = lemma_sessions_converted(convert, offers, converted, offers.len());
    let some_order = choose|order: Seq<usize>| #[trigger]
        is_stable_order(timestamps(converted), order) && entries == reordered(converted, order);
    assert(entries.len() == converted.len());
    let order = law_entries_are_sorted_by_time(converted, entries);
    let at = order[k] as int;
    assert(entries[k] == converted[at]);
    let (i, j) = law_every_selected_session_was_read(
        databases,
        separator,
        loaded,
        sessions,
        at,
    );
    (i, j, sessions[at])
}

/// A profile's session is shown by the profile, a slash and the id of the session.
pub proof fn law_labels_name_the_profile<E>(offer: Offer<E>, profile: Seq<char>)
    requires
        offer.profile == Some(profile),
    ensures
        offer.label() == Some(profile + seq!['/'] + offer.session_id),
        offer.key() == session_key_text(offer.identity, offer.session_id),
{
    assert(profile.push('/') + offer.session_id =~= profile + seq!['/'] + offer.session_id);
}

/// A profile is shown by what its name decodes to, or by its lossy text; where the
/// separator is a backslash, surrogates are replaced before.
pub proof fn law_names_are_shown_as_text(name: Seq<u8>, separator: u8)
    ensures
        separator != 0x5c && valid_utf8(name) ==> shown_name(name, separator) == decode_utf8(name),
        separator != 0x5c && !valid_utf8(name) ==> shown_name(name, separator) == lossy_text(name),
        separator == 0x5c && valid_utf8(surrogates_replaced(name)) ==> shown_name(name, separator)
            == decode_utf8(surrogates_replaced(name)),
        separator == 0x5c && !valid_utf8(surrogates_replaced(name)) ==> shown_name(name, separator)
            == lossy_text(surrogates_replaced(name)),
{
}

} // verus!
