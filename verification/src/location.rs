//! Joining paths, comparing them and taking them apart. Paths are bytes as the platform
//! encodes them.
//!
//! The platform shows in its separator. Where that is a backslash, paths are those of
//! Windows: a slash separates too, and a path may begin with a prefix that names a
//! drive, a share or a device. A verbatim prefix, `\\?\`, has the rest of the path
//! taken as it stands: a slash does not separate there, and a dot is a name.

use crate::order::{is_selection, lemma_selection_grows};
use crate::text::contents;
use vstd::prelude::*;

verus! {

pub const BACKSLASH: u8 = 0x5c;

pub const SLASH: u8 = 0x2f;

pub const DOT: u8 = 0x2e;

pub const COLON: u8 = 0x3a;

pub const QUESTION_MARK: u8 = 0x3f;

/// The byte separates the names in a path: it is the separator of the platform or a
/// slash.
pub open spec fn is_separator(byte: u8, separator: u8) -> bool {
    byte == separator || byte == SLASH
}

/// The byte ends a piece of a path, which may be verbatim.
pub open spec fn ends_piece(byte: u8, separator: u8, verbatim: bool) -> bool {
    byte == separator || (!verbatim && byte == SLASH)
}

/// What a prefix names.
#[derive(Clone, Copy, Debug, PartialEq, Eq, Structural)]
pub enum PrefixKind {
    /// `\\?\name`
    Verbatim,
    /// `\\?\UNC\server\share`
    VerbatimUnc,
    /// `\\?\C:`
    VerbatimDisk,
    /// `\\.\name`
    DeviceNs,
    /// `\\server\share`
    Unc,
    /// `C:`
    Disk,
}

/// The prefix of a path: what it names, the names in it, and how many bytes it has. The
/// name of a drive is its letter, in upper case.
#[verifier::ext_equal]
pub struct Prefix {
    pub kind: PrefixKind,
    pub names: Seq<Seq<u8>>,
    pub len: int,
}

impl Prefix {
    pub open spec fn is_verbatim(self) -> bool {
        self.kind is Verbatim || self.kind is VerbatimUnc || self.kind is VerbatimDisk
    }

    /// What follows the prefix begins at the root even without a separator.
    pub open spec fn implies_root(self) -> bool {
        self.kind is DeviceNs || self.kind is Unc
    }
}

pub open spec fn is_letter(byte: u8) -> bool {
    0x41 <= byte <= 0x5a || 0x61 <= byte <= 0x7a
}

/// The letter in upper case.
pub open spec fn upper(letter: u8) -> u8 {
    if letter >= 0x61 {
        (letter - 0x20) as u8
    } else {
        letter
    }
}

/// Where the piece ends that begins at `from`.
pub open spec fn piece_end(path: Seq<u8>, from: int, verbatim: bool) -> int
    decreases path.len() - from,
{
    if from >= path.len() || ends_piece(path[from], BACKSLASH, verbatim) {
        from
    } else {
        piece_end(path, from + 1, verbatim)
    }
}

/// Where the next piece begins after one that ends at `end`.
pub open spec fn piece_after(path: Seq<u8>, end: int) -> int {
    if end < path.len() {
        end + 1
    } else {
        end
    }
}

/// A letter and a colon are at `from`.
pub open spec fn has_drive_at(path: Seq<u8>, from: int) -> bool {
    path.len() >= from + 2 && is_letter(path[from]) && path[from + 1] == COLON
}

/// The prefix of a path that begins with `\\?\`.
pub open spec fn verbatim_prefix(path: Seq<u8>) -> Prefix {
    if path.len() >= 8 && path[4] == 0x55 && path[5] == 0x4e && path[6] == 0x43 && is_separator(
        path[7],
        BACKSLASH,
    ) {
        let server_end = piece_end(path, 8, true);
        let share = piece_after(path, server_end);
        let share_end = piece_end(path, share, true);
        Prefix {
            kind: PrefixKind::VerbatimUnc,
            names: seq![path.subrange(8, server_end), path.subrange(share, share_end)],
            len: if share < share_end {
                share_end
            } else {
                server_end
            },
        }
    } else if has_drive_at(path, 4) && (path.len() == 6 || is_separator(path[6], BACKSLASH)) {
        Prefix { kind: PrefixKind::VerbatimDisk, names: seq![seq![upper(path[4])]], len: 6 }
    } else {
        let end = piece_end(path, 4, true);
        Prefix { kind: PrefixKind::Verbatim, names: seq![path.subrange(4, end)], len: end }
    }
}

/// The prefix of a path of Windows, where it has one.
pub open spec fn windows_prefix(path: Seq<u8>) -> Option<Prefix> {
    if path.len() >= 2 && is_separator(path[0], BACKSLASH) && is_separator(path[1], BACKSLASH) {
        if path.len() >= 4 && path[0] == BACKSLASH && path[1] == BACKSLASH && path[2]
            == QUESTION_MARK && path[3] == BACKSLASH {
            Some(verbatim_prefix(path))
        } else if path.len() >= 4 && path[2] == DOT && is_separator(path[3], BACKSLASH) {
            let end = piece_end(path, 4, false);
            Some(
                Prefix { kind: PrefixKind::DeviceNs, names: seq![path.subrange(4, end)], len: end },
            )
        } else {
            let server_end = piece_end(path, 2, false);
            let share = piece_after(path, server_end);
            let share_end = piece_end(path, share, false);
            if 2 < server_end && share < share_end {
                Some(
                    Prefix {
                        kind: PrefixKind::Unc,
                        names: seq![path.subrange(2, server_end), path.subrange(share, share_end)],
                        len: share_end,
                    },
                )
            } else {
                None
            }
        }
    } else if has_drive_at(path, 0) {
        Some(Prefix { kind: PrefixKind::Disk, names: seq![seq![upper(path[0])]], len: 2 })
    } else {
        None
    }
}

/// The prefix of a path, where it has one.
pub open spec fn prefix_of(path: Seq<u8>, separator: u8) -> Option<Prefix> {
    if separator == BACKSLASH {
        windows_prefix(path)
    } else {
        None
    }
}

pub open spec fn prefix_len(path: Seq<u8>, separator: u8) -> int {
    match prefix_of(path, separator) {
        None => 0,
        Some(prefix) => prefix.len,
    }
}

pub open spec fn is_verbatim(path: Seq<u8>, separator: u8) -> bool {
    match prefix_of(path, separator) {
        None => false,
        Some(prefix) => prefix.is_verbatim(),
    }
}

/// A separator follows the prefix, or begins a path that has none.
pub open spec fn begins_with_separator(path: Seq<u8>, separator: u8) -> bool {
    let len = prefix_len(path, separator);
    len < path.len() && is_separator(path[len], separator)
}

/// The path begins at a root.
pub open spec fn is_rooted(path: Seq<u8>, separator: u8) -> bool {
    begins_with_separator(path, separator) || match prefix_of(path, separator) {
        None => false,
        Some(prefix) => prefix.implies_root(),
    }
}

/// What follows the prefix and the separator after it.
pub open spec fn body(path: Seq<u8>, separator: u8) -> Seq<u8> {
    let len = prefix_len(path, separator);
    if begins_with_separator(path, separator) {
        path.skip(len + 1)
    } else {
        path.skip(len)
    }
}

/// The pieces between separators.
pub open spec fn pieces(body: Seq<u8>, separator: u8, verbatim: bool) -> Seq<Seq<u8>>
    decreases body.len(),
{
    if body.len() == 0 {
        seq![Seq::empty()]
    } else {
        let earlier = pieces(body.drop_last(), separator, verbatim);
        if ends_piece(body.last(), separator, verbatim) {
            earlier.push(Seq::empty())
        } else {
            earlier.drop_last().push(earlier.last().push(body.last()))
        }
    }
}

/// Which dots among the pieces of a path count.
#[derive(Clone, Copy, Debug, PartialEq, Eq, Structural)]
pub enum Dots {
    Always,
    Leading,
    Never,
}

/// The pieces that count: those that are not empty, and of the dots those that `dots`
/// says.
pub open spec fn names_among(pieces: Seq<Seq<u8>>, dots: Dots) -> Seq<Seq<u8>>
    decreases pieces.len(),
{
    if pieces.len() == 0 {
        Seq::empty()
    } else {
        let earlier = names_among(pieces.drop_last(), dots);
        let piece = pieces.last();
        if piece.len() == 0 || (piece == seq![DOT] && !(dots is Always || (dots is Leading
            && pieces.len() == 1))) {
            earlier
        } else {
            earlier.push(piece)
        }
    }
}

/// All dots of a verbatim path count, and a dot that begins a path without prefix and
/// root.
pub open spec fn dots_of(path: Seq<u8>, separator: u8) -> Dots {
    match prefix_of(path, separator) {
        Some(prefix) => if prefix.is_verbatim() {
            Dots::Always
        } else {
            Dots::Never
        },
        None => if is_rooted(path, separator) {
            Dots::Never
        } else {
            Dots::Leading
        },
    }
}

/// The names in a path, after its prefix.
pub open spec fn names_of(path: Seq<u8>, separator: u8) -> Seq<Seq<u8>> {
    names_among(
        pieces(body(path, separator), separator, is_verbatim(path, separator)),
        dots_of(path, separator),
    )
}

/// The last name in a path, where it is one and not dots.
pub open spec fn file_name_of(path: Seq<u8>, separator: u8) -> Option<Seq<u8>> {
    let names = names_of(path, separator);
    if names.len() > 0 && !is_dots(names.last()) {
        Some(names.last())
    } else {
        None
    }
}

/// Where what follows the prefix and the separator after it begins.
pub open spec fn body_start(path: Seq<u8>, separator: u8) -> int {
    if begins_with_separator(path, separator) {
        prefix_len(path, separator) + 1
    } else {
        prefix_len(path, separator)
    }
}

/// A dot begins a path that has no root and at most a drive before it.
pub open spec fn begins_with_dot(path: Seq<u8>, separator: u8) -> bool {
    let len = prefix_len(path, separator);
    &&& match prefix_of(path, separator) {
        None => true,
        Some(prefix) => prefix.kind is Disk,
    }
    &&& len < path.len()
    &&& path[len] == DOT
    &&& len + 1 < path.len() ==> is_separator(path[len + 1], separator)
}

/// Where the part of a path ends that its parent keeps in any case: the prefix, the root
/// and a dot at the beginning.
pub open spec fn lead_len(path: Seq<u8>, separator: u8) -> int {
    if begins_with_dot(path, separator) {
        body_start(path, separator) + 1
    } else {
        body_start(path, separator)
    }
}

/// Where the piece begins that ends at `end`, not before `lead`.
pub open spec fn piece_start(
    path: Seq<u8>,
    separator: u8,
    verbatim: bool,
    lead: int,
    end: int,
) -> int
    decreases end - lead,
{
    if end <= lead || ends_piece(path[end - 1], separator, verbatim) {
        end
    } else {
        piece_start(path, separator, verbatim, lead, end - 1)
    }
}

/// Where the path ends without the piece that begins at `start` and the separator before
/// it.
pub open spec fn end_before(lead: int, start: int) -> int {
    if start > lead {
        start - 1
    } else {
        start
    }
}

/// Where the part of a path up to `end` ends without the pieces at its end that do not
/// count: empty ones, and dots unless the path is verbatim.
pub open spec fn counting_end(
    path: Seq<u8>,
    separator: u8,
    verbatim: bool,
    lead: int,
    end: int,
) -> int
    decreases end,
{
    let start = piece_start(path, separator, verbatim, lead, end);
    if !(lead < end <= path.len()) || !(lead <= start <= end) {
        end
    } else if start == end || (!verbatim && start + 1 == end && path[start] == DOT) {
        if 0 <= end_before(lead, start) < end {
            counting_end(path, separator, verbatim, lead, end_before(lead, start))
        } else {
            end
        }
    } else {
        end
    }
}

/// How much of a path that has a name is left without its last one.
pub open spec fn parent_len(path: Seq<u8>, separator: u8) -> int {
    let verbatim = is_verbatim(path, separator);
    let lead = lead_len(path, separator);
    let end = counting_end(path, separator, verbatim, lead, path.len() as int);
    if end <= lead {
        body_start(path, separator)
    } else {
        let start = piece_start(path, separator, verbatim, lead, end);
        counting_end(path, separator, verbatim, lead, end_before(lead, start))
    }
}

/// The path without its last name, which may be dots, and without the separators and
/// dots before it. A path without names has no parent.
pub open spec fn parent_of(path: Seq<u8>, separator: u8) -> Option<Seq<u8>> {
    if names_of(path, separator).len() > 0 {
        Some(path.take(parent_len(path, separator)))
    } else {
        None
    }
}

/// The prefixes name the same, or there are none.
pub open spec fn is_same_prefix(left: Option<Prefix>, right: Option<Prefix>) -> bool {
    match (left, right) {
        (None, None) => true,
        (Some(one), Some(other)) => one.kind == other.kind && one.names == other.names,
        _ => false,
    }
}

/// The paths have the same prefix and the same names in the same order, and both or
/// neither begin at the root.
pub open spec fn is_same_path(left: Seq<u8>, right: Seq<u8>, separator: u8) -> bool {
    &&& is_same_prefix(prefix_of(left, separator), prefix_of(right, separator))
    &&& is_rooted(left, separator) == is_rooted(right, separator)
    &&& names_of(left, separator) == names_of(right, separator)
}

/// A way from a prefix: whether it begins at the root, and the names on it.
#[verifier::ext_equal]
pub struct Way {
    pub rooted: bool,
    pub names: Seq<Seq<u8>>,
}

pub open spec fn is_dots(name: Seq<u8>) -> bool {
    name == seq![DOT] || name == seq![DOT, DOT]
}

/// The way taken on by one name: a dot stays, two dots go back by one name.
pub open spec fn way_on(way: Way, name: Seq<u8>) -> Way {
    if name == seq![DOT] {
        way
    } else if name == seq![DOT, DOT] {
        if way.names.len() > 0 && !is_dots(way.names.last()) {
            Way { names: way.names.drop_last(), ..way }
        } else {
            way
        }
    } else {
        Way { names: way.names.push(name), ..way }
    }
}

/// The way taken on by names, one after another.
pub open spec fn way_along(way: Way, names: Seq<Seq<u8>>) -> Way
    decreases names.len(),
{
    if names.len() == 0 {
        way
    } else {
        way_on(way_along(way, names.drop_last()), names.last())
    }
}

/// The names, each after a separator.
pub open spec fn separated(names: Seq<Seq<u8>>, separator: u8) -> Seq<u8>
    decreases names.len(),
{
    if names.len() == 0 {
        Seq::empty()
    } else {
        separated(names.drop_last(), separator).push(separator) + names.last()
    }
}

/// The path that goes a way from a prefix.
pub open spec fn path_along(prefix: Seq<u8>, way: Way, separator: u8) -> Seq<u8> {
    if way.rooted && way.names.len() == 0 {
        prefix.push(separator)
    } else {
        prefix + separated(way.names, separator)
    }
}

/// The way that leads from the prefix of `base` to `name` in it.
pub open spec fn way_to(base: Seq<u8>, name: Seq<u8>, separator: u8) -> Way {
    way_along(
        if is_rooted(name, separator) {
            Way { rooted: true, names: Seq::empty() }
        } else {
            Way { rooted: is_rooted(base, separator), names: names_of(base, separator) }
        },
        names_of(name, separator),
    )
}

/// The path is nothing but a drive.
pub open spec fn is_bare_drive(path: Seq<u8>, separator: u8) -> bool {
    match prefix_of(path, separator) {
        None => false,
        Some(prefix) => prefix.kind is Disk && prefix.len == path.len(),
    }
}

/// The path that `name` is in the directory `base`. A name with a prefix of its own, or
/// on a platform without prefixes with a root, stands for itself. One with a root alone
/// keeps the prefix of `base`. Where `base` is verbatim, the path is put together from
/// the names. Otherwise a separator goes between the two, unless `base` is empty, ends
/// with a separator or is nothing but a drive.
pub open spec fn joined(base: Seq<u8>, name: Seq<u8>, separator: u8) -> Seq<u8> {
    if prefix_of(name, separator) is Some || (separator != BACKSLASH && is_rooted(name, separator)) {
        name
    } else if is_verbatim(base, separator) && name.len() > 0 {
        path_along(
            base.take(prefix_len(base, separator)),
            way_to(base, name, separator),
            separator,
        )
    } else if is_rooted(name, separator) {
        base.take(prefix_len(base, separator)) + name
    } else if base.len() == 0 || is_separator(base.last(), separator) || is_bare_drive(
        base,
        separator,
    ) {
        base + name
    } else {
        base.push(separator) + name
    }
}

/// The bytes from `from` up to, not including, `to`.
fn copied(path: &Vec<u8>, from: usize, to: usize) -> (r: Vec<u8>)
    requires
        from <= to <= path.len(),
    ensures
        r@ == path@.subrange(from as int, to as int),
{
    let mut r: Vec<u8> = Vec::with_capacity(to - from);
    let mut i: usize = from;
    while i < to
        invariant
            from <= i <= to <= path.len(),
            r@ == path@.subrange(from as int, i as int),
        decreases to - i,
    {
        assert(path@.subrange(from as int, i + 1) =~= r@.push(path@[i as int]));
        r.push(path[i]);
        i = i + 1;
    }
    r
}

fn end_of_piece(path: &Vec<u8>, from: usize, verbatim: bool) -> (end: usize)
    requires
        from <= path.len(),
    ensures
        end == piece_end(path@, from as int, verbatim),
        from <= end <= path.len(),
{
    let mut end: usize = from;
    while end < path.len() && path[end] != BACKSLASH && (verbatim || path[end] != SLASH)
        invariant
            from <= end <= path.len(),
            piece_end(path@, from as int, verbatim) == piece_end(path@, end as int, verbatim),
        decreases path.len() - end,
    {
        end = end + 1;
    }
    end
}

fn separates(byte: u8, separator: u8) -> (r: bool)
    ensures
        r == is_separator(byte, separator),
{
    byte == separator || byte == SLASH
}

fn drive_at(path: &Vec<u8>, from: usize) -> (r: bool)
    requires
        from <= 4,
    ensures
        r == has_drive_at(path@, from as int),
{
    path.len() >= from + 2 && ((0x41 <= path[from] && path[from] <= 0x5a) || (0x61 <= path[from]
        && path[from] <= 0x7a)) && path[from + 1] == COLON
}

/// The prefix of a path.
struct PathPrefix {
    kind: PrefixKind,
    names: Vec<Vec<u8>>,
    len: usize,
}

impl View for PathPrefix {
    type V = Prefix;

    closed spec fn view(&self) -> Prefix {
        Prefix { kind: self.kind, names: contents(self.names@), len: self.len as int }
    }
}

impl PathPrefix {
    fn one(kind: PrefixKind, name: Vec<u8>, len: usize) -> (r: PathPrefix)
        ensures
            r@ == (Prefix { kind, names: seq![name@], len: len as int }),
    {
        let mut names: Vec<Vec<u8>> = Vec::new();
        names.push(name);
        assert(contents(names@) =~= seq![name@]);
        PathPrefix { kind, names, len }
    }

    fn two(kind: PrefixKind, first: Vec<u8>, second: Vec<u8>, len: usize) -> (r: PathPrefix)
        ensures
            r@ == (Prefix { kind, names: seq![first@, second@], len: len as int }),
    {
        let mut names: Vec<Vec<u8>> = Vec::new();
        names.push(first);
        names.push(second);
        assert(contents(names@) =~= seq![first@, second@]);
        PathPrefix { kind, names, len }
    }

    fn drive(kind: PrefixKind, letter: u8, len: usize) -> (r: PathPrefix)
        requires
            is_letter(letter),
        ensures
            r@ == (Prefix { kind, names: seq![seq![upper(letter)]], len: len as int }),
    {
        let mut name: Vec<u8> = Vec::new();
        if letter >= 0x61 {
            name.push(letter - 0x20);
        } else {
            name.push(letter);
        }
        assert(name@ =~= seq![upper(letter)]);
        PathPrefix::one(kind, name, len)
    }

    fn after_verbatim(path: &Vec<u8>) -> (r: PathPrefix)
        requires
            path.len() >= 4,
        ensures
            r@ == verbatim_prefix(path@),
            r.len <= path.len(),
    {
        if path.len() >= 8 && path[4] == 0x55 && path[5] == 0x4e && path[6] == 0x43 && separates(
            path[7],
            BACKSLASH,
        ) {
            let server_end = end_of_piece(path, 8, true);
            let share: usize = if server_end < path.len() {
                server_end + 1
            } else {
                server_end
            };
            let share_end = end_of_piece(path, share, true);
            let len: usize = if share < share_end {
                share_end
            } else {
                server_end
            };
            PathPrefix::two(
                PrefixKind::VerbatimUnc,
                copied(path, 8, server_end),
                copied(path, share, share_end),
                len,
            )
        } else if drive_at(path, 4) && (path.len() == 6 || separates(path[6], BACKSLASH)) {
            PathPrefix::drive(PrefixKind::VerbatimDisk, path[4], 6)
        } else {
            let end = end_of_piece(path, 4, true);
            PathPrefix::one(PrefixKind::Verbatim, copied(path, 4, end), end)
        }
    }

    /// The prefix of a path, where it has one.
    fn find(path: &Vec<u8>, separator: u8) -> (r: Option<PathPrefix>)
        ensures
            match r {
                None => prefix_of(path@, separator) is None,
                Some(prefix) => prefix_of(path@, separator) == Some(prefix@) && prefix.len
                    <= path.len(),
            },
    {
        if separator != BACKSLASH {
            return None;
        }
        if path.len() >= 2 && separates(path[0], BACKSLASH) && separates(path[1], BACKSLASH) {
            if path.len() >= 4 && path[0] == BACKSLASH && path[1] == BACKSLASH && path[2]
                == QUESTION_MARK && path[3] == BACKSLASH {
                Some(PathPrefix::after_verbatim(path))
            } else if path.len() >= 4 && path[2] == DOT && separates(path[3], BACKSLASH) {
                let end = end_of_piece(path, 4, false);
                Some(PathPrefix::one(PrefixKind::DeviceNs, copied(path, 4, end), end))
            } else {
                let server_end = end_of_piece(path, 2, false);
                let share: usize = if server_end < path.len() {
                    server_end + 1
                } else {
                    server_end
                };
                let share_end = end_of_piece(path, share, false);
                if 2 < server_end && share < share_end {
                    Some(
                        PathPrefix::two(
                            PrefixKind::Unc,
                            copied(path, 2, server_end),
                            copied(path, share, share_end),
                            share_end,
                        ),
                    )
                } else {
                    None
                }
            }
        } else if drive_at(path, 0) {
            Some(PathPrefix::drive(PrefixKind::Disk, path[0], 2))
        } else {
            None
        }
    }
}

/// A path taken apart.
struct PathParts {
    prefix: Option<PathPrefix>,
    prefix_len: usize,
    verbatim: bool,
    rooted: bool,
    names: Vec<Vec<u8>>,
}

impl PathParts {
    spec fn are_of(&self, path: Seq<u8>, separator: u8) -> bool {
        &&& match self.prefix {
            None => prefix_of(path, separator) is None,
            Some(prefix) => prefix_of(path, separator) == Some(prefix@),
        }
        &&& self.prefix_len == prefix_len(path, separator) <= path.len()
        &&& self.verbatim == is_verbatim(path, separator)
        &&& self.rooted == is_rooted(path, separator)
        &&& contents(self.names@) == names_of(path, separator)
    }

    fn new(path: &Vec<u8>, separator: u8) -> (r: PathParts)
        ensures
            r.are_of(path@, separator),
    {
        let prefix = PathPrefix::find(path, separator);
        let mut prefix_len: usize = 0;
        let mut verbatim = false;
        let mut rooted = false;
        let mut dots = Dots::Leading;
        if let Some(prefix) = &prefix {
            prefix_len = prefix.len;
            verbatim = matches!(
                prefix.kind,
                PrefixKind::Verbatim | PrefixKind::VerbatimUnc | PrefixKind::VerbatimDisk
            );
            rooted = matches!(prefix.kind, PrefixKind::DeviceNs | PrefixKind::Unc);
            dots = if verbatim {
                Dots::Always
            } else {
                Dots::Never
            };
        }
        let mut start: usize = prefix_len;
        if start < path.len() && separates(path[start], separator) {
            start = start + 1;
            rooted = true;
            if prefix.is_none() {
                dots = Dots::Never;
            }
        }
        let rest = copied(path, start, path.len());
        assert(rest@ =~= body(path@, separator));
        let names = names_in(&rest, separator, verbatim, dots);
        PathParts { prefix, prefix_len, verbatim, rooted, names }
    }
}

/// Appends the piece from `from` up to, not including, `to`, if it counts.
fn push_name(
    names: &mut Vec<Vec<u8>>,
    path: &Vec<u8>,
    from: usize,
    to: usize,
    dots: Dots,
    Ghost(done): Ghost<Seq<Seq<u8>>>,
)
    requires
        from <= to <= path.len(),
        from == 0 <==> done.len() == 0,
        contents(old(names)@) == names_among(done, dots),
    ensures
        contents(final(names)@) == names_among(
            done.push(path@.subrange(from as int, to as int)),
            dots,
        ),
{
    let ghost piece = path@.subrange(from as int, to as int);
    assert(done.push(piece).drop_last() =~= done);
    let is_dot = to - from == 1 && path[from] == DOT;
    proof {
        if is_dot {
            assert(piece =~= seq![DOT]);
        } else if piece == seq![DOT] {
            assert(piece.len() == 1 && piece[0] == DOT);
        }
    }
    let counts = match dots {
        Dots::Always => true,
        Dots::Leading => from == 0 || !is_dot,
        Dots::Never => !is_dot,
    };
    if from < to && counts {
        let name = copied(path, from, to);
        names.push(name);
        assert(contents(names@) =~= contents(old(names)@).push(piece));
    }
}

/// The pieces that count of what follows a prefix and a root.
fn names_in(path: &Vec<u8>, separator: u8, verbatim: bool, dots: Dots) -> (names: Vec<Vec<u8>>)
    ensures
        contents(names@) == names_among(pieces(path@, separator, verbatim), dots),
{
    let mut names: Vec<Vec<u8>> = Vec::new();
    let mut start: usize = 0;
    let mut i: usize = 0;
    let ghost mut done: Seq<Seq<u8>> = Seq::empty();
    proof {
        assert(path@.take(0) =~= Seq::empty());
        assert(path@.subrange(0, 0) =~= Seq::empty());
        assert(pieces(path@.take(0), separator, verbatim) =~= done.push(path@.subrange(0, 0)));
        assert(contents(names@) =~= Seq::empty());
    }
    while i < path.len()
        invariant
            start <= i <= path.len(),
            start == 0 <==> done.len() == 0,
            pieces(path@.take(i as int), separator, verbatim) == done.push(
                path@.subrange(start as int, i as int),
            ),
            contents(names@) == names_among(done, dots),
        decreases path.len() - i,
    {
        let ghost piece = path@.subrange(start as int, i as int);
        proof {
            assert(path@.take(i + 1).drop_last() =~= path@.take(i as int));
            assert(done.push(piece).drop_last() =~= done);
            assert(path@.subrange(start as int, i + 1) =~= piece.push(path@[i as int]));
            assert(path@.subrange(i + 1, i + 1) =~= Seq::empty());
        }
        if path[i] == separator || (!verbatim && path[i] == SLASH) {
            push_name(&mut names, path, start, i, dots, Ghost(done));
            proof {
                done = done.push(piece);
            }
            start = i + 1;
        }
        i = i + 1;
    }
    push_name(&mut names, path, start, i, dots, Ghost(done));
    assert(path@.take(i as int) =~= path@);
    names
}

fn same_bytes(left: &Vec<u8>, right: &Vec<u8>) -> (r: bool)
    ensures
        r == (left@ == right@),
{
    if left.len() != right.len() {
        return false;
    }
    let mut i: usize = 0;
    while i < left.len()
        invariant
            i <= left.len(),
            left.len() == right.len(),
            forall|k: int| 0 <= k < i ==> left[k] == right[k],
        decreases left.len() - i,
    {
        if left[i] != right[i] {
            return false;
        }
        i = i + 1;
    }
    assert(left@ =~= right@);
    true
}

fn same_names(left: &Vec<Vec<u8>>, right: &Vec<Vec<u8>>) -> (r: bool)
    ensures
        r == (contents(left@) == contents(right@)),
{
    if left.len() != right.len() {
        assert(contents(left@).len() != contents(right@).len());
        return false;
    }
    let mut i: usize = 0;
    while i < left.len()
        invariant
            i <= left.len(),
            left.len() == right.len(),
            forall|k: int| 0 <= k < i ==> (#[trigger] left[k])@ == right[k]@,
        decreases left.len() - i,
    {
        if !same_bytes(&left[i], &right[i]) {
            assert(contents(left@)[i as int] != contents(right@)[i as int]);
            return false;
        }
        i = i + 1;
    }
    assert(contents(left@) =~= contents(right@));
    true
}

/// The last name in a path, where it is one and not dots.
pub fn file_name(path: &Vec<u8>, separator: u8) -> (r: Option<Vec<u8>>)
    ensures
        match r {
            None => file_name_of(path@, separator) is None,
            Some(name) => file_name_of(path@, separator) == Some(name@),
        },
{
    let mut names = PathParts::new(path, separator).names;
    assert(contents(names@).len() > 0 ==> contents(names@).last() == names@.last()@);
    match names.pop() {
        None => None,
        Some(name) => if is_one_dot(&name) || is_two_dots(&name) {
            None
        } else {
            Some(name)
        },
    }
}

fn start_of_piece(path: &Vec<u8>, separator: u8, verbatim: bool, lead: usize, end: usize) -> (start:
    usize)
    requires
        lead <= end <= path.len(),
    ensures
        start == piece_start(path@, separator, verbatim, lead as int, end as int),
        lead <= start <= end,
{
    let mut start: usize = end;
    while start > lead && path[start - 1] != separator && (verbatim || path[start - 1] != SLASH)
        invariant
            lead <= start <= end <= path.len(),
            piece_start(path@, separator, verbatim, lead as int, end as int) == piece_start(
                path@,
                separator,
                verbatim,
                lead as int,
                start as int,
            ),
        decreases start,
    {
        start = start - 1;
    }
    start
}

fn end_that_counts(path: &Vec<u8>, separator: u8, verbatim: bool, lead: usize, end: usize) -> (r:
    usize)
    requires
        lead <= end <= path.len(),
    ensures
        r == counting_end(path@, separator, verbatim, lead as int, end as int),
        lead <= r <= end,
    decreases end,
{
    if end == lead {
        return end;
    }
    let start = start_of_piece(path, separator, verbatim, lead, end);
    if start == end || (!verbatim && end - start == 1 && path[start] == DOT) {
        let before: usize = if start > lead {
            start - 1
        } else {
            start
        };
        end_that_counts(path, separator, verbatim, lead, before)
    } else {
        end
    }
}

/// The path without its last name, which may be dots, and without the separators and
/// dots before it. A path without names has no parent.
pub fn parent(path: &Vec<u8>, separator: u8) -> (r: Option<Vec<u8>>)
    ensures
        match r {
            None => parent_of(path@, separator) is None,
            Some(parent) => parent_of(path@, separator) == Some(parent@),
        },
{
    let parts = PathParts::new(path, separator);
    if parts.names.len() == 0 {
        return None;
    }
    let n = path.len();
    let len = parts.prefix_len;
    let mut body: usize = len;
    if body < n && separates(path[body], separator) {
        body = body + 1;
    }
    let before_dot = match &parts.prefix {
        None => true,
        Some(prefix) => matches!(prefix.kind, PrefixKind::Disk),
    };
    let mut lead: usize = body;
    if before_dot && len < n && path[len] == DOT && (len + 1 >= n || separates(
        path[len + 1],
        separator,
    )) {
        if body < n {
            lead = body + 1;
        }
    }
    let end = end_that_counts(path, separator, parts.verbatim, lead, n);
    let kept: usize = if end <= lead {
        body
    } else {
        let start = start_of_piece(path, separator, parts.verbatim, lead, end);
        end_that_counts(
            path,
            separator,
            parts.verbatim,
            lead,
            if start > lead {
                start - 1
            } else {
                start
            },
        )
    };
    let r = copied(path, 0, kept);
    assert(r@ =~= path@.take(kept as int));
    Some(r)
}

/// Whether two paths are the same but for the case of a drive's letter, repeated
/// separators, a separator at the end and dots that stand for the directory they are in.
pub fn same_path(left: &Vec<u8>, right: &Vec<u8>, separator: u8) -> (r: bool)
    ensures
        r == is_same_path(left@, right@, separator),
{
    let one = PathParts::new(left, separator);
    let other = PathParts::new(right, separator);
    let same_prefix = match (&one.prefix, &other.prefix) {
        (None, None) => true,
        (Some(p), Some(q)) => p.kind == q.kind && same_names(&p.names, &q.names),
        _ => false,
    };
    same_prefix && one.rooted == other.rooted && same_names(&one.names, &other.names)
}

fn is_one_dot(name: &Vec<u8>) -> (r: bool)
    ensures
        r == (name@ == seq![DOT]),
{
    let r = name.len() == 1 && name[0] == DOT;
    proof {
        if r {
            assert(name@ =~= seq![DOT]);
        } else if name@ == seq![DOT] {
            assert(name@.len() == 1 && name@[0] == DOT);
        }
    }
    r
}

fn is_two_dots(name: &Vec<u8>) -> (r: bool)
    ensures
        r == (name@ == seq![DOT, DOT]),
{
    let r = name.len() == 2 && name[0] == DOT && name[1] == DOT;
    proof {
        if r {
            assert(name@ =~= seq![DOT, DOT]);
        } else if name@ == seq![DOT, DOT] {
            assert(name@.len() == 2 && name@[0] == DOT && name@[1] == DOT);
        }
    }
    r
}

/// Takes the way on by one name.
fn take_way_on(way: &mut Vec<Vec<u8>>, name: Vec<u8>, Ghost(rooted): Ghost<bool>)
    ensures
        (Way { rooted, names: contents(final(way)@) }) == way_on(
            Way { rooted, names: contents(old(way)@) },
            name@,
        ),
{
    if is_one_dot(&name) {
        return ;
    }
    if is_two_dots(&name) {
        let n = way.len();
        if n > 0 {
            assert(contents(way@).last() == way@[n - 1]@);
            if !is_one_dot(&way[n - 1]) && !is_two_dots(&way[n - 1]) {
                way.pop();
                assert(contents(way@) =~= contents(old(way)@).drop_last());
            }
        }
        return ;
    }
    way.push(name);
    assert(contents(way@) =~= contents(old(way)@).push(name@));
}

/// Takes the way on by names, one after another.
fn take_way_along(way: &mut Vec<Vec<u8>>, names: Vec<Vec<u8>>, Ghost(rooted): Ghost<bool>)
    ensures
        (Way { rooted, names: contents(final(way)@) }) == way_along(
            Way { rooted, names: contents(old(way)@) },
            contents(names@),
        ),
{
    let ghost all = contents(names@);
    assert(all.take(0) =~= Seq::empty());
    for name in it: names
        invariant
            all == contents(it.seq()),
            (Way { rooted, names: contents(way@) }) == way_along(
                Way { rooted, names: contents(old(way)@) },
                all.take(it.index() as int),
            ),
    {
        assert(all.take(it.index() + 1).drop_last() =~= all.take(it.index() as int));
        assert(all.take(it.index() + 1).last() == name@);
        take_way_on(way, name, Ghost(rooted));
    }
    assert(all.take(all.len() as int) =~= all);
}

/// Appends the names, each after a separator.
fn append_separated(path: &mut Vec<u8>, names: &Vec<Vec<u8>>, separator: u8)
    ensures
        final(path)@ == old(path)@ + separated(contents(names@), separator),
{
    let mut i: usize = 0;
    assert(contents(names@).take(0) =~= Seq::empty());
    while i < names.len()
        invariant
            i <= names.len(),
            path@ == old(path)@ + separated(contents(names@).take(i as int), separator),
        decreases names.len() - i,
    {
        proof {
            let taken = contents(names@).take(i + 1);
            assert(taken.drop_last() =~= contents(names@).take(i as int));
            assert(taken.last() == names[i as int]@);
        }
        path.push(separator);
        path.extend_from_slice(names[i].as_slice());
        assert(path@ =~= old(path)@ + separated(contents(names@).take(i + 1), separator));
        i = i + 1;
    }
    assert(contents(names@).take(i as int) =~= contents(names@));
}

/// The path that `name` is in the directory `base`: as a rule the two with a separator
/// between them.
pub fn join(base: &Vec<u8>, name: &[u8], separator: u8) -> (path: Vec<u8>)
    ensures
        path@ == joined(base@, name@, separator),
{
    let mut added: Vec<u8> = Vec::new();
    added.extend_from_slice(name);
    assert(added@ =~= name@);
    let parts = PathParts::new(base, separator);
    let steps = PathParts::new(&added, separator);
    if steps.prefix.is_some() || (separator != BACKSLASH && steps.rooted) {
        return added;
    }
    if parts.verbatim && added.len() > 0 {
        let mut way: Vec<Vec<u8>> = parts.names;
        let mut rooted = parts.rooted;
        if steps.rooted {
            way = Vec::new();
            rooted = true;
            assert(contents(way@) =~= Seq::empty());
        }
        take_way_along(&mut way, steps.names, Ghost(rooted));
        let mut path = copied(base, 0, parts.prefix_len);
        assert(path@ =~= base@.take(prefix_len(base@, separator)));
        if rooted && way.len() == 0 {
            path.push(separator);
        } else {
            append_separated(&mut path, &way, separator);
        }
        return path;
    }
    let n = base.len();
    let mut path = copied(
        base,
        0,
        if steps.rooted {
            parts.prefix_len
        } else {
            n
        },
    );
    let is_bare_drive = match &parts.prefix {
        None => false,
        Some(prefix) => matches!(prefix.kind, PrefixKind::Disk) && prefix.len == n,
    };
    if !steps.rooted && n > 0 && !separates(base[n - 1], separator) && !is_bare_drive {
        path.push(separator);
    }
    path.extend_from_slice(name);
    assert(path@ =~= joined(base@, name@, separator));
    path
}

/// The piece lies from `start` to `end`, has no separator in it, and ends at one or at the
/// end. A slash is one unless the path is verbatim.
pub open spec fn is_piece(
    body: Seq<u8>,
    separator: u8,
    verbatim: bool,
    start: int,
    end: int,
    piece: Seq<u8>,
) -> bool {
    &&& 0 <= start <= end <= body.len()
    &&& piece == body.subrange(start, end)
    &&& end == body.len() || body[end] == separator || (!verbatim && body[end] == 0x2f)
    &&& forall|i: int|
        start <= i < end ==> (#[trigger] body[i]) != separator && (verbatim || body[i] != 0x2f)
}

/// The pieces lie one after another between separators, which are in none of them: the
/// piece at `k` begins at `starts[k]`, and ends at the separator before the next begins or
/// at the end.
pub proof fn law_pieces_lie_between_separators(
    body: Seq<u8>,
    separator: u8,
    verbatim: bool,
) -> (starts: Seq<int>)
    ensures
        starts.len() == pieces(body, separator, verbatim).len() >= 1,
        starts[0] == 0,
        forall|k: int|
            0 <= k < starts.len() ==> is_piece(
                body,
                separator,
                verbatim,
                starts[k],
                if k + 1 < starts.len() {
                    starts[k + 1] - 1
                } else {
                    body.len() as int
                },
                #[trigger] pieces(body, separator, verbatim)[k],
            ),
        forall|k: int| 0 <= k < starts.len() - 1 ==> (#[trigger] starts[k]) < starts[k + 1]
            <= body.len(),
    decreases body.len(),
{
    let all = pieces(body, separator, verbatim);
    if body.len() == 0 {
        let starts = seq![0int];
        assert(starts.len() == 1 && starts[0] == 0);
        assert(all.len() == 1);
        assert(all[0] =~= Seq::empty());
        assert(body.subrange(0, 0) =~= Seq::empty());
        assert(forall|k: int| 0 <= k < all.len() ==> k == 0 && #[trigger] all[k] == body.subrange(0, 0));
        starts
    } else {
        let shorter = body.drop_last();
        let earlier = pieces(shorter, separator, verbatim);
        let old_starts = law_pieces_lie_between_separators(shorter, separator, verbatim);
        let n = shorter.len() as int;
        let last = earlier.len() - 1;
        assert(earlier[last] == earlier.last());
        let starts = if ends_piece(body.last(), separator, verbatim) {
            old_starts.push(n + 1)
        } else {
            old_starts
        };
        assert(starts[0] == old_starts[0]);
        assert forall|k: int| 0 <= k < starts.len() implies is_piece(
            body,
            separator,
            verbatim,
            starts[k],
            if k + 1 < starts.len() {
                starts[k + 1] - 1
            } else {
                body.len() as int
            },
            #[trigger] all[k],
        ) by {
            if k <= last {
                let old_end = if k + 1 < old_starts.len() {
                    old_starts[k + 1] - 1
                } else {
                    n
                };
                assert(is_piece(
                    shorter,
                    separator,
                    verbatim,
                    old_starts[k],
                    old_end,
                    earlier[k],
                ));
                assert(forall|i: int| old_starts[k] <= i < old_end ==> #[trigger] body[i] == shorter[i]);
                if k < last {
                    assert(all[k] == earlier[k]);
                    assert(old_starts[k] < old_starts[k + 1] <= n);
                    assert(body[old_end] == shorter[old_end]);
                    assert(all[k] =~= body.subrange(starts[k], old_end));
                } else if ends_piece(body.last(), separator, verbatim) {
                    assert(all[k] == earlier[k]);
                    assert(all[k] =~= body.subrange(starts[k], n));
                } else {
                    assert(all[k] == earlier.last().push(body.last()));
                    assert(all[k] =~= body.subrange(starts[k], n + 1));
                }
            } else {
                assert(all[k] =~= body.subrange(n + 1, n + 1));
            }
        }
        starts
    }
}

/// The names are the pieces that are not empty, but for dots: all of these count where
/// `dots` says so, or the one at the beginning, or none. They stay in their order.
pub proof fn law_names_are_the_pieces_that_count(
    pieces: Seq<Seq<u8>>,
    dots: Dots,
) -> (at: Seq<int>)
    ensures
        is_selection(
            pieces.len() as int,
            |i: int|
                pieces[i].len() > 0 && (pieces[i] != seq![0x2eu8] || dots is Always || (
                dots is Leading && i == 0)),
            at,
        ),
        names_among(pieces, dots).len() == at.len(),
        forall|k: int| 0 <= k < at.len() ==> #[trigger] names_among(pieces, dots)[k] == pieces[at[k]],
    decreases pieces.len(),
{
    let keep = |i: int|
        pieces[i].len() > 0 && (pieces[i] != seq![0x2eu8] || dots is Always || (dots is Leading && i
            == 0));
    if pieces.len() == 0 {
        Seq::empty()
    } else {
        let fewer = pieces.drop_last();
        let before = |i: int|
            fewer[i].len() > 0 && (fewer[i] != seq![0x2eu8] || dots is Always || (dots is Leading
                && i == 0));
        let n = pieces.len() - 1;
        let earlier = law_names_are_the_pieces_that_count(fewer, dots);
        assert(is_selection(n, before, earlier));
        assert forall|i: int| 0 <= i < n implies #[trigger] before(i) == keep(i) by {
            assert(fewer[i] == pieces[i]);
        }
        let at = lemma_selection_grows(n, before, keep, earlier);
        assert(pieces[n] == pieces.last());
        assert forall|k: int| 0 <= k < at.len() implies #[trigger] names_among(pieces, dots)[k]
            == pieces[at[k]] by {
            if k < earlier.len() {
                assert(names_among(pieces, dots)[k] == names_among(fewer, dots)[k]);
                assert(at[k] == earlier[k]);
                assert(fewer[earlier[k]] == pieces[at[k]]);
            }
        }
        at
    }
}

/// A path has no prefix unless the separator is a backslash.
pub proof fn law_only_windows_has_prefixes(path: Seq<u8>, separator: u8)
    requires
        separator != 0x5c,
    ensures
        prefix_of(path, separator) is None,
        is_rooted(path, separator) == (path.len() > 0 && (path[0] == separator || path[0] == 0x2f)),
        dots_of(path, separator) == if is_rooted(path, separator) {
            Dots::Never
        } else {
            Dots::Leading
        },
        names_of(path, separator) == names_among(
            pieces(
                if is_rooted(path, separator) {
                    path.skip(1)
                } else {
                    path
                },
                separator,
                false,
            ),
            dots_of(path, separator),
        ),
{
    assert(path.skip(0) =~= path);
}

/// The piece that begins at `from` ends at `end` if no separator is in it and one, or the
/// end of the path, is at its end. Where the path is verbatim, a slash is no separator.
pub proof fn law_a_piece_ends_at_the_next_separator(
    path: Seq<u8>,
    from: int,
    end: int,
    verbatim: bool,
)
    requires
        0 <= from <= end <= path.len(),
        forall|i: int|
            from <= i < end ==> (#[trigger] path[i]) != 0x5c && (verbatim || path[i] != 0x2f),
        end == path.len() || path[end] == 0x5c || (!verbatim && path[end] == 0x2f),
    ensures
        piece_end(path, from, verbatim) == end,
    decreases end - from,
{
    if from < end {
        law_a_piece_ends_at_the_next_separator(path, from + 1, end, verbatim);
    }
}

/// A letter and a colon are a drive, in either case of the letter.
pub proof fn law_drives_are_prefixes(path: Seq<u8>)
    requires
        path.len() >= 2,
        0x41 <= path[0] <= 0x5a || 0x61 <= path[0] <= 0x7a,
        path[1] == 0x3a,
    ensures
        prefix_of(path, 0x5c) is Some,
        prefix_of(path, 0x5c)->0.kind is Disk,
        prefix_of(path, 0x5c)->0.len == 2,
        prefix_of(path, 0x5c)->0.names.len() == 1,
        prefix_of(path, 0x5c)->0.names[0] == seq![
            if path[0] >= 0x61 {
                (path[0] - 0x20) as u8
            } else {
                path[0]
            },
        ],
{
}

/// A path that begins neither with two separators nor with a drive has no prefix.
pub proof fn law_other_paths_have_no_prefix(path: Seq<u8>, separator: u8)
    requires
        path.len() < 2 || !((path[0] == 0x5c || path[0] == 0x2f) && (path[1] == 0x5c || path[1]
            == 0x2f)),
        path.len() < 2 || path[1] != 0x3a || !(0x41 <= path[0] <= 0x5a || 0x61 <= path[0] <= 0x7a),
    ensures
        prefix_of(path, separator) is None,
{
}

/// Two separators, a server, a separator and a share are a prefix, unless they begin with
/// `\\?\` or name a device.
pub proof fn law_shares_are_prefixes(path: Seq<u8>, server_end: int, share_end: int)
    requires
        2 < server_end,
        server_end + 1 < share_end <= path.len(),
        path[0] == 0x5c || path[0] == 0x2f,
        path[1] == 0x5c || path[1] == 0x2f,
        path[server_end] == 0x5c || path[server_end] == 0x2f,
        share_end == path.len() || path[share_end] == 0x5c || path[share_end] == 0x2f,
        forall|i: int|
            2 <= i < share_end && i != server_end ==> (#[trigger] path[i]) != 0x5c && path[i] != 0x2f,
        !(path[0] == 0x5c && path[1] == 0x5c && path[2] == 0x3f && path[3] == 0x5c),
        !(path[2] == 0x2e && server_end == 3),
    ensures
        prefix_of(path, 0x5c) is Some,
        prefix_of(path, 0x5c)->0.kind is Unc,
        prefix_of(path, 0x5c)->0.len == share_end,
        prefix_of(path, 0x5c)->0.names == seq![
            path.subrange(2, server_end),
            path.subrange(server_end + 1, share_end),
        ],
{
    law_a_piece_ends_at_the_next_separator(path, 2, server_end, false);
    law_a_piece_ends_at_the_next_separator(path, server_end + 1, share_end, false);
    assert(path[3] == 0x5c || path[3] == 0x2f ==> server_end == 3);
}

/// Two separators, a dot, a separator and a name are a device.
pub proof fn law_devices_are_prefixes(path: Seq<u8>, end: int)
    requires
        4 <= end <= path.len(),
        path[0] == 0x5c || path[0] == 0x2f,
        path[1] == 0x5c || path[1] == 0x2f,
        path[2] == 0x2e,
        path[3] == 0x5c || path[3] == 0x2f,
        end == path.len() || path[end] == 0x5c || path[end] == 0x2f,
        forall|i: int| 4 <= i < end ==> (#[trigger] path[i]) != 0x5c && path[i] != 0x2f,
    ensures
        prefix_of(path, 0x5c) is Some,
        prefix_of(path, 0x5c)->0.kind is DeviceNs,
        prefix_of(path, 0x5c)->0.len == end,
        prefix_of(path, 0x5c)->0.names == seq![path.subrange(4, end)],
{
    law_a_piece_ends_at_the_next_separator(path, 4, end, false);
}

/// What follows `\\?\` is a drive, if a letter and a colon are all of it or are before a
/// separator; or else a name, unless it is `UNC` and a separator.
pub proof fn law_verbatim_names_are_prefixes(path: Seq<u8>, end: int)
    requires
        4 <= end <= path.len(),
        path[0] == 0x5c && path[1] == 0x5c && path[2] == 0x3f && path[3] == 0x5c,
        !(path.len() >= 8 && path[4] == 0x55 && path[5] == 0x4e && path[6] == 0x43 && (path[7]
            == 0x5c || path[7] == 0x2f)),
        end == path.len() || path[end] == 0x5c,
        forall|i: int| 4 <= i < end ==> (#[trigger] path[i]) != 0x5c,
    ensures
        prefix_of(path, 0x5c) is Some,
        ({
            let prefix = prefix_of(path, 0x5c)->0;
            if path.len() >= 6 && (0x41 <= path[4] <= 0x5a || 0x61 <= path[4] <= 0x7a) && path[5]
                == 0x3a && (path.len() == 6 || path[6] == 0x5c || path[6] == 0x2f) {
                &&& prefix.kind is VerbatimDisk
                &&& prefix.len == 6
                &&& prefix.names == seq![
                    seq![
                        if path[4] >= 0x61 {
                            (path[4] - 0x20) as u8
                        } else {
                            path[4]
                        },
                    ],
                ]
            } else {
                &&& prefix.kind is Verbatim
                &&& prefix.len == end
                &&& prefix.names == seq![path.subrange(4, end)]
            }
        }),
{
    law_a_piece_ends_at_the_next_separator(path, 4, end, true);
}

/// After `\\?\UNC\` come a server and, after a backslash, a share, which may be empty and
/// then is not part of the prefix.
pub proof fn law_verbatim_shares_are_prefixes(path: Seq<u8>, server_end: int, share_end: int)
    requires
        8 <= server_end < share_end <= path.len(),
        path[0] == 0x5c && path[1] == 0x5c && path[2] == 0x3f && path[3] == 0x5c,
        path[4] == 0x55 && path[5] == 0x4e && path[6] == 0x43,
        path[7] == 0x5c || path[7] == 0x2f,
        path[server_end] == 0x5c,
        share_end == path.len() || path[share_end] == 0x5c,
        forall|i: int| 8 <= i < share_end && i != server_end ==> (#[trigger] path[i]) != 0x5c,
    ensures
        prefix_of(path, 0x5c) is Some,
        prefix_of(path, 0x5c)->0.kind is VerbatimUnc,
        prefix_of(path, 0x5c)->0.len == if server_end + 1 < share_end {
            share_end
        } else {
            server_end
        },
        prefix_of(path, 0x5c)->0.names == seq![
            path.subrange(8, server_end),
            path.subrange(server_end + 1, share_end),
        ],
{
    law_a_piece_ends_at_the_next_separator(path, 8, server_end, true);
    law_a_piece_ends_at_the_next_separator(path, server_end + 1, share_end, true);
}

/// With slashes alone, a name is put after the directory and a slash, which is left out
/// where the directory is empty or ends with one. A name that begins with a slash stands
/// for itself.
pub proof fn law_paths_are_joined_with_one_slash(base: Seq<u8>, name: Seq<u8>)
    ensures
        joined(base, name, 0x2f) == if name.len() > 0 && name[0] == 0x2f {
            name
        } else if base.len() == 0 || base[base.len() - 1] == 0x2f {
            base + name
        } else {
            base + seq![0x2fu8] + name
        },
{
    assert(base.push(0x2f) + name =~= base + seq![0x2fu8] + name);
}

/// With backslashes, a name without prefix and root is put after a directory that is not
/// verbatim and a backslash, which is left out where the directory is empty, ends with a
/// separator or is a bare drive. A name with a prefix stands for itself.
pub proof fn law_paths_of_windows_are_joined(base: Seq<u8>, name: Seq<u8>)
    requires
        prefix_of(base, 0x5c) is Some ==> {
            let kind = prefix_of(base, 0x5c)->0.kind;
            kind is Disk || kind is Unc || kind is DeviceNs
        },
    ensures
        prefix_of(name, 0x5c) is Some ==> joined(base, name, 0x5c) == name,
        prefix_of(name, 0x5c) is None && (name.len() == 0 || (name[0] != 0x5c && name[0] != 0x2f))
            ==> joined(base, name, 0x5c) == if base.len() == 0 || base[base.len() - 1] == 0x5c
            || base[base.len() - 1] == 0x2f || (base.len() == 2 && prefix_of(base, 0x5c) is Some
            && prefix_of(base, 0x5c)->0.kind is Disk) {
            base + name
        } else {
            base + seq![0x5cu8] + name
        },
        prefix_of(name, 0x5c) is None && name.len() > 0 && (name[0] == 0x5c || name[0] == 0x2f)
            ==> joined(base, name, 0x5c) == base.take(
            match prefix_of(base, 0x5c) {
                None => 0,
                Some(prefix) => prefix.len,
            },
        ) + name,
{
    assert(base.push(0x5c) + name =~= base + seq![0x5cu8] + name);
}

proof fn lemma_pieces_of_longer(left: Seq<u8>, right: Seq<u8>)
    requires
        forall|i: int| 0 <= i < right.len() ==> #[trigger] right[i] != 0x2f,
    ensures
        pieces(left, 0x2f, false).len() >= 1,
        pieces(left + right, 0x2f, false) == pieces(left, 0x2f, false).drop_last().push(
            pieces(left, 0x2f, false).last() + right,
        ),
    decreases right.len(), left.len(),
{
    let all = pieces(left, 0x2f, false);
    if left.len() > 0 {
        lemma_pieces_of_longer(left.drop_last(), Seq::empty());
    }
    if right.len() == 0 {
        assert(left + right =~= left);
        assert(all.last() + right =~= all.last());
        assert(all.drop_last().push(all.last()) =~= all);
    } else {
        let shorter = right.drop_last();
        assert forall|i: int| 0 <= i < shorter.len() implies #[trigger] shorter[i] != 0x2f by {
            assert(shorter[i] == right[i]);
        }
        lemma_pieces_of_longer(left, shorter);
        assert((left + right).drop_last() =~= left + shorter);
        assert((left + right).last() == right.last());
        assert(right[right.len() - 1] == right.last());
        let before = pieces(left + shorter, 0x2f, false);
        assert(before.last() == all.last() + shorter);
        assert(before.drop_last() =~= all.drop_last());
        assert((all.last() + shorter).push(right.last()) =~= all.last() + right);
    }
}

proof fn lemma_pieces_after_slash(left: Seq<u8>, right: Seq<u8>)
    requires
        forall|i: int| 0 <= i < right.len() ==> #[trigger] right[i] != 0x2f,
    ensures
        pieces(left, 0x2f, false).len() >= 1,
        pieces(left.push(0x2f) + right, 0x2f, false) == pieces(left, 0x2f, false).push(right),
{
    lemma_pieces_of_longer(left, Seq::empty());
    lemma_pieces_of_longer(left.push(0x2f), right);
    let all = pieces(left, 0x2f, false);
    assert(left.push(0x2f).drop_last() =~= left);
    assert(pieces(left.push(0x2f), 0x2f, false) =~= all.push(Seq::empty()));
    assert(all.push(Seq::empty()).drop_last() =~= all);
    assert(Seq::<u8>::empty() + right =~= right);
}

proof fn lemma_names_with_one_more(pieces: Seq<Seq<u8>>, piece: Seq<u8>, dots: Dots)
    ensures
        names_among(pieces.push(piece), dots) == if piece.len() == 0 || (piece == seq![DOT] && !(
        dots is Always || (dots is Leading && pieces.len() == 0))) {
            names_among(pieces, dots)
        } else {
            names_among(pieces, dots).push(piece)
        },
{
    assert(pieces.push(piece).drop_last() =~= pieces);
}

/// Joining adds a name: with slashes alone, a path that was joined has the names of the
/// directory and then the name, and begins at the root where the directory does.
pub proof fn law_joining_adds_a_name(base: Seq<u8>, name: Seq<u8>)
    requires
        name.len() > 0,
        name != seq![0x2eu8],
        forall|i: int| 0 <= i < name.len() ==> #[trigger] name[i] != 0x2f,
    ensures
        names_of(joined(base, name, 0x2f), 0x2f) == names_of(base, 0x2f).push(name),
        is_rooted(joined(base, name, 0x2f), 0x2f) == is_rooted(base, 0x2f),
        name != seq![0x2eu8, 0x2e] ==> file_name_of(joined(base, name, 0x2f), 0x2f) == Some(name),
{
    let path = joined(base, name, 0x2f);
    law_paths_are_joined_with_one_slash(base, name);
    law_only_windows_has_prefixes(base, 0x2f);
    law_only_windows_has_prefixes(path, 0x2f);
    assert(name[0] != 0x2f);
    let r: int = if is_rooted(base, 0x2f) {
        1
    } else {
        0
    };
    let directory = base.skip(r);
    let dots = dots_of(base, 0x2f);
    if base.len() > 0 {
        assert(path[0] == base[0]);
    } else {
        assert(path =~= name);
    }
    assert(base.skip(0) =~= base && path.skip(0) =~= path);
    let all = pieces(directory, 0x2f, false);
    if base.len() == 0 || base[base.len() - 1] == 0x2f {
        assert(path.skip(r) =~= directory + name);
        lemma_pieces_of_longer(directory, name);
        assert(all.last().len() == 0) by {
            if directory.len() > 0 {
                assert(directory.last() == base[base.len() - 1]);
            }
        }
        assert(all.last() + name =~= name);
        lemma_names_with_one_more(all.drop_last(), all.last(), dots);
        assert(all.drop_last().push(all.last()) =~= all);
        lemma_names_with_one_more(all.drop_last(), name, dots);
    } else {
        assert(path.skip(r) =~= directory.push(0x2f) + name);
        lemma_pieces_after_slash(directory, name);
        lemma_names_with_one_more(all, name, dots);
    }
}

/// The part of a path up to `end`, without its prefix-free lead, with slashes alone.
proof fn lemma_taken_names(path: Seq<u8>, end: int)
    requires
        lead_len(path, 0x2f) <= end <= path.len(),
    ensures
        ({
            let r = body_start(path, 0x2f);
            &&& 0 <= r <= lead_len(path, 0x2f)
            &&& is_rooted(path.take(end), 0x2f) == is_rooted(path, 0x2f)
            &&& names_of(path.take(end), 0x2f) == names_among(
                pieces(path.subrange(r, end), 0x2f, false),
                dots_of(path, 0x2f),
            )
        }),
{
    let taken = path.take(end);
    law_only_windows_has_prefixes(path, 0x2f);
    law_only_windows_has_prefixes(taken, 0x2f);
    let r = body_start(path, 0x2f);
    if end > 0 {
        assert(taken[0] == path[0]);
    }
    if is_rooted(path, 0x2f) {
        assert(taken.skip(1) =~= path.subrange(1, end));
    } else {
        assert(taken =~= path.subrange(0, end));
    }
}

/// The piece that ends at `end`, with slashes alone.
proof fn lemma_last_piece(path: Seq<u8>, lead: int, end: int) -> (start: int)
    requires
        0 <= lead <= end <= path.len(),
    ensures
        start == piece_start(path, 0x2f, false, lead, end),
        lead <= start <= end,
        forall|i: int| start <= i < end ==> #[trigger] path[i] != 0x2f,
        start > lead ==> path[start - 1] == 0x2f,
    decreases end - lead,
{
    if end <= lead || path[end - 1] == 0x2f {
        end
    } else {
        lemma_last_piece(path, lead, end - 1)
    }
}

/// What the piece that ends at `end` adds to the names before it.
proof fn lemma_names_before_last_piece(path: Seq<u8>, end: int) -> (start: int)
    requires
        lead_len(path, 0x2f) < end <= path.len(),
        end == path.len() || path[end] == 0x2f,
    ensures
        ({
            let lead = lead_len(path, 0x2f);
            let piece = path.subrange(start, end);
            let before = end_before(lead, start);
            &&& start == piece_start(path, 0x2f, false, lead, end)
            &&& lead <= start <= end
            &&& lead <= before < end
            &&& before == lead || path[before] == 0x2f
            &&& names_of(path.take(end), 0x2f) == if piece.len() == 0 || piece == seq![DOT] {
                names_of(path.take(before), 0x2f)
            } else {
                names_of(path.take(before), 0x2f).push(piece)
            }
        }),
{
    let lead = lead_len(path, 0x2f);
    let r = body_start(path, 0x2f);
    let dots = dots_of(path, 0x2f);
    law_only_windows_has_prefixes(path, 0x2f);
    let start = lemma_last_piece(path, lead, end);
    let piece = path.subrange(start, end);
    let before = end_before(lead, start);
    lemma_taken_names(path, end);
    lemma_taken_names(path, before);
    assert forall|i: int| 0 <= i < piece.len() implies #[trigger] piece[i] != 0x2f by {
        assert(piece[i] == path[start + i]);
    }
    if start > lead {
        let left = path.subrange(r, start - 1);
        assert(path.subrange(r, end) =~= left.push(0x2f) + piece);
        lemma_pieces_after_slash(left, piece);
        lemma_names_with_one_more(pieces(left, 0x2f, false), piece, dots);
    } else {
        if begins_with_dot(path, 0x2f) {
            assert(path[lead] == 0x2f);
        }
        assert(lead == r);
        assert(path.subrange(r, r) =~= Seq::empty());
        assert(path.subrange(r, end) =~= Seq::<u8>::empty() + piece);
        lemma_pieces_of_longer(Seq::empty(), piece);
        let none = Seq::<Seq<u8>>::empty();
        assert(pieces(Seq::<u8>::empty(), 0x2f, false) =~= none.push(Seq::empty()));
        assert(pieces(Seq::<u8>::empty(), 0x2f, false).drop_last() =~= none);
        assert(Seq::<u8>::empty() + piece =~= piece);
        lemma_names_with_one_more(none, piece, dots);
        lemma_names_with_one_more(none, Seq::empty(), dots);
        if piece == seq![DOT] {
            assert(piece.len() == 1 && piece[0] == DOT);
            assert(path[r] == DOT);
            if !is_rooted(path, 0x2f) {
                assert(begins_with_dot(path, 0x2f));
            }
        }
    }
    start
}

/// Pieces that do not count can be left off the end without losing a name.
proof fn lemma_counting_end_keeps_names(path: Seq<u8>, end: int) -> (kept: int)
    requires
        lead_len(path, 0x2f) <= end <= path.len(),
        end == path.len() || path[end] == 0x2f || end == lead_len(path, 0x2f),
    ensures
        kept == counting_end(path, 0x2f, false, lead_len(path, 0x2f), end),
        lead_len(path, 0x2f) <= kept <= end,
        kept == path.len() || path[kept] == 0x2f || kept == lead_len(path, 0x2f),
        names_of(path.take(kept), 0x2f) == names_of(path.take(end), 0x2f),
        kept > lead_len(path, 0x2f) ==> {
            let piece = path.subrange(
                piece_start(path, 0x2f, false, lead_len(path, 0x2f), kept),
                kept,
            );
            piece.len() > 0 && piece != seq![DOT]
        },
    decreases end,
{
    let lead = lead_len(path, 0x2f);
    law_only_windows_has_prefixes(path, 0x2f);
    if end > lead {
        let start = lemma_names_before_last_piece(path, end);
        let piece = path.subrange(start, end);
        if start == end || (start + 1 == end && path[start] == DOT) {
            if start + 1 == end {
                assert(piece =~= seq![DOT]);
            }
            lemma_counting_end_keeps_names(path, end_before(lead, start))
        } else {
            if piece == seq![DOT] {
                assert(piece.len() == 1 && piece[0] == DOT);
                assert(path[start] == DOT);
            }
            end
        }
    } else {
        end
    }
}

/// Where a path is nothing but its lead and has a name, that is the dot it begins with.
proof fn lemma_lead_alone_is_a_dot(path: Seq<u8>)
    requires
        lead_len(path, 0x2f) <= path.len(),
        names_of(path.take(lead_len(path, 0x2f)), 0x2f).len() > 0,
    ensures
        body_start(path, 0x2f) == 0,
        !is_rooted(path, 0x2f),
        names_of(path.take(lead_len(path, 0x2f)), 0x2f) == seq![seq![DOT]],
        names_of(path.take(0), 0x2f) == Seq::<Seq<u8>>::empty(),
        !is_rooted(path.take(0), 0x2f),
{
    let lead = lead_len(path, 0x2f);
    let r = body_start(path, 0x2f);
    let none = Seq::<Seq<u8>>::empty();
    let nothing = Seq::<u8>::empty();
    law_only_windows_has_prefixes(path, 0x2f);
    lemma_taken_names(path, lead);
    assert(pieces(nothing, 0x2f, false) =~= none.push(nothing));
    lemma_names_with_one_more(none, nothing, dots_of(path, 0x2f));
    assert(names_among(none, dots_of(path, 0x2f)) =~= none);
    if !begins_with_dot(path, 0x2f) {
        assert(path.subrange(r, lead) =~= nothing);
    }
    assert(begins_with_dot(path, 0x2f));
    law_only_windows_has_prefixes(path.take(0), 0x2f);
    assert(path.take(0) =~= nothing);
    lemma_names_with_one_more(none, nothing, dots_of(path.take(0), 0x2f));
    assert(names_among(none, dots_of(path.take(0), 0x2f)) =~= none);
    let dot = seq![DOT];
    assert(path.subrange(0, 1) =~= nothing + dot);
    lemma_pieces_of_longer(nothing, dot);
    assert(pieces(nothing, 0x2f, false).drop_last() =~= none);
    assert(nothing + dot =~= dot);
    assert(pieces(nothing, 0x2f, false).last() =~= nothing);
    lemma_names_with_one_more(none, dot, dots_of(path, 0x2f));
    assert(none.push(dot) =~= seq![dot]);
}

/// With slashes alone, the parent of a path has the names of the path but for the last, and
/// begins at the root where the path does. A path without names has no parent.
pub proof fn law_the_parent_has_all_names_but_the_last(path: Seq<u8>)
    ensures
        parent_of(path, 0x2f) is Some == (names_of(path, 0x2f).len() > 0),
        parent_of(path, 0x2f) matches Some(parent) ==> {
            &&& names_of(parent, 0x2f) == names_of(path, 0x2f).drop_last()
            &&& is_rooted(parent, 0x2f) == is_rooted(path, 0x2f)
        },
{
    if names_of(path, 0x2f).len() > 0 {
        let lead = lead_len(path, 0x2f);
        let r = body_start(path, 0x2f);
        law_only_windows_has_prefixes(path, 0x2f);
        assert(path.take(path.len() as int) =~= path);
        let end = lemma_counting_end_keeps_names(path, path.len() as int);
        if end <= lead {
            lemma_lead_alone_is_a_dot(path);
            assert(end == lead);
            assert(names_of(path, 0x2f).drop_last() =~= Seq::empty());
        } else {
            let start = lemma_names_before_last_piece(path, end);
            let before = end_before(lead, start);
            let kept = lemma_counting_end_keeps_names(path, before);
            let piece = path.subrange(start, end);
            assert(names_of(path.take(before), 0x2f).push(piece).drop_last() =~= names_of(
                path.take(before),
                0x2f,
            ));
            lemma_taken_names(path, kept);
        }
    }
}

/// The names in a path are not empty and hold no separator; in a verbatim path they may
/// hold a slash.
pub proof fn law_names_hold_no_separator(path: Seq<u8>, separator: u8, k: int)
    requires
        0 <= k < names_of(path, separator).len(),
    ensures
        names_of(path, separator)[k].len() > 0,
        forall|i: int|
            0 <= i < names_of(path, separator)[k].len() ==> (
            #[trigger] names_of(path, separator)[k][i]) != separator && (is_verbatim(path, separator)
                || names_of(path, separator)[k][i] != 0x2f),
{
    let rest = body(path, separator);
    let verbatim = is_verbatim(path, separator);
    let all = pieces(rest, separator, verbatim);
    let dots = dots_of(path, separator);
    let starts = law_pieces_lie_between_separators(rest, separator, verbatim);
    let at = law_names_are_the_pieces_that_count(all, dots);
    let keep = |i: int|
        all[i].len() > 0 && (all[i] != seq![0x2eu8] || dots is Always || (dots is Leading && i
            == 0));
    assert(is_selection(all.len() as int, keep, at));
    assert(keep(at[k]));
    let name = names_of(path, separator)[k];
    assert(name == all[at[k]]);
    assert forall|i: int| 0 <= i < name.len() implies (#[trigger] name[i]) != separator && (verbatim
        || name[i] != 0x2f) by {
        assert(name[i] == rest[starts[at[k]] + i]);
    }
}

/// With slashes alone, a path that has a file name is that name in its parent.
pub proof fn law_a_path_is_its_name_in_its_parent(path: Seq<u8>)
    requires
        file_name_of(path, 0x2f) is Some,
    ensures
        parent_of(path, 0x2f) is Some,
        is_same_path(
            joined(parent_of(path, 0x2f)->0, file_name_of(path, 0x2f)->0, 0x2f),
            path,
            0x2f,
        ),
{
    let name = file_name_of(path, 0x2f)->0;
    law_the_parent_has_all_names_but_the_last(path);
    let parent = parent_of(path, 0x2f)->0;
    let names = names_of(path, 0x2f);
    law_names_hold_no_separator(path, 0x2f, names.len() - 1);
    law_joining_adds_a_name(parent, name);
    assert(names.drop_last().push(names.last()) =~= names);
    law_only_windows_has_prefixes(path, 0x2f);
    law_only_windows_has_prefixes(joined(parent, name, 0x2f), 0x2f);
}

/// Being the same path is an equivalence.
pub proof fn law_same_paths_are_equivalent(
    first: Seq<u8>,
    second: Seq<u8>,
    third: Seq<u8>,
    separator: u8,
)
    ensures
        is_same_path(first, first, separator),
        is_same_path(first, second, separator) == is_same_path(second, first, separator),
        is_same_path(first, second, separator) && is_same_path(second, third, separator)
            ==> is_same_path(first, third, separator),
        separator != 0x5c ==> is_same_path(first, second, separator) == (is_rooted(first, separator)
            == is_rooted(second, separator) && names_of(first, separator) == names_of(
            second,
            separator,
        )),
{
}

/// A name without separators and prefix is the one name of the path that it is.
proof fn lemma_one_name(name: Seq<u8>)
    requires
        prefix_of(name, 0x5c) is None,
        name.len() > 0,
        name != seq![0x2eu8],
        forall|i: int| 0 <= i < name.len() ==> (#[trigger] name[i]) != 0x5c && name[i] != 0x2f,
    ensures
        !is_rooted(name, 0x5c),
        names_of(name, 0x5c) == seq![name],
{
    assert(name[0] != 0x5c && name[0] != 0x2f);
    assert(body(name, 0x5c) =~= name);
    let all = pieces(name, 0x5c, false);
    let starts = law_pieces_lie_between_separators(name, 0x5c, false);
    assert(all[0].len() >= 0);
    if starts.len() > 1 {
        assert(starts[0] < starts[1] <= name.len());
        assert(name[starts[1] - 1] == 0x5c || name[starts[1] - 1] == 0x2f);
    }
    assert(name.subrange(0, name.len() as int) =~= name);
    let none = Seq::<Seq<u8>>::empty();
    assert(all =~= none.push(name));
    lemma_names_with_one_more(none, name, dots_of(name, 0x5c));
    assert(none.push(name) =~= seq![name]);
}

/// In a verbatim directory, a name is put after the prefix and the names of the directory,
/// with a backslash before each.
pub proof fn law_verbatim_paths_are_put_together(base: Seq<u8>, name: Seq<u8>)
    requires
        prefix_of(base, 0x5c) is Some,
        prefix_of(base, 0x5c)->0.kind is Verbatim || prefix_of(base, 0x5c)->0.kind is VerbatimUnc
            || prefix_of(base, 0x5c)->0.kind is VerbatimDisk,
        prefix_of(name, 0x5c) is None,
        name.len() > 0,
        name != seq![0x2eu8],
        name != seq![0x2eu8, 0x2e],
        forall|i: int| 0 <= i < name.len() ==> (#[trigger] name[i]) != 0x5c && name[i] != 0x2f,
    ensures
        joined(base, name, 0x5c) == base.take(prefix_of(base, 0x5c)->0.len) + separated(
            names_of(base, 0x5c),
            0x5c,
        ) + seq![0x5cu8] + name,
{
    lemma_one_name(name);
    let names = names_of(base, 0x5c);
    let start = Way { rooted: is_rooted(base, 0x5c), names };
    let one = seq![name];
    assert(one.drop_last() =~= Seq::empty());
    assert(one.last() == name);
    assert(way_along(start, one.drop_last()) == start);
    assert(way_along(start, one) == way_on(start, name));
    assert(names.push(name).drop_last() =~= names);
    let prefix = base.take(prefix_of(base, 0x5c)->0.len);
    assert(prefix + (separated(names, 0x5c).push(0x5c) + name) =~= prefix + separated(names, 0x5c)
        + seq![0x5cu8] + name);
}

/// Names are written one after another, each after a separator.
pub proof fn law_names_are_written_after_separators(
    names: Seq<Seq<u8>>,
    name: Seq<u8>,
    separator: u8,
)
    ensures
        separated(Seq::empty(), separator).len() == 0,
        separated(names.push(name), separator) == separated(names, separator) + seq![separator]
            + name,
{
    assert(names.push(name).drop_last() =~= names);
    assert(separated(names, separator).push(separator) + name =~= separated(names, separator)
        + seq![separator] + name);
}

/// How a path is taken apart: after the prefix a separator begins at the root, as do shares
/// and devices without one. All dots count after a verbatim prefix, none after another or
/// after the root, and otherwise the one at the beginning. Two paths are the same if these
/// parts are.
pub proof fn law_paths_are_the_same_by_their_parts(
    left: Seq<u8>,
    right: Seq<u8>,
    separator: u8,
)
    ensures
        ({
            let prefix = prefix_of(left, separator);
            let len = if prefix is Some {
                prefix->0.len
            } else {
                0
            };
            let separated = len < left.len() && (left[len] == separator || left[len] == 0x2f);
            let verbatim = prefix is Some && (prefix->0.kind is Verbatim
                || prefix->0.kind is VerbatimUnc || prefix->0.kind is VerbatimDisk);
            let rooted = separated || (prefix is Some && (prefix->0.kind is Unc
                || prefix->0.kind is DeviceNs));
            &&& is_rooted(left, separator) == rooted
            &&& names_of(left, separator) == names_among(
                pieces(
                    if separated {
                        left.skip(len + 1)
                    } else {
                        left.skip(len)
                    },
                    separator,
                    verbatim,
                ),
                if verbatim {
                    Dots::Always
                } else if prefix is Some || rooted {
                    Dots::Never
                } else {
                    Dots::Leading
                },
            )
        }),
        is_same_path(left, right, separator) <==> {
            &&& prefix_of(left, separator) is Some == prefix_of(right, separator) is Some
            &&& prefix_of(left, separator) is Some ==> prefix_of(left, separator)->0.kind
                == prefix_of(right, separator)->0.kind && prefix_of(left, separator)->0.names
                == prefix_of(right, separator)->0.names
            &&& is_rooted(left, separator) == is_rooted(right, separator)
            &&& names_of(left, separator) == names_of(right, separator)
        },
{
}

} // verus!
