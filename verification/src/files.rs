//! Deciding, from what the file system says, whether an opened file may be used.
//!
//! A path may change between looking at it and opening it, so the decisions rest
//! on what was seen before and after.

use vstd::prelude::*;

verus! {

/// What a path or an open file is. A symbolic link counts as a link, not as what
/// it leads to.
#[derive(Clone, Copy, Debug, PartialEq, Eq, Structural)]
pub enum FileKind {
    File,
    Directory,
    Symlink,
    Other,
}

/// Whether a path is a symbolic link, given its kind where it could be told.
pub fn is_symlink(path: Option<FileKind>) -> (r: bool)
    ensures
        r == (path == Some(FileKind::Symlink)),
{
    matches!(path, Some(FileKind::Symlink))
}

/// Whether a path is a directory, given its kind where it could be told.
pub fn is_directory(path: Option<FileKind>) -> (r: bool)
    ensures
        r == (path == Some(FileKind::Directory)),
{
    matches!(path, Some(FileKind::Directory))
}

/// Whether a path is a regular file in a directory, neither reached through a link.
/// `parent` is the kind of the parent path, where there is one.
pub fn is_regular_non_symlink(path: Option<FileKind>, parent: Option<FileKind>) -> (r: bool)
    ensures
        r == (path == Some(FileKind::File) && parent == Some(FileKind::Directory)),
{
    matches!(path, Some(FileKind::File)) && matches!(parent, Some(FileKind::Directory))
}

/// Something is at the path, and it is not a symbolic link.
pub open spec fn is_present_non_symlink(path: Option<FileKind>) -> bool {
    path is Some && path != Some(FileKind::Symlink)
}

/// Whether something is at the path that is not a symbolic link.
pub fn present_non_symlink(path: Option<FileKind>) -> (r: bool)
    ensures
        r == is_present_non_symlink(path),
        r == (path is Some && path != Some(FileKind::Symlink)),
{
    match path {
        None => false,
        Some(FileKind::Symlink) => false,
        Some(_) => true,
    }
}

/// Whether a path still leads to an open file without a link. `before` and `after`
/// are the kinds of the path before and after `same_file` was found out: whether
/// the file at the path is the open one, where that could be told.
pub fn file_matches_path(
    before: Option<FileKind>,
    same_file: Option<bool>,
    after: Option<FileKind>,
) -> (r: bool)
    ensures
        r == (is_present_non_symlink(before) && same_file == Some(true) && is_present_non_symlink(
            after,
        )),
        r == (before is Some && before != Some(FileKind::Symlink) && same_file == Some(true)
            && after is Some && after != Some(FileKind::Symlink)),
{
    present_non_symlink(before) && matches!(same_file, Some(true)) && present_non_symlink(after)
}

/// Whether a database that was opened by path is the file that was found: the path is
/// still a regular file in a directory, and leads to that file.
pub fn still_leads_to_file(
    path: Option<FileKind>,
    parent: Option<FileKind>,
    matches_path: bool,
) -> (r: bool)
    ensures
        r == (path == Some(FileKind::File) && parent == Some(FileKind::Directory) && matches_path),
{
    is_regular_non_symlink(path, parent) && matches_path
}

/// Whether to try to open a state database at all.
pub fn may_open_state_db(follow_final_component: bool, before: Option<FileKind>) -> (r: bool)
    ensures
        r == (follow_final_component || before != Some(FileKind::Symlink)),
{
    follow_final_component || !is_symlink(before)
}

/// The opened state database, where it may be used. Where the final component must
/// not be followed, the path must not have been a link before, must be a regular
/// file after, and must still lead to the open file.
pub fn open_state_db_file<F>(
    follow_final_component: bool,
    before: Option<FileKind>,
    opened: Option<F>,
    after: Option<FileKind>,
    matches_path: bool,
) -> (r: Option<F>)
    ensures
        r == if follow_final_component || (before != Some(FileKind::Symlink) && after == Some(
            FileKind::File,
        ) && matches_path) {
            opened
        } else {
            None
        },
{
    if !may_open_state_db(follow_final_component, before) {
        return None;
    }
    if !follow_final_component && !(matches!(after, Some(FileKind::File)) && matches_path) {
        return None;
    }
    opened
}

/// The profiles directory, opened without following a link: `kind` is the kind of
/// the open file.
pub fn open_profiles_directory<F>(opened: Option<F>, kind: Option<FileKind>) -> (r: Option<F>)
    ensures
        r == if kind == Some(FileKind::Directory) {
            opened
        } else {
            None
        },
{
    if is_directory(kind) {
        opened
    } else {
        None
    }
}

/// The profiles directory, opened by a path that may have been a link: the path
/// must be a directory before and after, and must lead to the open directory.
pub fn open_profiles_directory_by_path<F>(
    before: Option<FileKind>,
    opened: Option<F>,
    after: Option<FileKind>,
    matches_path: bool,
) -> (r: Option<F>)
    ensures
        r == if before == Some(FileKind::Directory) && after == Some(FileKind::Directory)
            && matches_path {
            opened
        } else {
            None
        },
{
    if is_directory(before) && is_directory(after) && matches_path {
        opened
    } else {
        None
    }
}

/// The state database of a profile, where the profile's directory and the database
/// were both opened without following a link: the kinds are those of the open
/// files.
pub fn open_profile_state_db<F>(
    profile_directory: Option<FileKind>,
    opened: Option<F>,
    kind: Option<FileKind>,
) -> (r: Option<F>)
    ensures
        r == if profile_directory == Some(FileKind::Directory) && kind == Some(FileKind::File) {
            opened
        } else {
            None
        },
{
    if is_directory(profile_directory) && matches!(kind, Some(FileKind::File)) {
        opened
    } else {
        None
    }
}

/// What was seen of a profile's directory at one moment: the kind of its path, and
/// whether the path led to the directory that was opened.
#[derive(Clone, Copy, Debug, PartialEq, Eq, Structural)]
pub struct DirectorySighting {
    pub path: Option<FileKind>,
    pub matches_path: bool,
}

/// Whether a profile's directory, opened by path, may be looked into.
pub fn may_enter_profile_directory(
    before: DirectorySighting,
    profile_directory: Option<FileKind>,
) -> (r: bool)
    ensures
        r == (before.path == Some(FileKind::Directory) && profile_directory == Some(
            FileKind::Directory,
        ) && before.matches_path),
{
    is_directory(before.path) && is_directory(profile_directory) && before.matches_path
}

/// The state database of a profile whose directory was opened by path: the path
/// must be a directory before and after, must lead to the open one both times, and
/// the open one must be a directory.
pub fn open_profile_state_db_by_path<F>(
    before: DirectorySighting,
    profile_directory: Option<FileKind>,
    opened: Option<F>,
    after: DirectorySighting,
) -> (r: Option<F>)
    ensures
        r == if before.path == Some(FileKind::Directory) && profile_directory == Some(
            FileKind::Directory,
        ) && before.matches_path && after.path == Some(FileKind::Directory) && after.matches_path {
            opened
        } else {
            None
        },
{
    if may_enter_profile_directory(before, profile_directory) && is_directory(after.path)
        && after.matches_path {
        opened
    } else {
        None
    }
}

} // verus!
