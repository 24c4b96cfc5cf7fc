//! Telling database files apart, whatever path they were reached by.

use crate::files::FileKind;
use crate::text::{append_decimal, decimal, law_decimal_tells_numbers_apart, lemma_decimal_digits, lemma_split_at_first};
use vstd::prelude::*;
use vstd::string::*;

verus! {

/// What Windows says of an open file.
#[derive(Clone, Copy, Debug, PartialEq, Eq, Structural)]
pub struct WindowsFileInformation {
    pub volume_serial_number: u32,
    pub file_index_high: u32,
    pub file_index_low: u32,
}

/// Volume and file index, the index put together from its halves.
pub open spec fn windows_numbers(information: WindowsFileInformation) -> (u64, u64) {
    (
        information.volume_serial_number as u64,
        (information.file_index_high * 0x1_0000_0000 + information.file_index_low) as u64,
    )
}

/// The numbers by which Windows identifies an open file, where it gives any.
pub fn windows_file_identity(information: Option<WindowsFileInformation>) -> (r: Option<(u64, u64)>)
    ensures
        r == match information {
            None => None,
            Some(information) => Some(windows_numbers(information)),
        },
{
    match information {
        None => None,
        Some(information) => {
            let file_index: u64 = information.file_index_high as u64 * 0x1_0000_0000
                + information.file_index_low as u64;
            Some((information.volume_serial_number as u64, file_index))
        },
    }
}

/// Windows identifies two open files by the same numbers only if it says the same
/// of both.
pub proof fn law_windows_numbers_tell_files_apart(
    left: WindowsFileInformation,
    right: WindowsFileInformation,
)
    requires
        windows_numbers(left) == windows_numbers(right),
    ensures
        left == right,
{
}

/// The file that holds a database: device and inode, or on Windows volume and file
/// index. `Unsupported` stands for platforms that tell files apart by neither.
#[derive(Clone, Copy, Debug, PartialEq, Eq, Hash, Structural)]
pub enum DatabaseIdentity {
    File { device: u64, inode: u64 },
    Unsupported,
}

/// The text that names the identity.
pub open spec fn identity_text(identity: DatabaseIdentity) -> Seq<char> {
    match identity {
        DatabaseIdentity::File { device, inode } => decimal(device as nat).push(':') + decimal(
            inode as nat,
        ),
        DatabaseIdentity::Unsupported => "unsupported"@,
    }
}

/// The key of a session: the identity of its database and its own id, with a null
/// character between them.
pub open spec fn session_key_text(identity: DatabaseIdentity, session_id: Seq<char>) -> Seq<char> {
    identity_text(identity).push('\0') + session_id
}

impl DatabaseIdentity {
    /// The identity of an open file of the given kind that the platform identifies
    /// by the given numbers. Only regular files have one.
    pub fn from_open_file(kind: Option<FileKind>, numbers: Option<(u64, u64)>) -> (r: Option<
        DatabaseIdentity,
    >)
        ensures
            r == match (kind, numbers) {
                (Some(FileKind::File), Some((device, inode))) => Some(
                    DatabaseIdentity::File { device, inode },
                ),
                _ => None,
            },
    {
        match kind {
            Some(FileKind::File) => match numbers {
                Some((device, inode)) => Some(DatabaseIdentity::File { device, inode }),
                None => None,
            },
            _ => None,
        }
    }

    /// The identity of a file that is open on Windows.
    pub fn from_windows_handle(information: Option<WindowsFileInformation>) -> (r: Option<
        DatabaseIdentity,
    >)
        ensures
            r == match information {
                None => None,
                Some(information) => Some(
                    DatabaseIdentity::File {
                        device: windows_numbers(information).0,
                        inode: windows_numbers(information).1,
                    },
                ),
            },
    {
        match windows_file_identity(information) {
            None => None,
            Some((volume, index)) => Some(DatabaseIdentity::File { device: volume, inode: index }),
        }
    }

    /// The key of the session with the given id in this database.
    pub fn session_key(&self, session_id: &str) -> (key: String)
        ensures
            key@ == session_key_text(*self, session_id@),
    {
        proof {
            reveal_strlit(":");
            reveal_strlit("\0");
        }
        let mut key = String::new();
        match *self {
            DatabaseIdentity::File { device, inode } => {
                append_decimal(&mut key, device);
                key.append(":");
                append_decimal(&mut key, inode);
            },
            DatabaseIdentity::Unsupported => {
                key.append("unsupported");
            },
        }
        assert(key@ =~= identity_text(*self));
        key.append("\0");
        key.append(session_id);
        assert(key@ =~= session_key_text(*self, session_id@));
        key
    }
}

proof fn lemma_decimal_lacks(n: nat, c: char)
    requires
        (c as int) < ('0' as int) || (c as int) > ('9' as int),
    ensures
        !decimal(n).contains(c),
{
    lemma_decimal_digits(n);
    if decimal(n).contains(c) {
        let i = choose|i: int| 0 <= i < decimal(n).len() && decimal(n)[i] == c;
        assert('0' as int <= decimal(n)[i] as int <= '9' as int);
    }
}

proof fn lemma_identity_text_has_no_null(identity: DatabaseIdentity)
    ensures
        !identity_text(identity).contains('\0'),
{
    match identity {
        DatabaseIdentity::File { device, inode } => {
            lemma_decimal_lacks(device as nat, '\0');
            lemma_decimal_lacks(inode as nat, '\0');
            let text = identity_text(identity);
            let n = decimal(device as nat).len() as int;
            assert forall|i: int| 0 <= i < text.len() implies text[i] != '\0' by {
                if i < n {
                    assert(text[i] == decimal(device as nat)[i]);
                } else if i > n {
                    assert(text[i] == decimal(inode as nat)[i - n - 1]);
                }
            }
        },
        DatabaseIdentity::Unsupported => {
            reveal_strlit("unsupported");
        },
    }
}

proof fn lemma_identity_text_tells_apart(left: DatabaseIdentity, right: DatabaseIdentity)
    requires
        identity_text(left) == identity_text(right),
    ensures
        left == right,
{
    reveal_strlit("unsupported");
    match (left, right) {
        (
            DatabaseIdentity::File { device, inode },
            DatabaseIdentity::File { device: other_device, inode: other_inode },
        ) => {
            lemma_decimal_lacks(device as nat, ':');
            lemma_decimal_lacks(other_device as nat, ':');
            lemma_split_at_first(
                decimal(device as nat),
                decimal(inode as nat),
                decimal(other_device as nat),
                decimal(other_inode as nat),
                ':',
            );
            law_decimal_tells_numbers_apart(device as nat, other_device as nat);
            law_decimal_tells_numbers_apart(inode as nat, other_inode as nat);
        },
        (DatabaseIdentity::File { device, inode }, DatabaseIdentity::Unsupported) => {
            lemma_decimal_digits(device as nat);
            assert(identity_text(left)[0] == decimal(device as nat)[0]);
        },
        (DatabaseIdentity::Unsupported, DatabaseIdentity::File { device, inode }) => {
            lemma_decimal_digits(device as nat);
            assert(identity_text(right)[0] == decimal(device as nat)[0]);
        },
        _ => {},
    }
}

/// Session keys keep sessions apart: two sessions have the same key only if they
/// are in the same database and have the same id.
pub proof fn law_session_keys_keep_sessions_apart(
    left: DatabaseIdentity,
    left_id: Seq<char>,
    right: DatabaseIdentity,
    right_id: Seq<char>,
)
    requires
        session_key_text(left, left_id) == session_key_text(right, right_id),
    ensures
        left == right,
        left_id == right_id,
{
    lemma_identity_text_has_no_null(left);
    lemma_identity_text_has_no_null(right);
    lemma_split_at_first(
        identity_text(left),
        left_id,
        identity_text(right),
        right_id,
        '\0',
    );
    lemma_identity_text_tells_apart(left, right);
}

/// The key of a session is the device, a colon and the inode of its database, a null
/// character and its id.
pub proof fn law_session_keys_name_file_and_session(
    device: u64,
    inode: u64,
    session_id: Seq<char>,
)
    ensures
        session_key_text(DatabaseIdentity::File { device, inode }, session_id) == decimal(
            device as nat,
        ) + seq![':'] + decimal(inode as nat) + seq!['\0'] + session_id,
        session_key_text(DatabaseIdentity::Unsupported, session_id) == "unsupported"@ + seq!['\0']
            + session_id,
{
    assert(session_key_text(DatabaseIdentity::File { device, inode }, session_id) =~= decimal(
        device as nat,
    ) + seq![':'] + decimal(inode as nat) + seq!['\0'] + session_id);
    assert(session_key_text(DatabaseIdentity::Unsupported, session_id) =~= "unsupported"@ + seq![
        '\0',
    ] + session_id);
}

/// Windows identifies a file by its volume and by its index, whose high half counts in
/// units of two to the power of 32.
pub proof fn law_windows_numbers_are_volume_and_index(information: WindowsFileInformation)
    ensures
        windows_numbers(information).0 == information.volume_serial_number,
        windows_numbers(information).1 == information.file_index_high * 0x1_0000_0000
            + information.file_index_low,
{
}

} // verus!
