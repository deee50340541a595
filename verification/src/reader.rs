//! Read commands, their results, and the permission codec.

use crate::disk::FileStat;
use crate::error::{
    ErrorView, IoErrorKind, IoFailure, PlatformError, TuxDriveError,
};
use crate::path::AbsPath;
use crate::watcher::{WatchEvent, WatchEventKind};
use vstd::prelude::*;

verus! {

/// What is to be read of a path.
#[derive(Debug, Clone, Copy, PartialEq, Eq, Structural)]
pub enum ReadCommandKind {
    /// The content.
    Data,
    /// The permission bits.
    Permission,
}

/// The order to read something of a path, on behalf of an event.
#[derive(Debug, PartialEq, Eq)]
pub struct ReadCommand {
    path: AbsPath,
    kind: ReadCommandKind,
    event_id: u32,
}

/// What a `ReadCommand` says.
pub struct CommandView {
    pub path: Seq<Seq<u8>>,
    pub kind: ReadCommandKind,
    pub event_id: u32,
}

impl View for ReadCommand {
    type V = CommandView;

    closed spec fn view(&self) -> CommandView {
        CommandView { path: self.path@, kind: self.kind, event_id: self.event_id }
    }
}

/// What the file system answered to a read command.
#[derive(Debug)]
pub enum ReadOutcome {
    /// The answer to reading the whole file: its bytes, or the failure.
    Data(Result<Vec<u8>, IoFailure>),
    /// The answer to asking for the status: the record, or the platform
    /// error.
    Stat(Result<FileStat, PlatformError>),
}

impl ReadOutcome {
    /// Whether this is an answer to a command of the kind `kind`.
    pub open spec fn spec_answers(&self, kind: ReadCommandKind) -> bool {
        match self {
            ReadOutcome::Data(_) => kind == ReadCommandKind::Data,
            ReadOutcome::Stat(_) => kind == ReadCommandKind::Permission,
        }
    }

    /// Whether this is an answer to a command of the kind `kind`.
    #[verifier::when_used_as_spec(spec_answers)]
    pub fn answers(&self, kind: ReadCommandKind) -> (yes: bool)
        ensures
            yes == self.spec_answers(kind),
    {
        match self {
            ReadOutcome::Data(_) => match kind {
                ReadCommandKind::Data => true,
                ReadCommandKind::Permission => false,
            },
            ReadOutcome::Stat(_) => match kind {
                ReadCommandKind::Data => false,
                ReadCommandKind::Permission => true,
            },
        }
    }
}

/// What was read.
#[derive(Debug, PartialEq, Eq)]
pub enum ReadDataContent {
    /// The content of the file.
    Data(Vec<u8>),
    /// The permission bits of the path, taken apart.
    Permission(FilePermission),
    /// The path is gone.
    Delete,
}

/// The result of a read command, with the identifier of the event that the
/// command was given for.
#[derive(Debug, PartialEq, Eq)]
pub struct ReadData {
    pub content: ReadDataContent,
    pub event_id: u32,
}

/// Whether a failure of this kind to read a file means that there is no
/// file to read any more: it is missing, may not be read, or is a
/// directory.
pub open spec fn spec_read_is_gone(kind: IoErrorKind) -> bool {
    kind == IoErrorKind::NotFound || kind == IoErrorKind::PermissionDenied || kind
        == IoErrorKind::IsADirectory
}

/// Whether a failure of this kind to read a file means that there is no
/// file to read any more.
#[verifier::when_used_as_spec(spec_read_is_gone)]
pub fn read_is_gone(kind: IoErrorKind) -> (gone: bool)
    ensures
        gone == spec_read_is_gone(kind),
{
    match kind {
        IoErrorKind::NotFound => true,
        IoErrorKind::PermissionDenied => true,
        IoErrorKind::IsADirectory => true,
        IoErrorKind::Other => false,
    }
}

/// Sorts the answer to reading a file: the bytes, nothing where the file is
/// gone, or the failure as an error.
pub fn read_deletable_file(answer: Result<Vec<u8>, IoFailure>) -> (r: Result<
    Option<Vec<u8>>,
    TuxDriveError,
>)
    ensures
        match answer {
            Ok(bytes) => r == Ok::<Option<Vec<u8>>, TuxDriveError>(Some(bytes)),
            Err(failure) => if read_is_gone(failure.kind) {
                r matches Ok(None)
            } else {
                r matches Err(e) && e@ == ErrorView::Io(failure@)
            },
        },
{
    match answer {
        Ok(bytes) => Ok(Some(bytes)),
        Err(failure) => {
            if read_is_gone(failure.kind) {
                Ok(None)
            } else {
                Err(TuxDriveError::Io(failure))
            }
        },
    }
}

/// Sorts the answer to asking for a status: the record, nothing where the
/// path is gone, or the platform error as an error.
pub fn stat_deletable_file(answer: Result<FileStat, PlatformError>) -> (r: Result<
    Option<FileStat>,
    TuxDriveError,
>)
    ensures
        match answer {
            Ok(stat) => r == Ok::<Option<FileStat>, TuxDriveError>(Some(stat)),
            Err(errno) => match errno.fault() {
                None => r matches Ok(None),
                Some(code) => r matches Err(e) && e@ == ErrorView::NixError(code),
            },
        },
{
    match answer {
        Ok(stat) => Ok(Some(stat)),
        Err(errno) => match errno.fault() {
            None => Ok(None),
            Some(code) => Err(TuxDriveError::NixError(code)),
        },
    }
}

/// The permission bits of a status record: the twelve low bits of its mode.
pub open spec fn spec_permission_bits(stat: FileStat) -> u16 {
    (stat.st_mode & 0o7777) as u16
}

/// The permission bits of a status record: the twelve low bits of its mode.
#[verifier::when_used_as_spec(spec_permission_bits)]
pub fn permission_bits(stat: FileStat) -> (bits: u16)
    ensures
        bits == spec_permission_bits(stat),
        bits & 0xF000 == 0,
{
    let mode: u32 = stat.st_mode;
    assert(((mode & 0o7777) as u16) & 0xF000 == 0) by (bit_vector);
    (mode & 0o7777) as u16
}

impl ReadCommand {
    pub fn new(path: &AbsPath, kind: ReadCommandKind, event_id: u32) -> (command: Self)
        ensures
            command@ == (CommandView { path: path@, kind, event_id }),
    {
        Self { path: path.clone(), kind, event_id }
    }

    /// The read command that follows from an event: the content is read
    /// after `Written`, the permission bits after `Chmod`, and nothing after
    /// `Create` and `Delete`.
    pub fn for_event(event: &WatchEvent) -> (command: Option<Self>)
        ensures
            match event.kind {
                WatchEventKind::Written => command matches Some(c) && c@ == (CommandView {
                    path: event.path@,
                    kind: ReadCommandKind::Data,
                    event_id: event.id,
                }),
                WatchEventKind::Chmod => command matches Some(c) && c@ == (CommandView {
                    path: event.path@,
                    kind: ReadCommandKind::Permission,
                    event_id: event.id,
                }),
                _ => command is None,
            },
    {
        match event.kind {
            WatchEventKind::Written => Some(
                Self::new(&event.path, ReadCommandKind::Data, event.id),
            ),
            WatchEventKind::Chmod => Some(
                Self::new(&event.path, ReadCommandKind::Permission, event.id),
            ),
            _ => None,
        }
    }

    /// The path to read.
    pub fn path(&self) -> (path: &AbsPath)
        ensures
            path@ == self@.path,
    {
        &self.path
    }

    /// What is to be read.
    pub fn kind(&self) -> (kind: ReadCommandKind)
        ensures
            kind == self@.kind,
    {
        self.kind
    }

    /// The identifier of the event that the command was given for.
    pub fn event_id(&self) -> (id: u32)
        ensures
            id == self@.event_id,
    {
        self.event_id
    }

    /// Turns the file system's answer to this command into its result.
    ///
    /// The content of a file is handed on as it was read, and the
    /// permission bits of a status are taken apart. A path that is gone gives
    /// `Delete`; any other failure is an error. The result carries the
    /// command's event identifier.
    pub fn process(&self, outcome: ReadOutcome) -> (r: Result<ReadData, TuxDriveError>)
        requires
            outcome.answers(self@.kind),
        ensures
            match outcome {
                ReadOutcome::Data(Ok(bytes)) => r matches Ok(data) && data.event_id
                    == self@.event_id && data.content == ReadDataContent::Data(bytes),
                ReadOutcome::Data(Err(failure)) => if read_is_gone(failure.kind) {
                    r matches Ok(data) && data.event_id == self@.event_id
                        && data.content is Delete
                } else {
                    r matches Err(e) && e@ == ErrorView::Io(failure@)
                },
                ReadOutcome::Stat(Ok(stat)) => r matches Ok(data) && data.event_id
                    == self@.event_id && data.content == ReadDataContent::Permission(
                    FilePermission::spec_from(permission_bits(stat)),
                ),
                ReadOutcome::Stat(Err(errno)) => match errno.fault() {
                    None => r matches Ok(data) && data.event_id == self@.event_id
                        && data.content is Delete,
                    Some(code) => r matches Err(e) && e@ == ErrorView::NixError(code),
                },
            },
    {
        let content = match outcome {
            ReadOutcome::Data(answer) => match read_deletable_file(answer) {
                Err(e) => {
                    return Err(e);
                },
                Ok(Some(data)) => ReadDataContent::Data(data),
                Ok(None) => ReadDataContent::Delete,
            },
            ReadOutcome::Stat(answer) => match stat_deletable_file(answer) {
                Err(e) => {
                    return Err(e);
                },
                Ok(Some(stat)) => ReadDataContent::Permission(
                    FilePermission::from(permission_bits(stat)),
                ),
                Ok(None) => ReadDataContent::Delete,
            },
        };
        Ok(ReadData { content, event_id: self.event_id })
    }
}

/// Read, write and execute rights of one class of users.
#[derive(Debug, Default, PartialEq, Eq, Structural, Clone, Copy)]
pub struct NormalPermission {
    pub read: bool,
    pub write: bool,
    pub execute: bool,
}

/// The set-user-id, set-group-id and sticky bits.
#[derive(Debug, Default, PartialEq, Eq, Structural, Clone, Copy)]
pub struct SpecialPermission {
    pub suid: bool,
    pub sgid: bool,
    pub sticky: bool,
}

/// A 12-bit permission word, taken apart.
#[derive(Debug, Default, PartialEq, Eq, Structural, Clone, Copy)]
pub struct FilePermission {
    pub user: NormalPermission,
    pub group: NormalPermission,
    pub other: NormalPermission,
    pub spec: SpecialPermission,
}

impl NormalPermission {
    /// The rights that the three low bits of `perm` stand for.
    pub open spec fn spec_from(perm: u8) -> Self {
        NormalPermission {
            read: (0o4u8 & perm) != 0,
            write: (0o2u8 & perm) != 0,
            execute: (0o1u8 & perm) != 0,
        }
    }

    /// The three bits that stand for these rights.
    pub open spec fn spec_bits(self) -> u8 {
        ((if self.read { 4int } else { 0int }) + (if self.write { 2int } else { 0int }) + (if self.execute {
            1int
        } else {
            0int
        })) as u8
    }

    /// Decodes one octal digit. Only the three low bits may be set.
    pub fn from(perm: u8) -> (decoded: Self)
        requires
            perm & 0xF8 == 0,
        ensures
            decoded == Self::spec_from(perm),
    {
        Self { read: (0o4 & perm) != 0, write: (0o2 & perm) != 0, execute: (0o1 & perm) != 0 }
    }

    /// Encodes the rights as one octal digit.
    pub fn bits(&self) -> (perm: u8)
        ensures
            perm == self.spec_bits(),
            perm <= 7,
    {
        let r: u8 = if self.read { 4 } else { 0 };
        let w: u8 = if self.write { 2 } else { 0 };
        let x: u8 = if self.execute { 1 } else { 0 };
        r + w + x
    }
}

impl SpecialPermission {
    /// The flags that the three low bits of `perm` stand for.
    pub open spec fn spec_from(perm: u8) -> Self {
        SpecialPermission {
            suid: (0o4u8 & perm) != 0,
            sgid: (0o2u8 & perm) != 0,
            sticky: (0o1u8 & perm) != 0,
        }
    }

    /// The three bits that stand for these flags.
    pub open spec fn spec_bits(self) -> u8 {
        ((if self.suid { 4int } else { 0int }) + (if self.sgid { 2int } else { 0int }) + (if self.sticky {
            1int
        } else {
            0int
        })) as u8
    }

    /// Decodes one octal digit. Only the three low bits may be set.
    pub fn from(perm: u8) -> (decoded: Self)
        requires
            perm & 0xF8 == 0,
        ensures
            decoded == Self::spec_from(perm),
    {
        Self { suid: (0o4 & perm) != 0, sgid: (0o2 & perm) != 0, sticky: (0o1 & perm) != 0 }
    }

    /// Encodes the flags as one octal digit.
    pub fn bits(&self) -> (perm: u8)
        ensures
            perm == self.spec_bits(),
            perm <= 7,
    {
        let u: u8 = if self.suid { 4 } else { 0 };
        let g: u8 = if self.sgid { 2 } else { 0 };
        let t: u8 = if self.sticky { 1 } else { 0 };
        u + g + t
    }
}

impl FilePermission {
    /// The decomposition of a 12-bit permission word: the highest octal digit
    /// holds the special flags, the next three the rights of user, group and
    /// others.
    pub open spec fn spec_from(perm: u16) -> Self {
        FilePermission {
            user: NormalPermission::spec_from(((perm & 0o700) >> 6) as u8),
            group: NormalPermission::spec_from(((perm & 0o70) >> 3) as u8),
            other: NormalPermission::spec_from((perm & 0o7) as u8),
            spec: SpecialPermission::spec_from(((perm & 0o7000) >> 9) as u8),
        }
    }

    /// The 12-bit word that stands for this decomposition.
    pub open spec fn spec_bits(self) -> u16 {
        (self.spec.spec_bits() * 512 + self.user.spec_bits() * 64 + self.group.spec_bits() * 8
            + self.other.spec_bits()) as u16
    }

    /// Takes a permission word apart. Its four high bits must be zero.
    pub fn from(perm: u16) -> (decoded: Self)
        requires
            perm & 0xF000 == 0,
        ensures
            decoded == Self::spec_from(perm),
    {
        let spec_bits: u8 = ((perm & 0o7000) >> 9) as u8;
        let user_bits: u8 = ((perm & 0o700) >> 6) as u8;
        let group_bits: u8 = ((perm & 0o70) >> 3) as u8;
        let other_bits: u8 = (perm & 0o7) as u8;
        assert(((perm & 0o7000) >> 9) as u8 & 0xF8 == 0) by (bit_vector);
        assert(((perm & 0o700) >> 6) as u8 & 0xF8 == 0) by (bit_vector);
        assert(((perm & 0o70) >> 3) as u8 & 0xF8 == 0) by (bit_vector);
        assert((perm & 0o7) as u8 & 0xF8 == 0) by (bit_vector);
        Self {
            user: NormalPermission::from(user_bits),
            group: NormalPermission::from(group_bits),
            other: NormalPermission::from(other_bits),
            spec: SpecialPermission::from(spec_bits),
        }
    }

    /// Puts a permission word together again.
    pub fn bits(&self) -> (perm: u16)
        ensures
            perm == self.spec_bits(),
            perm <= 0o7777,
    {
        let s: u16 = self.spec.bits() as u16;
        let u: u16 = self.user.bits() as u16;
        let g: u16 = self.group.bits() as u16;
        let o: u16 = self.other.bits() as u16;
        s * 512 + u * 64 + g * 8 + o
    }

    /// Decoding a 12-bit word and encoding the result gives the word back.
    pub proof fn lemma_round_trip(perm: u16)
        requires
            perm <= 0o7777,
        ensures
            perm & 0xF000 == 0,
            Self::spec_from(perm).spec_bits() == perm,
    {
        assert(perm & 0xF000 == 0) by (bit_vector)
            requires
                perm <= 0o7777,
        ;
        let s: u8 = ((perm & 0o7000) >> 9) as u8;
        let u: u8 = ((perm & 0o700) >> 6) as u8;
        let g: u8 = ((perm & 0o70) >> 3) as u8;
        let o: u8 = (perm & 0o7) as u8;
        assert(s <= 7 && u <= 7 && g <= 7 && o <= 7 && perm == s * 512 + u * 64 + g * 8 + o)
            by (bit_vector)
            requires
                perm <= 0o7777,
                s == ((perm & 0o7000) >> 9) as u8,
                u == ((perm & 0o700) >> 6) as u8,
                g == ((perm & 0o70) >> 3) as u8,
                o == (perm & 0o7) as u8,
        ;
        Self::lemma_digit(s);
        Self::lemma_digit(u);
        Self::lemma_digit(g);
        Self::lemma_digit(o);
    }

    /// An octal digit is the sum of its three bits.
    proof fn lemma_digit(d: u8)
        requires
            d <= 7,
        ensures
            NormalPermission::spec_from(d).spec_bits() == d,
            SpecialPermission::spec_from(d).spec_bits() == d,
    {
        assert(d <= 7 ==> (if 4u8 & d != 0 {
            4u8
        } else {
            0u8
        }) + (if 2u8 & d != 0 {
            2u8
        } else {
            0u8
        }) + (if 1u8 & d != 0 {
            1u8
        } else {
            0u8
        }) == d) by (bit_vector);
    }
}

} // verus!
