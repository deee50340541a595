use tuxdrive::disk::FileStat;
use tuxdrive::error::{IoErrorKind, IoFailure, PlatformError, TuxDriveError};
use tuxdrive::path::AbsPath;
use tuxdrive::reader::{
    permission_bits, read_deletable_file, read_is_gone, stat_deletable_file, FilePermission,
    NormalPermission, ReadCommand, ReadCommandKind, ReadData, ReadDataContent, ReadOutcome,
    SpecialPermission,
};
use tuxdrive::watcher::{WatchEvent, WatchEventKind};

fn p(text: &str) -> AbsPath {
    AbsPath::from_bytes(text.as_bytes()).unwrap()
}

fn failure(kind: IoErrorKind) -> IoFailure {
    IoFailure { kind, message: String::from("failed") }
}

fn stat(mode: u32) -> FileStat {
    FileStat { st_mode: mode, st_mtime: 10, st_ctime: 20 }
}

#[test]
fn permission_of_a_suid_executable_is_read() {
    let command = ReadCommand::new(&p("/tmp/w/a.txt"), ReadCommandKind::Permission, 17);
    let data = command.process(ReadOutcome::Stat(Ok(stat(0o104755)))).unwrap();
    assert_eq!(
        data,
        ReadData {
            content: ReadDataContent::Permission(FilePermission {
                user: NormalPermission { read: true, write: true, execute: true },
                group: NormalPermission { read: true, write: false, execute: true },
                other: NormalPermission { read: true, write: false, execute: true },
                spec: SpecialPermission { suid: true, sgid: false, sticky: false },
            }),
            event_id: 17,
        }
    );
}

#[test]
fn content_is_handed_on_with_the_event_id() {
    let command = ReadCommand::new(&p("/tmp/w/a.txt"), ReadCommandKind::Data, 3);
    assert_eq!(command.path(), &p("/tmp/w/a.txt"));
    assert_eq!(command.kind(), ReadCommandKind::Data);
    assert_eq!(command.event_id(), 3);
    let data = command.process(ReadOutcome::Data(Ok(b"hi\n".to_vec())));
    assert_eq!(data, Ok(ReadData { content: ReadDataContent::Data(b"hi\n".to_vec()), event_id: 3 }));
    let empty = command.process(ReadOutcome::Data(Ok(Vec::new())));
    assert_eq!(empty, Ok(ReadData { content: ReadDataContent::Data(Vec::new()), event_id: 3 }));
}

#[test]
fn path_that_is_gone_reads_as_delete() {
    let data = ReadCommand::new(&p("/a"), ReadCommandKind::Data, 4);
    for kind in [IoErrorKind::NotFound, IoErrorKind::PermissionDenied, IoErrorKind::IsADirectory] {
        assert_eq!(
            data.process(ReadOutcome::Data(Err(failure(kind)))),
            Ok(ReadData { content: ReadDataContent::Delete, event_id: 4 })
        );
    }
    let permission = ReadCommand::new(&p("/a"), ReadCommandKind::Permission, 5);
    for errno in [PlatformError::NotFound, PlatformError::PermissionDenied] {
        assert_eq!(
            permission.process(ReadOutcome::Stat(Err(errno))),
            Ok(ReadData { content: ReadDataContent::Delete, event_id: 5 })
        );
    }
}

#[test]
fn other_failures_are_errors() {
    let data = ReadCommand::new(&p("/a"), ReadCommandKind::Data, 4);
    assert_eq!(
        data.process(ReadOutcome::Data(Err(failure(IoErrorKind::Other)))),
        Err(TuxDriveError::Io(failure(IoErrorKind::Other)))
    );
    let permission = ReadCommand::new(&p("/a"), ReadCommandKind::Permission, 5);
    assert_eq!(
        permission.process(ReadOutcome::Stat(Err(PlatformError::Other(5)))),
        Err(TuxDriveError::NixError(5))
    );
    assert_eq!(
        permission.process(ReadOutcome::Stat(Err(PlatformError::Other(1)))),
        Err(TuxDriveError::NixError(1))
    );
}

#[test]
fn answers_are_sorted() {
    assert_eq!(read_deletable_file(Ok(vec![1, 2, 3])), Ok(Some(vec![1, 2, 3])));
    assert_eq!(read_deletable_file(Err(failure(IoErrorKind::NotFound))), Ok(None));
    assert_eq!(
        read_deletable_file(Err(failure(IoErrorKind::Other))),
        Err(TuxDriveError::Io(failure(IoErrorKind::Other)))
    );
    assert_eq!(stat_deletable_file(Ok(stat(0o100600))), Ok(Some(stat(0o100600))));
    assert_eq!(stat_deletable_file(Err(PlatformError::NotFound)), Ok(None));
    assert_eq!(stat_deletable_file(Err(PlatformError::PermissionDenied)), Ok(None));
    assert_eq!(stat_deletable_file(Err(PlatformError::Other(21))), Err(TuxDriveError::NixError(21)));
    assert!(read_is_gone(IoErrorKind::IsADirectory));
    assert!(!read_is_gone(IoErrorKind::Other));
    assert!(IoErrorKind::NotFound.is_gone());
    assert!(IoErrorKind::PermissionDenied.is_gone());
    assert!(!IoErrorKind::IsADirectory.is_gone());
    assert!(!IoErrorKind::Other.is_gone());
    assert!(PlatformError::NotFound.is_gone() && PlatformError::PermissionDenied.is_gone());
    assert!(!PlatformError::Other(0).is_gone() && !PlatformError::Other(1).is_gone());
    assert_eq!(PlatformError::Other(7).fault(), Some(7));
    assert_eq!(PlatformError::NotFound.fault(), None);
}

#[test]
fn permission_bits_are_the_low_twelve() {
    assert_eq!(permission_bits(stat(0o100644)), 0o644);
    assert_eq!(permission_bits(stat(0o040755)), 0o755);
    assert_eq!(permission_bits(stat(0o107777)), 0o7777);
    assert_eq!(permission_bits(stat(0xFFFF_F000)), 0);
    assert_eq!(permission_bits(stat(0xFFFF_FFFF)), 0o7777);
}

#[test]
fn outcome_knows_what_it_answers() {
    assert!(ReadOutcome::Data(Ok(vec![])).answers(ReadCommandKind::Data));
    assert!(!ReadOutcome::Data(Ok(vec![])).answers(ReadCommandKind::Permission));
    assert!(ReadOutcome::Stat(Err(PlatformError::NotFound)).answers(ReadCommandKind::Permission));
    assert!(!ReadOutcome::Stat(Err(PlatformError::NotFound)).answers(ReadCommandKind::Data));
}

#[test]
fn events_are_turned_into_commands() {
    let event = |kind| WatchEvent { path: p("/tmp/w/a"), kind, id: 9 };
    assert_eq!(
        ReadCommand::for_event(&event(WatchEventKind::Written)),
        Some(ReadCommand::new(&p("/tmp/w/a"), ReadCommandKind::Data, 9))
    );
    assert_eq!(
        ReadCommand::for_event(&event(WatchEventKind::Chmod)),
        Some(ReadCommand::new(&p("/tmp/w/a"), ReadCommandKind::Permission, 9))
    );
    assert_eq!(ReadCommand::for_event(&event(WatchEventKind::Create)), None);
    assert_eq!(ReadCommand::for_event(&event(WatchEventKind::Delete)), None);
}
