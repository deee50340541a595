use tuxdrive::disk::{DiskEntry, DiskNode, FileKind, FileStat};
use tuxdrive::error::{IoErrorKind, IoFailure, PlatformError, TuxDriveError};
use tuxdrive::path::AbsPath;
use tuxdrive::watcher::{ModTimeInfo, Snapshot, WatchEvent, WatchEventKind, Watcher};

fn p(text: &str) -> AbsPath {
    AbsPath::from_components(
        text.split('/').filter(|c| !c.is_empty()).map(|c| c.as_bytes().to_vec()).collect(),
    )
}

fn failure(kind: IoErrorKind) -> IoFailure {
    IoFailure { kind, message: String::from("failed") }
}

fn file(mtime: i64, ctime: i64) -> DiskNode {
    DiskNode {
        kind: Ok(FileKind::Regular),
        stat: Ok(FileStat { st_mode: 0o100644, st_mtime: mtime, st_ctime: ctime }),
        listing: Err(failure(IoErrorKind::Other)),
    }
}

fn other(mtime: i64, ctime: i64) -> DiskNode {
    DiskNode {
        kind: Ok(FileKind::Other),
        stat: Ok(FileStat { st_mode: 0o120777, st_mtime: mtime, st_ctime: ctime }),
        listing: Err(failure(IoErrorKind::Other)),
    }
}

fn dir(mtime: i64, ctime: i64, entries: Vec<DiskEntry>) -> DiskNode {
    DiskNode {
        kind: Ok(FileKind::Directory),
        stat: Ok(FileStat { st_mode: 0o040755, st_mtime: mtime, st_ctime: ctime }),
        listing: Ok(entries),
    }
}

fn missing() -> DiskNode {
    DiskNode {
        kind: Err(failure(IoErrorKind::NotFound)),
        stat: Err(PlatformError::NotFound),
        listing: Err(failure(IoErrorKind::NotFound)),
    }
}

fn en(name: &str, node: DiskNode) -> DiskEntry {
    DiskEntry::Found { name: name.as_bytes().to_vec(), node }
}

fn snap(root: &str, disk: DiskNode) -> Vec<Snapshot> {
    vec![Snapshot { root: p(root), disk }]
}

fn ev(path: &str, kind: WatchEventKind, id: u32) -> WatchEvent {
    WatchEvent { path: p(path), kind, id }
}

fn watching(disk: DiskNode) -> Watcher<5> {
    let mut watcher = Watcher::<5>::new();
    watcher.add_directory(&p("/tmp/w"), true, &disk).unwrap();
    watcher
}

#[test]
fn create_is_reported_once() {
    let mut watcher = watching(dir(100, 100, vec![]));
    let (events, result) = watcher.poll(&snap("/tmp/w", dir(100, 100, vec![])));
    assert_eq!(result, Ok(()));
    assert_eq!(events, vec![]);
    let after = dir(200, 200, vec![en("a.txt", file(200, 200))]);
    let (events, result) = watcher.poll(&snap("/tmp/w", after));
    assert_eq!(result, Ok(()));
    assert_eq!(events, vec![ev("/tmp/w/a.txt", WatchEventKind::Create, 1)]);
    let found = watcher.forest().lookup(&p("/tmp/w"), &p("/tmp/w/a.txt"));
    assert_eq!(found, Some((&ModTimeInfo { mtime: 0, ctime: 0 }, false)));
}

#[test]
fn write_is_reported_as_written() {
    let before = dir(100, 100, vec![en("a.txt", file(100, 100))]);
    let mut watcher = watching(before);
    let after = dir(100, 100, vec![en("a.txt", file(150, 150))]);
    let (events, result) = watcher.poll(&snap("/tmp/w", after));
    assert_eq!(result, Ok(()));
    assert_eq!(events, vec![ev("/tmp/w/a.txt", WatchEventKind::Written, 1)]);
    let found = watcher.forest().lookup(&p("/tmp/w"), &p("/tmp/w/a.txt"));
    assert_eq!(found, Some((&ModTimeInfo { mtime: 150, ctime: 150 }, false)));
}

#[test]
fn chmod_alone_is_reported_as_chmod() {
    let before = dir(100, 100, vec![en("a.txt", file(100, 100))]);
    let mut watcher = watching(before);
    let after = dir(100, 100, vec![en("a.txt", file(100, 160))]);
    let (events, result) = watcher.poll(&snap("/tmp/w", after));
    assert_eq!(result, Ok(()));
    assert_eq!(events, vec![ev("/tmp/w/a.txt", WatchEventKind::Chmod, 1)]);
}

#[test]
fn delete_is_reported_and_the_node_is_gone() {
    let before = dir(100, 100, vec![en("a.txt", file(100, 100))]);
    let mut watcher = watching(before);
    assert!(watcher.forest().lookup(&p("/tmp/w"), &p("/tmp/w/a.txt")).is_some());
    let after = dir(170, 170, vec![]);
    let (events, result) = watcher.poll(&snap("/tmp/w", after));
    assert_eq!(result, Ok(()));
    assert_eq!(events, vec![ev("/tmp/w/a.txt", WatchEventKind::Delete, 1)]);
    assert_eq!(watcher.forest().lookup(&p("/tmp/w"), &p("/tmp/w/a.txt")), None);
    assert!(watcher.forest().lookup(&p("/tmp/w"), &p("/tmp/w")).is_some());
}

#[test]
fn type_change_is_a_delete_and_then_a_create() {
    let before = dir(100, 100, vec![en("a.txt", file(100, 100))]);
    let mut watcher = watching(before);
    let (events, result) =
        watcher.poll(&snap("/tmp/w", dir(180, 180, vec![en("a.txt", dir(180, 180, vec![]))])));
    assert_eq!(result, Ok(()));
    assert_eq!(events, vec![ev("/tmp/w/a.txt", WatchEventKind::Delete, 1)]);
    assert_eq!(watcher.forest().lookup(&p("/tmp/w"), &p("/tmp/w/a.txt")), None);
    let (events, result) =
        watcher.poll(&snap("/tmp/w", dir(180, 180, vec![en("a.txt", dir(180, 180, vec![]))])));
    assert_eq!(result, Ok(()));
    assert_eq!(events, vec![ev("/tmp/w/a.txt", WatchEventKind::Create, 2)]);
    let found = watcher.forest().lookup(&p("/tmp/w"), &p("/tmp/w/a.txt"));
    assert_eq!(found, Some((&ModTimeInfo { mtime: 0, ctime: 0 }, true)));
}

#[test]
fn nothing_is_said_right_after_registration() {
    let disk = || {
        dir(
            100,
            100,
            vec![
                en("a.txt", file(90, 95)),
                en("sub", dir(80, 85, vec![en("b.txt", file(70, 75)), en("deep", dir(60, 60, vec![]))])),
                en("link", other(50, 50)),
            ],
        )
    };
    let mut watcher = watching(disk());
    let (events, result) = watcher.poll(&snap("/tmp/w", disk()));
    assert_eq!(result, Ok(()));
    assert_eq!(events, vec![]);
    let (events, result) = watcher.poll(&snap("/tmp/w", disk()));
    assert_eq!(result, Ok(()));
    assert_eq!(events, vec![]);
    let found = watcher.forest().lookup(&p("/tmp/w"), &p("/tmp/w/sub/b.txt"));
    assert_eq!(found, Some((&ModTimeInfo { mtime: 70, ctime: 75 }, false)));
    assert_eq!(watcher.forest().lookup(&p("/tmp/w"), &p("/tmp/w/link")), None);
}

#[test]
fn entry_that_becomes_a_link_is_deleted() {
    let before = dir(100, 100, vec![en("a.txt", file(100, 100))]);
    let mut watcher = watching(before);
    let after = dir(100, 100, vec![en("a.txt", other(190, 190))]);
    let (events, result) = watcher.poll(&snap("/tmp/w", after));
    assert_eq!(result, Ok(()));
    assert_eq!(events, vec![ev("/tmp/w/a.txt", WatchEventKind::Delete, 1)]);
    assert_eq!(watcher.forest().lookup(&p("/tmp/w"), &p("/tmp/w/a.txt")), None);
    let after = dir(100, 100, vec![en("a.txt", other(190, 190))]);
    let (events, _) = watcher.poll(&snap("/tmp/w", after));
    assert_eq!(events, vec![]);
}

#[test]
fn event_ids_increase_in_the_order_of_the_events() {
    let before = dir(
        100,
        100,
        vec![en("a", file(1, 1)), en("b", file(1, 1)), en("c", dir(1, 1, vec![en("d", file(1, 1))]))],
    );
    let mut watcher = watching(before);
    let after = dir(
        200,
        200,
        vec![
            en("a", file(2, 2)),
            en("c", dir(1, 1, vec![en("d", file(1, 5)), en("e", file(9, 9))])),
            en("f", dir(3, 3, vec![])),
        ],
    );
    let (events, result) = watcher.poll(&snap("/tmp/w", after));
    assert_eq!(result, Ok(()));
    assert_eq!(
        events,
        vec![
            ev("/tmp/w/f", WatchEventKind::Create, 1),
            ev("/tmp/w/a", WatchEventKind::Written, 2),
            ev("/tmp/w/b", WatchEventKind::Delete, 3),
            ev("/tmp/w/c/e", WatchEventKind::Create, 4),
            ev("/tmp/w/c/d", WatchEventKind::Chmod, 5),
        ]
    );
    let mut i = 1;
    while i < events.len() {
        assert!(events[i - 1].id < events[i].id);
        i += 1;
    }
    let (events, _) = watcher.poll(&snap("/tmp/w", dir(200, 200, vec![])));
    assert_eq!(events[0].id, 6);
}

#[test]
fn a_path_that_is_no_directory_is_refused() {
    let mut watcher = Watcher::<5>::new();
    let result = watcher.add_directory(&p("/tmp/w/a.txt"), true, &file(1, 1));
    assert_eq!(result, Err(TuxDriveError::NotDirectory(p("/tmp/w/a.txt"))));
    let result = watcher.add_directory(&p("/tmp/nothing"), false, &missing());
    assert_eq!(result, Err(TuxDriveError::NotDirectory(p("/tmp/nothing"))));
    assert_eq!(watcher.roots(), Vec::<AbsPath>::new());
}

#[test]
fn a_root_that_disappears_is_dropped() {
    let mut watcher = watching(dir(100, 100, vec![en("a.txt", file(100, 100))]));
    let (events, result) = watcher.poll(&snap("/tmp/w", missing()));
    assert_eq!(result, Ok(()));
    assert_eq!(events, vec![ev("/tmp/w", WatchEventKind::Delete, 1)]);
    assert_eq!(watcher.roots(), Vec::<AbsPath>::new());
}

#[test]
fn a_platform_error_ends_the_poll() {
    let mut watcher = watching(dir(
        100,
        100,
        vec![en("a.txt", file(100, 100)), en("b.txt", file(100, 100))],
    ));
    let mut broken = file(100, 100);
    broken.stat = Err(PlatformError::Other(5));
    let after = dir(100, 100, vec![en("a.txt", file(300, 300)), en("b.txt", broken)]);
    let (events, result) = watcher.poll(&snap("/tmp/w", after));
    assert_eq!(result, Err(TuxDriveError::NixError(5)));
    assert_eq!(events, vec![ev("/tmp/w/a.txt", WatchEventKind::Written, 1)]);
}

#[test]
fn a_tree_without_snapshot_is_left_alone() {
    let mut watcher = watching(dir(100, 100, vec![en("a.txt", file(100, 100))]));
    let (events, result) = watcher.poll(&snap("/tmp/other", missing()));
    assert_eq!(result, Ok(()));
    assert_eq!(events, vec![]);
    assert_eq!(watcher.roots(), vec![p("/tmp/w")]);
    assert_eq!(watcher.poll_interval_secs(), 5);
}

#[test]
fn non_recursive_registration_takes_the_entries_only() {
    let disk = dir(
        100,
        100,
        vec![en("a.txt", file(1, 1)), en("sub", dir(2, 2, vec![en("b.txt", file(3, 3))]))],
    );
    let mut watcher = Watcher::<1>::new();
    watcher.add_directory(&p("/tmp/w"), false, &disk).unwrap();
    let forest = watcher.forest();
    assert_eq!(forest.lookup(&p("/tmp/w"), &p("/tmp/w/a.txt")), Some((&ModTimeInfo { mtime: 1, ctime: 1 }, false)));
    assert_eq!(forest.lookup(&p("/tmp/w"), &p("/tmp/w/sub")), Some((&ModTimeInfo { mtime: 2, ctime: 2 }, true)));
    assert_eq!(forest.lookup(&p("/tmp/w"), &p("/tmp/w/sub/b.txt")), None);
}

#[test]
fn nothing_is_said_after_a_flat_registration() {
    let disk = || {
        dir(
            100,
            100,
            vec![en("a.txt", file(90, 95)), en("sub", dir(80, 85, vec![en("link", other(1, 1))]))],
        )
    };
    let mut watcher = Watcher::<5>::new();
    watcher.add_directory(&p("/tmp/w"), false, &disk()).unwrap();
    let (events, result) = watcher.poll(&snap("/tmp/w", disk()));
    assert_eq!(result, Ok(()));
    assert_eq!(events, vec![]);
}

#[test]
fn one_change_among_many_paths_gives_one_event() {
    let disk = |mtime: i64| {
        dir(
            100,
            100,
            vec![
                en("a", file(1, 1)),
                en("b", dir(2, 2, vec![en("c", file(3, 3)), en("d", dir(4, 4, vec![en("e", file(mtime, 5))]))])),
                en("f", file(6, 6)),
            ],
        )
    };
    let mut watcher = watching(disk(5));
    let (events, result) = watcher.poll(&snap("/tmp/w", disk(50)));
    assert_eq!(result, Ok(()));
    assert_eq!(events, vec![ev("/tmp/w/b/d/e", WatchEventKind::Written, 1)]);
    let found = watcher.forest().lookup(&p("/tmp/w"), &p("/tmp/w/b/d/e"));
    assert_eq!(found, Some((&ModTimeInfo { mtime: 50, ctime: 5 }, false)));
    let (events, _) = watcher.poll(&snap("/tmp/w", disk(50)));
    assert_eq!(events, vec![]);
}

#[test]
fn a_deleted_directory_is_reported_once_for_all_below_it() {
    let before = dir(
        100,
        100,
        vec![en("sub", dir(2, 2, vec![en("x", file(3, 3)), en("y", file(4, 4))]))],
    );
    let mut watcher = watching(before);
    let (events, result) = watcher.poll(&snap("/tmp/w", dir(200, 200, vec![])));
    assert_eq!(result, Ok(()));
    assert_eq!(events, vec![ev("/tmp/w/sub", WatchEventKind::Delete, 1)]);
    assert_eq!(watcher.forest().lookup(&p("/tmp/w"), &p("/tmp/w/sub/x")), None);
}

#[test]
fn every_root_is_polled_against_its_own_snapshot() {
    let mut watcher = Watcher::<5>::new();
    watcher.add_directory(&p("/a"), true, &dir(1, 1, vec![en("x", file(1, 1))])).unwrap();
    watcher.add_directory(&p("/b"), true, &dir(1, 1, vec![en("x", file(1, 1))])).unwrap();
    assert_eq!(watcher.roots(), vec![p("/a"), p("/b")]);
    let snapshots = vec![
        Snapshot { root: p("/b"), disk: dir(1, 1, vec![en("x", file(2, 2))]) },
        Snapshot { root: p("/a"), disk: dir(1, 1, vec![en("x", file(1, 3))]) },
    ];
    let (events, result) = watcher.poll(&snapshots);
    assert_eq!(result, Ok(()));
    assert_eq!(
        events,
        vec![ev("/b/x", WatchEventKind::Written, 1), ev("/a/x", WatchEventKind::Chmod, 2)]
    );
}

#[test]
fn a_listing_that_fails_ends_the_poll_with_its_error() {
    let mut watcher = watching(dir(100, 100, vec![en("a", file(1, 1))]));
    let after = dir(
        100,
        100,
        vec![
            en("new", file(1, 1)),
            DiskEntry::Failed(failure(IoErrorKind::Other)),
            en("a", file(9, 9)),
        ],
    );
    let (events, result) = watcher.poll(&snap("/tmp/w", after));
    assert_eq!(result, Err(TuxDriveError::Io(failure(IoErrorKind::Other))));
    assert_eq!(events, vec![ev("/tmp/w/new", WatchEventKind::Create, 1)]);
    let mut locked = dir(100, 100, vec![]);
    locked.listing = Err(failure(IoErrorKind::PermissionDenied));
    let mut watcher = watching(dir(100, 100, vec![en("a", file(1, 1))]));
    let (events, result) = watcher.poll(&snap("/tmp/w", locked));
    assert_eq!(result, Ok(()));
    assert_eq!(events, vec![ev("/tmp/w", WatchEventKind::Delete, 1)]);
    assert_eq!(watcher.roots(), Vec::<AbsPath>::new());
}

#[test]
fn a_directory_that_can_no_longer_be_listed_is_reported_as_deleted() {
    let before = dir(100, 100, vec![en("sub", dir(2, 2, vec![en("x", file(3, 3))])), en("a", file(1, 1))]);
    let mut watcher = watching(before);
    for kind in [IoErrorKind::PermissionDenied, IoErrorKind::NotFound] {
        let mut watcher_after = Watcher::<5>::new();
        watcher_after
            .add_directory(
                &p("/tmp/w"),
                true,
                &dir(100, 100, vec![en("sub", dir(2, 2, vec![en("x", file(3, 3))])), en("a", file(1, 1))]),
            )
            .unwrap();
        let mut locked = dir(2, 2, vec![]);
        locked.listing = Err(failure(kind));
        let after = dir(100, 100, vec![en("sub", locked), en("a", file(1, 1))]);
        let (events, result) = watcher_after.poll(&snap("/tmp/w", after));
        assert_eq!(result, Ok(()));
        assert_eq!(events, vec![ev("/tmp/w/sub", WatchEventKind::Delete, 1)]);
        assert_eq!(watcher_after.forest().lookup(&p("/tmp/w"), &p("/tmp/w/sub")), None);
        assert_eq!(watcher_after.forest().lookup(&p("/tmp/w"), &p("/tmp/w/sub/x")), None);
        assert!(watcher_after.forest().lookup(&p("/tmp/w"), &p("/tmp/w/a")).is_some());
    }
    let mut broken = dir(2, 2, vec![]);
    broken.listing = Err(failure(IoErrorKind::Other));
    let after = dir(100, 100, vec![en("sub", broken), en("a", file(1, 1))]);
    let (events, result) = watcher.poll(&snap("/tmp/w", after));
    assert_eq!(result, Err(TuxDriveError::Io(failure(IoErrorKind::Other))));
    assert_eq!(events, vec![]);
}

#[test]
fn first_pass_stamps_every_node_whatever_the_times() {
    let disk = || {
        dir(
            0,
            0,
            vec![
                en("a.txt", file(5, 7)),
                en("old", dir(-3, -3, vec![en("b.txt", file(9, 9)), en("deep", dir(0, 0, vec![en("c", file(1, 2))]))])),
            ],
        )
    };
    let mut watcher = watching(disk());
    let forest = watcher.forest();
    assert_eq!(forest.lookup(&p("/tmp/w"), &p("/tmp/w")), Some((&ModTimeInfo { mtime: 0, ctime: 0 }, true)));
    assert_eq!(forest.lookup(&p("/tmp/w"), &p("/tmp/w/a.txt")), Some((&ModTimeInfo { mtime: 5, ctime: 7 }, false)));
    assert_eq!(forest.lookup(&p("/tmp/w"), &p("/tmp/w/old")), Some((&ModTimeInfo { mtime: -3, ctime: -3 }, true)));
    assert_eq!(forest.lookup(&p("/tmp/w"), &p("/tmp/w/old/b.txt")), Some((&ModTimeInfo { mtime: 9, ctime: 9 }, false)));
    assert_eq!(forest.lookup(&p("/tmp/w"), &p("/tmp/w/old/deep/c")), Some((&ModTimeInfo { mtime: 1, ctime: 2 }, false)));
    let (events, result) = watcher.poll(&snap("/tmp/w", disk()));
    assert_eq!(result, Ok(()));
    assert_eq!(events, vec![]);
}

#[test]
fn several_changes_at_once_are_each_reported_once() {
    let before = dir(
        100,
        100,
        vec![
            en("gone.txt", file(100, 100)),
            en("same.txt", file(100, 100)),
            en("sub", dir(100, 100, vec![en("deep.txt", file(100, 100))])),
            en("link", file(100, 100)),
            en("written.txt", file(100, 100)),
        ],
    );
    let mut watcher = watching(before);
    let after = dir(
        200,
        200,
        vec![
            en("same.txt", file(100, 100)),
            en(
                "sub",
                dir(200, 200, vec![en("deep.txt", file(100, 300)), en("new.txt", file(200, 200))]),
            ),
            en("link", other(200, 200)),
            en("written.txt", file(250, 250)),
        ],
    );
    let (events, result) = watcher.poll(&snap("/tmp/w", after));
    assert_eq!(result, Ok(()));
    assert_eq!(
        events,
        vec![
            ev("/tmp/w/gone.txt", WatchEventKind::Delete, 1),
            ev("/tmp/w/sub/new.txt", WatchEventKind::Create, 2),
            ev("/tmp/w/sub/deep.txt", WatchEventKind::Chmod, 3),
            ev("/tmp/w/link", WatchEventKind::Delete, 4),
            ev("/tmp/w/written.txt", WatchEventKind::Written, 5),
        ]
    );
    for event in events.iter() {
        assert!(event.path.is_canonical());
    }
    for held in watcher.roots().iter() {
        assert!(held.is_canonical());
    }
    let root = p("/tmp/w");
    let forest = watcher.forest();
    assert_eq!(forest.lookup(&root, &p("/tmp/w/gone.txt")), None);
    assert_eq!(forest.lookup(&root, &p("/tmp/w/link")), None);
    assert_eq!(
        forest.lookup(&root, &p("/tmp/w/same.txt")),
        Some((&ModTimeInfo { mtime: 100, ctime: 100 }, false))
    );
    assert_eq!(forest.lookup(&root, &p("/tmp/w")), Some((&ModTimeInfo { mtime: 200, ctime: 200 }, true)));
    assert_eq!(
        forest.lookup(&root, &p("/tmp/w/sub")),
        Some((&ModTimeInfo { mtime: 200, ctime: 200 }, true))
    );
    assert_eq!(
        forest.lookup(&root, &p("/tmp/w/sub/deep.txt")),
        Some((&ModTimeInfo { mtime: 100, ctime: 300 }, false))
    );
    assert_eq!(
        forest.lookup(&root, &p("/tmp/w/written.txt")),
        Some((&ModTimeInfo { mtime: 250, ctime: 250 }, false))
    );
    assert!(forest.lookup(&root, &p("/tmp/w/sub/new.txt")).is_some());
}

#[test]
fn what_lies_below_a_deleted_directory_is_not_visited() {
    let before = dir(
        100,
        100,
        vec![
            en("sub", dir(100, 100, vec![en("deep.txt", file(100, 100))])),
            en("kept.txt", file(100, 100)),
        ],
    );
    let mut watcher = watching(before);
    let after = dir(200, 200, vec![en("kept.txt", file(100, 100))]);
    let (events, result) = watcher.poll(&snap("/tmp/w", after));
    assert_eq!(result, Ok(()));
    assert_eq!(events, vec![ev("/tmp/w/sub", WatchEventKind::Delete, 1)]);
    assert_eq!(watcher.forest().lookup(&p("/tmp/w"), &p("/tmp/w/sub/deep.txt")), None);
    assert!(watcher.forest().lookup(&p("/tmp/w"), &p("/tmp/w/kept.txt")).is_some());
}
