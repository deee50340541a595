use tuxdrive::disk::{DiskEntry, DiskNode, FileKind, FileStat};
use tuxdrive::error::{IoErrorKind, IoFailure, PlatformError, TuxDriveError};
use tuxdrive::forest::info::{BasicNodeInfo, NodeInfo};
use tuxdrive::forest::{DirectoryAddOptions, PathForest};
use tuxdrive::path::AbsPath;

fn p(text: &str) -> AbsPath {
    AbsPath::from_bytes(text.as_bytes()).unwrap()
}

fn failure(kind: IoErrorKind) -> IoFailure {
    IoFailure { kind, message: String::from("failed") }
}

fn file() -> DiskNode {
    DiskNode {
        kind: Ok(FileKind::Regular),
        stat: Ok(FileStat { st_mode: 0o100644, st_mtime: 1, st_ctime: 1 }),
        listing: Err(failure(IoErrorKind::Other)),
    }
}

fn socket() -> DiskNode {
    DiskNode {
        kind: Ok(FileKind::Other),
        stat: Ok(FileStat { st_mode: 0o140644, st_mtime: 1, st_ctime: 1 }),
        listing: Err(failure(IoErrorKind::Other)),
    }
}

fn dir(entries: Vec<DiskEntry>) -> DiskNode {
    DiskNode {
        kind: Ok(FileKind::Directory),
        stat: Ok(FileStat { st_mode: 0o040755, st_mtime: 1, st_ctime: 1 }),
        listing: Ok(entries),
    }
}

fn locked_dir(kind: IoErrorKind) -> DiskNode {
    DiskNode {
        kind: Ok(FileKind::Directory),
        stat: Ok(FileStat { st_mode: 0o040000, st_mtime: 1, st_ctime: 1 }),
        listing: Err(failure(kind)),
    }
}

fn unknown(kind: IoErrorKind) -> DiskNode {
    DiskNode {
        kind: Err(failure(kind)),
        stat: Err(PlatformError::NotFound),
        listing: Err(failure(kind)),
    }
}

fn en(name: &str, node: DiskNode) -> DiskEntry {
    DiskEntry::Found { name: name.as_bytes().to_vec(), node }
}

fn holds(forest: &PathForest<u8>, root: &str, paths: &[(&str, bool)], absent: &[&str]) {
    for (path, is_dir) in paths {
        assert_eq!(forest.lookup(&p(root), &p(path)), Some((&0, *is_dir)), "{}", path);
    }
    for path in absent {
        assert_eq!(forest.lookup(&p(root), &p(path)), None, "{}", path);
    }
}

#[test]
fn added_path_is_found_under_the_path_it_was_added_with() {
    let mut forest: PathForest<u32> = PathForest::new();
    forest.add_path(&p("/r"), &p("/r/a/b/c.txt"), 7, false);
    assert_eq!(forest.lookup(&p("/r"), &p("/r/a/b/c.txt")), Some((&7, false)));
    // directories that were missing on the way have the default payload
    assert_eq!(forest.lookup(&p("/r"), &p("/r")), Some((&0, true)));
    assert_eq!(forest.lookup(&p("/r"), &p("/r/a")), Some((&0, true)));
    assert_eq!(forest.lookup(&p("/r"), &p("/r/a/b")), Some((&0, true)));
    // nothing else is there
    assert_eq!(forest.lookup(&p("/r"), &p("/r/a/b/c.txt/d")), None);
    assert_eq!(forest.lookup(&p("/r"), &p("/r/b")), None);
    assert_eq!(forest.lookup(&p("/r"), &p("/")), None);
    assert_eq!(forest.lookup(&p("/other"), &p("/r/a")), None);
    assert_eq!(forest.roots(), vec![p("/r")]);
    assert_eq!(forest.len(), 1);
}

#[test]
fn adding_again_overwrites_the_node_and_keeps_the_structure() {
    let mut forest: PathForest<u32> = PathForest::new();
    forest.add_path(&p("/r"), &p("/r/a"), 1, true);
    forest.add_path(&p("/r"), &p("/r/a/x"), 2, false);
    forest.add_path(&p("/r"), &p("/r/a/y/z"), 6, false);
    forest.add_path(&p("/r"), &p("/r/b"), 3, false);
    forest.add_path(&p("/r"), &p("/r/a"), 4, false);
    // payload and flag are overwritten, what lay below stays
    assert_eq!(forest.lookup(&p("/r"), &p("/r/a")), Some((&4, false)));
    assert_eq!(forest.lookup(&p("/r"), &p("/r/a/x")), Some((&2, false)));
    assert_eq!(forest.lookup(&p("/r"), &p("/r/a/y")), Some((&0, true)));
    assert_eq!(forest.lookup(&p("/r"), &p("/r/a/y/z")), Some((&6, false)));
    assert_eq!(forest.lookup(&p("/r"), &p("/r/b")), Some((&3, false)));
    forest.add_path(&p("/r"), &p("/r/a"), 4, false);
    assert_eq!(forest.lookup(&p("/r"), &p("/r/a")), Some((&4, false)));
    assert_eq!(forest.lookup(&p("/r"), &p("/r/a/x")), Some((&2, false)));
    assert_eq!(forest.lookup(&p("/r"), &p("/r/b")), Some((&3, false)));
    // existing directories on the way are used again
    forest.add_path(&p("/r"), &p("/r/b/deep"), 5, false);
    assert_eq!(forest.lookup(&p("/r"), &p("/r/b")), Some((&3, false)));
    assert_eq!(forest.lookup(&p("/r"), &p("/r/b/deep")), Some((&5, false)));
    // adding the root overwrites the root, and the tree stays
    forest.add_path(&p("/r"), &p("/r"), 9, true);
    assert_eq!(forest.lookup(&p("/r"), &p("/r")), Some((&9, true)));
    assert_eq!(forest.lookup(&p("/r"), &p("/r/a")), Some((&4, false)));
    assert_eq!(forest.lookup(&p("/r"), &p("/r/a/y/z")), Some((&6, false)));
    assert_eq!(forest.len(), 1);
}

#[test]
fn removed_path_is_gone_with_all_below_it() {
    let mut forest: PathForest<u32> = PathForest::new();
    forest.add_path(&p("/r"), &p("/r/a/x"), 1, false);
    forest.add_path(&p("/r"), &p("/r/a/y/z"), 2, false);
    forest.add_path(&p("/r"), &p("/r/b"), 3, false);
    forest.add_path(&p("/s"), &p("/s/a"), 4, false);
    assert!(!forest.remove_path(&p("/r"), &p("/r/c")));
    assert!(!forest.remove_path(&p("/r"), &p("/r/c/d")));
    assert!(forest.remove_path(&p("/r"), &p("/r/a/y")));
    assert_eq!(forest.lookup(&p("/r"), &p("/r/a/y")), None);
    assert_eq!(forest.lookup(&p("/r"), &p("/r/a/y/z")), None);
    assert_eq!(forest.lookup(&p("/r"), &p("/r/a/x")), Some((&1, false)));
    assert!(forest.remove_path(&p("/r"), &p("/r/a")));
    assert_eq!(forest.lookup(&p("/r"), &p("/r/a/x")), None);
    assert_eq!(forest.lookup(&p("/r"), &p("/r/b")), Some((&3, false)));
    assert_eq!(forest.lookup(&p("/s"), &p("/s/a")), Some((&4, false)));
    // removing the root removes the tree
    assert!(forest.remove_path(&p("/r"), &p("/r")));
    assert_eq!(forest.roots(), vec![p("/s")]);
}

#[test]
fn tree_of_the_file_system_root_has_no_name() {
    let mut forest: PathForest<u32> = PathForest::new();
    forest.add_path(&p("/"), &p("/etc/hosts"), 1, false);
    assert_eq!(forest.lookup(&p("/"), &p("/")), Some((&0, true)));
    assert_eq!(forest.lookup(&p("/"), &p("/etc")), Some((&0, true)));
    assert_eq!(forest.lookup(&p("/"), &p("/etc/hosts")), Some((&1, false)));
    let trees = forest.trees_mut();
    assert_eq!(trees[0].root_path(), p("/"));
    assert!(trees[0].is_path_compatible(&p("/anything")));
}

#[test]
fn recursive_registration_covers_files_and_directories() {
    let disk = dir(vec![
        en("a.txt", file()),
        en("sub", dir(vec![en("b.txt", file()), en("deep", dir(vec![en("c", file())]))])),
        en("empty", dir(vec![])),
        en("sock", socket()),
        en("ghost", unknown(IoErrorKind::NotFound)),
        DiskEntry::Failed(failure(IoErrorKind::PermissionDenied)),
    ]);
    let mut forest: PathForest<u8> = PathForest::new();
    assert_eq!(forest.add_dir_recursively(&p("/w"), &disk, DirectoryAddOptions::new()), Ok(()));
    holds(
        &forest,
        "/w",
        &[
            ("/w", true),
            ("/w/a.txt", false),
            ("/w/sub", true),
            ("/w/sub/b.txt", false),
            ("/w/sub/deep", true),
            ("/w/sub/deep/c", false),
            ("/w/empty", true),
        ],
        &["/w/sock", "/w/ghost", "/w/sub/c", "/w/a.txt/x"],
    );
}

#[test]
fn directory_that_cannot_be_listed_is_left_out() {
    let disk = dir(vec![
        en("open", dir(vec![en("x", file())])),
        en("locked", locked_dir(IoErrorKind::PermissionDenied)),
        en("vanished", locked_dir(IoErrorKind::NotFound)),
    ]);
    let mut forest: PathForest<u8> = PathForest::new();
    assert_eq!(forest.add_dir_recursively(&p("/w"), &disk, DirectoryAddOptions::new()), Ok(()));
    holds(&forest, "/w", &[("/w", true), ("/w/open", true), ("/w/open/x", false)], &[
        "/w/locked",
        "/w/vanished",
    ]);
    // a directory that cannot be listed itself leaves no tree
    let mut forest: PathForest<u8> = PathForest::new();
    let locked = locked_dir(IoErrorKind::PermissionDenied);
    assert_eq!(forest.add_dir_recursively(&p("/w"), &locked, DirectoryAddOptions::new()), Ok(()));
    assert_eq!(forest.len(), 0);
}

#[test]
fn failures_that_are_not_tolerated_end_the_registration() {
    let disk = dir(vec![en("a", file()), en("broken", locked_dir(IoErrorKind::Other))]);
    let mut forest: PathForest<u8> = PathForest::new();
    assert_eq!(
        forest.add_dir_recursively(&p("/w"), &disk, DirectoryAddOptions::new()),
        Err(TuxDriveError::Io(failure(IoErrorKind::Other)))
    );
    let disk = dir(vec![en("locked", locked_dir(IoErrorKind::PermissionDenied))]);
    let strict = DirectoryAddOptions::new().with_ignore_no_access(false);
    assert!(strict.ignore_not_found());
    assert!(!strict.ignore_no_access());
    let mut forest: PathForest<u8> = PathForest::new();
    assert_eq!(
        forest.add_dir_recursively(&p("/w"), &disk, strict),
        Err(TuxDriveError::Io(failure(IoErrorKind::PermissionDenied)))
    );
    let disk = dir(vec![en("ghost", unknown(IoErrorKind::NotFound)), en("a", file())]);
    let strict = DirectoryAddOptions::new().with_ignore_not_found(false);
    let mut forest: PathForest<u8> = PathForest::new();
    assert_eq!(
        forest.add_dir_recursively(&p("/w"), &disk, strict),
        Err(TuxDriveError::Io(failure(IoErrorKind::NotFound)))
    );
    let mut forest: PathForest<u8> = PathForest::new();
    assert_eq!(forest.add_dir_recursively(&p("/w"), &disk, DirectoryAddOptions::new()), Ok(()));
    holds(&forest, "/w", &[("/w/a", false)], &["/w/ghost"]);
}

#[test]
fn non_recursive_registration_stops_at_the_entries() {
    let disk = dir(vec![
        en("a.txt", file()),
        en("sub", dir(vec![en("b.txt", file())])),
        en("sock", socket()),
        DiskEntry::Failed(failure(IoErrorKind::NotFound)),
    ]);
    let mut forest: PathForest<u8> = PathForest::new();
    assert_eq!(forest.add_dir_non_recursively(&p("/w"), &disk), Ok(()));
    holds(&forest, "/w", &[("/w", true), ("/w/a.txt", false), ("/w/sub", true)], &[
        "/w/sub/b.txt",
        "/w/sock",
    ]);
    let mut forest: PathForest<u8> = PathForest::new();
    assert_eq!(forest.add_dir_non_recursively(&p("/w"), &locked_dir(IoErrorKind::NotFound)), Ok(()));
    assert_eq!(forest.len(), 0);
    assert_eq!(
        forest.add_dir_non_recursively(&p("/w"), &locked_dir(IoErrorKind::Other)),
        Err(TuxDriveError::Io(failure(IoErrorKind::Other)))
    );
    let disk = dir(vec![en("a", file()), DiskEntry::Failed(failure(IoErrorKind::Other))]);
    assert_eq!(
        forest.add_dir_non_recursively(&p("/w"), &disk),
        Err(TuxDriveError::Io(failure(IoErrorKind::Other)))
    );
}

#[test]
fn registering_again_starts_the_tree_anew() {
    let mut forest: PathForest<u8> = PathForest::new();
    let before = dir(vec![en("old", file())]);
    let after = dir(vec![en("new", file())]);
    assert_eq!(forest.add_dir_recursively(&p("/w"), &before, DirectoryAddOptions::new()), Ok(()));
    assert_eq!(forest.add_dir_recursively(&p("/v"), &before, DirectoryAddOptions::new()), Ok(()));
    assert_eq!(forest.add_dir_recursively(&p("/w"), &after, DirectoryAddOptions::new()), Ok(()));
    holds(&forest, "/w", &[("/w", true), ("/w/new", false)], &["/w/old"]);
    holds(&forest, "/v", &[("/v", true), ("/v/old", false)], &["/v/new"]);
    assert_eq!(forest.roots(), vec![p("/w"), p("/v")]);
}

#[test]
fn disk_lookup_follows_the_listings() {
    let disk = dir(vec![en("sub", dir(vec![en("b.txt", file())])), en("a.txt", file())]);
    let found = disk.lookup(&p("/w/sub/b.txt"), 1).unwrap();
    assert_eq!(found.kind, Ok(FileKind::Regular));
    assert!(disk.lookup(&p("/w/sub"), 1).is_some());
    assert!(disk.lookup(&p("/w"), 1).is_some());
    assert!(disk.lookup(&p("/w/sub/c"), 1).is_none());
    assert!(disk.lookup(&p("/w/a.txt/x"), 1).is_none());
    assert!(disk.entry(&b"a.txt".to_vec()).is_some());
    assert!(disk.entry(&b"b.txt".to_vec()).is_none());
}

#[test]
fn basic_payload_knows_directories() {
    let info = BasicNodeInfo::default();
    assert!(!info.is_dir());
    assert!(info.with_is_dir(true).is_dir());
    assert!(!BasicNodeInfo::default().with_is_dir(true).with_is_dir(false).is_dir());
    let mut forest: PathForest<BasicNodeInfo> = PathForest::new();
    forest.add_path(&p("/r"), &p("/r/a"), BasicNodeInfo::default().with_is_dir(true), true);
    let (info, is_dir) = forest.lookup(&p("/r"), &p("/r/a")).unwrap();
    assert!(info.is_dir() && is_dir);
}
