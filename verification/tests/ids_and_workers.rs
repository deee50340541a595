use tuxdrive::atomic::AtomicIdGenerator;
use tuxdrive::watcher::{ModTimeInfo, PathAction};
use tuxdrive::disk::FileStat;
use tuxdrive::error::{PlatformError, TuxDriveError};
use tuxdrive::workers::{num_threads, pool_size, MAX_NUM_THREADS};

#[test]
fn identifiers_start_at_one_and_increase() {
    let mut generator = AtomicIdGenerator::new();
    assert_eq!(generator.next_id(), 1);
    assert_eq!(generator.next_id(), 2);
    assert_eq!(generator.next_id(), 3);
    let mut last = 3;
    let mut i = 0;
    while i < 1000 {
        let id = generator.next_id();
        assert!(last < id);
        last = id;
        i += 1;
    }
    assert_eq!(last, 1003);
}

#[test]
fn pool_has_one_thread_for_each_processor_and_four_at_least() {
    assert_eq!(MAX_NUM_THREADS, 4);
    assert_eq!(pool_size(0), 4);
    assert_eq!(pool_size(1), 4);
    assert_eq!(pool_size(4), 4);
    assert_eq!(pool_size(5), 5);
    assert_eq!(pool_size(64), 64);
    assert_eq!(pool_size(usize::MAX), usize::MAX);
}

#[test]
fn pool_on_this_machine_follows_the_processor_count() {
    let cpus = num_cpus::get();
    assert!(cpus >= 1);
    assert_eq!(num_threads(), usize::max(cpus, 4));
}

#[test]
fn times_are_compared_field_by_field() {
    let seen = ModTimeInfo { mtime: 10, ctime: 20 };
    assert!(ModTimeInfo { mtime: 11, ctime: 20 }.modified_since(&seen));
    assert!(!ModTimeInfo { mtime: 10, ctime: 25 }.modified_since(&seen));
    assert!(!ModTimeInfo { mtime: 9, ctime: 20 }.modified_since(&seen));
    assert!(ModTimeInfo { mtime: 10, ctime: 21 }.changed_since(&seen));
    assert!(!ModTimeInfo { mtime: 15, ctime: 20 }.changed_since(&seen));
    assert!(ModTimeInfo { mtime: 11, ctime: 20 }.updated_since(&seen));
    assert!(ModTimeInfo { mtime: 10, ctime: 21 }.updated_since(&seen));
    assert!(!ModTimeInfo { mtime: 10, ctime: 20 }.updated_since(&seen));
    assert!(!ModTimeInfo { mtime: -5, ctime: -5 }.updated_since(&ModTimeInfo::default()));
    assert_eq!(ModTimeInfo::default(), ModTimeInfo { mtime: 0, ctime: 0 });
}

#[test]
fn times_are_taken_over_from_the_status() {
    let mut info = ModTimeInfo::default();
    let stat = FileStat { st_mode: 0o100644, st_mtime: 33, st_ctime: 44 };
    assert_eq!(info.update_times(&Ok(stat)), Ok(PathAction::Nothing));
    assert_eq!(info, ModTimeInfo { mtime: 33, ctime: 44 });
    assert_eq!(info.update_times(&Err(PlatformError::NotFound)), Ok(PathAction::Delete));
    assert_eq!(info.update_times(&Err(PlatformError::PermissionDenied)), Ok(PathAction::Delete));
    assert_eq!(info.update_times(&Err(PlatformError::Other(5))), Err(TuxDriveError::NixError(5)));
    assert_eq!(info, ModTimeInfo { mtime: 33, ctime: 44 });
}
