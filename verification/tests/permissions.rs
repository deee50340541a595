use tuxdrive::reader::{FilePermission, NormalPermission, SpecialPermission};

fn normal(read: bool, write: bool, execute: bool) -> NormalPermission {
    NormalPermission { read, write, execute }
}

fn special(suid: bool, sgid: bool, sticky: bool) -> SpecialPermission {
    SpecialPermission { suid, sgid, sticky }
}

#[test]
fn regular_file_permissions() {
    // Regular file: 644
    let perm_bits = 0o0644;
    let expected_perm = FilePermission {
        user: normal(true, true, false),
        group: normal(true, false, false),
        other: normal(true, false, false),
        spec: special(false, false, false),
    };
    let perm: FilePermission = FilePermission::from(perm_bits);
    assert_eq!(perm, expected_perm);
}

#[test]
fn ssh_key_file_permissions() {
    // SSH key file: 400
    let perm_bits = 0o0400;
    let expected_perm = FilePermission {
        user: normal(true, false, false),
        group: NormalPermission::default(),
        other: NormalPermission::default(),
        spec: SpecialPermission::default(),
    };
    let perm: FilePermission = FilePermission::from(perm_bits);
    assert_eq!(perm, expected_perm);
}

#[test]
fn executable_file_permissions() {
    // Executable file: 755
    let perm_bits = 0o0755;
    let expected_perm = FilePermission {
        user: normal(true, true, true),
        group: normal(true, false, true),
        other: normal(true, false, true),
        spec: SpecialPermission::default(),
    };
    let perm: FilePermission = FilePermission::from(perm_bits);
    assert_eq!(perm, expected_perm);
}

#[test]
fn suid_executable_file_permissions() {
    // SUID Executable file: 4755
    let perm_bits = 0o4755;
    let expected_perm = FilePermission {
        user: normal(true, true, true),
        group: normal(true, false, true),
        other: normal(true, false, true),
        spec: special(true, false, false),
    };
    let perm: FilePermission = FilePermission::from(perm_bits);
    assert_eq!(perm, expected_perm);
}

#[test]
fn every_mode_survives_the_round_trip() {
    let mut mode: u16 = 0;
    while mode <= 0o7777 {
        assert_eq!(FilePermission::from(mode).bits(), mode);
        mode += 1;
    }
}

#[test]
fn digits_decode_bit_by_bit() {
    assert_eq!(NormalPermission::from(0), normal(false, false, false));
    assert_eq!(NormalPermission::from(0o1), normal(false, false, true));
    assert_eq!(NormalPermission::from(0o2), normal(false, true, false));
    assert_eq!(NormalPermission::from(0o4), normal(true, false, false));
    assert_eq!(NormalPermission::from(0o7), normal(true, true, true));
    assert_eq!(SpecialPermission::from(0o1), special(false, false, true));
    assert_eq!(SpecialPermission::from(0o2), special(false, true, false));
    assert_eq!(SpecialPermission::from(0o4), special(true, false, false));
    assert_eq!(NormalPermission::from(0o5).bits(), 0o5);
    assert_eq!(SpecialPermission::from(0o6).bits(), 0o6);
}

#[test]
fn sticky_directory_permissions() {
    let perm = FilePermission::from(0o1777);
    assert_eq!(perm.spec, special(false, false, true));
    assert_eq!(perm.user, normal(true, true, true));
    assert_eq!(perm.group, normal(true, true, true));
    assert_eq!(perm.other, normal(true, true, true));
    assert_eq!(perm.bits(), 0o1777);
}
