use coverageinfo_iface::version::{negotiate, InterfaceVersion, VersionMismatch};

fn v(major: u32, minor: u32, patch: u32) -> InterfaceVersion {
    InterfaceVersion { major, minor, patch }
}

#[test]
fn same_revision_binds() {
    assert_eq!(negotiate(v(0, 1, 0), v(0, 1, 0)), Ok(()));
    assert_eq!(negotiate(v(3, 4, 5), v(3, 4, 5)), Ok(()));
}

#[test]
fn before_one_the_minor_revision_must_match() {
    assert_eq!(negotiate(v(0, 1, 0), v(0, 1, 5)), Ok(()));
    assert_eq!(negotiate(v(0, 1, 5), v(0, 1, 8)), Ok(()));
    assert_eq!(
        negotiate(v(0, 1, 8), v(0, 2, 0)),
        Err(VersionMismatch { consumer: v(0, 1, 8), provider: v(0, 2, 0) })
    );
    assert!(negotiate(v(0, 2, 0), v(0, 1, 8)).is_err());
    assert!(negotiate(v(0, 1, 8), v(0, 1, 5)).is_err());
}

#[test]
fn after_one_a_newer_minor_revision_binds() {
    assert_eq!(negotiate(v(1, 2, 0), v(1, 2, 0)), Ok(()));
    assert_eq!(negotiate(v(1, 2, 9), v(1, 3, 0)), Ok(()));
    assert_eq!(negotiate(v(1, 2, 9), v(1, 2, 0)), Ok(()));
    assert!(negotiate(v(1, 3, 0), v(1, 2, 9)).is_err());
}

#[test]
fn major_revisions_exclude_each_other() {
    assert!(negotiate(v(1, 0, 0), v(2, 0, 0)).is_err());
    assert!(negotiate(v(2, 0, 0), v(1, 9, 9)).is_err());
    assert!(negotiate(v(0, 1, 0), v(1, 1, 0)).is_err());
    assert_eq!(
        negotiate(v(1, 1, 0), v(0, 1, 0)),
        Err(VersionMismatch { consumer: v(1, 1, 0), provider: v(0, 1, 0) })
    );
}
