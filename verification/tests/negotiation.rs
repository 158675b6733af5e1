use ocpi_core::error::OcpiError;
use ocpi_core::negotiate::{contains_version, negotiate};
use ocpi_core::versions::{Version, VersionNumber};

#[test]
fn negotiate_picks_highest_common_version() {
    // local [2.1.1, 2.2.1], remote [2.2.1, 2.3.0] -> 2.2.1
    let local = vec![
        Version::new(VersionNumber::V2_1_1, "https://local/ocpi/2.1.1"),
        Version::new(VersionNumber::V2_2_1, "https://local/ocpi/2.2.1"),
    ];
    let remote = vec![
        Version::new(VersionNumber::V2_2_1, "https://remote/ocpi/2.2.1"),
        Version::new(VersionNumber::V2_3_0, "https://remote/ocpi/2.3.0"),
    ];
    assert_eq!(negotiate(&local, &remote), Ok(VersionNumber::V2_2_1));
}

#[test]
fn negotiate_prefers_maximum_of_several_common_versions() {
    let local = vec![
        Version::new(VersionNumber::V2_0, "https://a/2.0"),
        Version::new(VersionNumber::V2_2, "https://a/2.2"),
        Version::new(VersionNumber::V2_1, "https://a/2.1"),
    ];
    let remote = vec![
        Version::new(VersionNumber::V2_1, "https://b/2.1"),
        Version::new(VersionNumber::V2_0, "https://b/2.0"),
        Version::new(VersionNumber::V2_2, "https://b/2.2"),
    ];
    assert_eq!(negotiate(&local, &remote), Ok(VersionNumber::V2_2));
}

#[test]
fn negotiate_fails_with_no_common_version_on_disjoint_lists() {
    let local = vec![Version::new(VersionNumber::V2_0, "https://a/2.0")];
    let remote = vec![Version::new(VersionNumber::V2_3_0, "https://b/2.3.0")];
    assert_eq!(negotiate(&local, &remote), Err(OcpiError::NoCommonVersion));
}

#[test]
fn negotiate_fails_on_empty_lists() {
    let local: Vec<Version> = Vec::new();
    let remote: Vec<Version> = Vec::new();
    assert_eq!(negotiate(&local, &remote), Err(OcpiError::NoCommonVersion));
    let one = vec![Version::new(VersionNumber::V2_2_1, "https://a")];
    assert_eq!(negotiate(&one, &remote), Err(OcpiError::NoCommonVersion));
    assert_eq!(negotiate(&local, &one), Err(OcpiError::NoCommonVersion));
}

#[test]
fn contains_version_scans_the_list() {
    let vs = vec![
        Version::new(VersionNumber::V2_1, "https://a/2.1"),
        Version::new(VersionNumber::V2_2, "https://a/2.2"),
    ];
    assert!(contains_version(&vs, VersionNumber::V2_2));
    assert!(!contains_version(&vs, VersionNumber::V2_3_0));
}

#[test]
fn version_rank_orders_the_closed_enumeration() {
    assert!(VersionNumber::V2_0.rank() < VersionNumber::V2_1.rank());
    assert!(VersionNumber::V2_1.rank() < VersionNumber::V2_1_1.rank());
    assert!(VersionNumber::V2_1_1.rank() < VersionNumber::V2_2.rank());
    assert!(VersionNumber::V2_2.rank() < VersionNumber::V2_2_1.rank());
    assert!(VersionNumber::V2_2_1.rank() < VersionNumber::V2_3_0.rank());
}
