use ocpi_core::error::OcpiError;
use ocpi_core::registry::{VersionRegistry, VersionsModule};
use ocpi_core::resolver::resolve;
use ocpi_core::versions::{Endpoint, InterfaceRole, ModuleID, Version, VersionDetails, VersionNumber};

fn sample_details() -> VersionDetails {
    VersionDetails::new(
        VersionNumber::V2_2_1,
        vec![
            Endpoint::new(ModuleID::Credentials, InterfaceRole::Receiver, "https://s/creds"),
            Endpoint::new(ModuleID::Locations, InterfaceRole::Sender, "https://s/locations"),
            Endpoint::new(ModuleID::Locations, InterfaceRole::Receiver, "https://s/loc-recv"),
        ],
    )
}

#[test]
fn registry_lists_versions_in_registration_order() {
    let mut reg = VersionRegistry::new();
    reg.add(Version::new(VersionNumber::V2_1_1, "https://s/2.1.1"), sample_details());
    reg.add(Version::new(VersionNumber::V2_2_1, "https://s/2.2.1"), sample_details());
    let vs = reg.list_versions();
    assert_eq!(vs.len(), 2);
    assert_eq!(vs[0].version, VersionNumber::V2_1_1);
    assert_eq!(vs[0].url, "https://s/2.1.1");
    assert_eq!(vs[1].version, VersionNumber::V2_2_1);
}

#[test]
fn registry_get_details_finds_known_version() {
    let mut reg = VersionRegistry::new();
    reg.add(Version::new(VersionNumber::V2_2_1, "https://s/2.2.1"), sample_details());
    let d = reg.get_details(VersionNumber::V2_2_1).unwrap();
    assert_eq!(d.version, VersionNumber::V2_2_1);
    assert_eq!(d.endpoints.len(), 3);
}

#[test]
fn registry_get_details_fails_with_not_found() {
    let reg = VersionRegistry::new();
    assert!(matches!(reg.get_details(VersionNumber::V2_0), Err(OcpiError::NotFound)));
}

#[test]
fn versions_module_trait_is_served_by_the_registry() {
    let mut reg = VersionRegistry::new();
    reg.add(Version::new(VersionNumber::V2_2, "https://s/2.2"), sample_details());
    let vs = reg.get_versions().unwrap();
    assert_eq!(vs.len(), 1);
    assert!(reg.get_version_details(VersionNumber::V2_2).is_ok());
    assert!(matches!(
        reg.get_version_details(VersionNumber::V2_0),
        Err(OcpiError::NotFound)
    ));
}

#[test]
fn resolve_returns_the_matching_endpoint_url() {
    let d = sample_details();
    assert_eq!(
        resolve(&d, ModuleID::Locations, InterfaceRole::Sender),
        Ok(String::from("https://s/locations"))
    );
    assert_eq!(
        resolve(&d, ModuleID::Locations, InterfaceRole::Receiver),
        Ok(String::from("https://s/loc-recv"))
    );
}

#[test]
fn resolve_fails_with_endpoint_not_found() {
    let d = sample_details();
    assert_eq!(
        resolve(&d, ModuleID::Tariffs, InterfaceRole::Sender),
        Err(OcpiError::EndpointNotFound)
    );
}

#[test]
fn well_formed_accepts_unique_keys_and_rejects_duplicates() {
    assert!(sample_details().well_formed());
    let dup = VersionDetails::new(
        VersionNumber::V2_2_1,
        vec![
            Endpoint::new(ModuleID::Sessions, InterfaceRole::Sender, "https://a"),
            Endpoint::new(ModuleID::Sessions, InterfaceRole::Sender, "https://b"),
        ],
    );
    assert!(!dup.well_formed());
    let empty = VersionDetails::new(VersionNumber::V2_2_1, Vec::new());
    assert!(!empty.well_formed());
}
