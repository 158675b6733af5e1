use ocpi_core::credentials::{BusinessDetails, Credentials, CredentialsRole, Logo, LogoCategory, Role};
use ocpi_core::versions::{Endpoint, InterfaceRole, ModuleID, Version, VersionDetails, VersionNumber};
use ocpi_core::wire::{decode_version, decode_version_details, encode_version, encode_version_details};
use ocpi_core::wire_credentials::{decode_credentials, decode_credentials_role, encode_credentials, encode_credentials_role};

#[test]
fn every_version_number_tag_round_trips() {
    let all = vec![
        (VersionNumber::V2_0, "2.0"),
        (VersionNumber::V2_1, "2.1"),
        (VersionNumber::V2_1_1, "2.1.1"),
        (VersionNumber::V2_2, "2.2"),
        (VersionNumber::V2_2_1, "2.2.1"),
        (VersionNumber::V2_3_0, "2.3.0"),
    ];
    for (n, tag) in all {
        let body = encode_version(&Version::new(n, "https://s"));
        assert!(body.contains(&format!("\"{}\"", tag)));
        assert_eq!(decode_version(&body).unwrap().version, n);
    }
}

#[test]
fn every_module_and_interface_role_tag_round_trips() {
    let modules = vec![
        (ModuleID::Cdrs, "cdrs"),
        (ModuleID::ChargingProfiles, "charging_profiles"),
        (ModuleID::Commands, "commands"),
        (ModuleID::Credentials, "credentials"),
        (ModuleID::HubClientInfo, "hub_client_info"),
        (ModuleID::Locations, "locations"),
        (ModuleID::Sessions, "sessions"),
        (ModuleID::Tariffs, "tariffs"),
        (ModuleID::Tokens, "tokens"),
    ];
    let mut eps = Vec::new();
    for (m, _) in &modules {
        eps.push(Endpoint::new(*m, InterfaceRole::Sender, "https://a"));
        eps.push(Endpoint::new(*m, InterfaceRole::Receiver, "https://b"));
    }
    let d = VersionDetails::new(VersionNumber::V2_2_1, eps);
    let body = encode_version_details(&d);
    for (_, tag) in &modules {
        assert!(body.contains(&format!("\"{}\"", tag)));
    }
    let decoded = decode_version_details(&body).unwrap();
    assert_eq!(decoded.endpoints.len(), 18);
    for (q, (m, _)) in modules.iter().enumerate() {
        assert_eq!(decoded.endpoints[2 * q].identifier, *m);
        assert_eq!(decoded.endpoints[2 * q].role, InterfaceRole::Sender);
        assert_eq!(decoded.endpoints[2 * q + 1].role, InterfaceRole::Receiver);
    }
}

#[test]
fn every_business_role_tag_round_trips() {
    let c = Credentials::new(
        "tok",
        "https://s",
        vec![
            CredentialsRole::new(Role::Cpo, "AAA", "NL", BusinessDetails::default()),
            CredentialsRole::new(Role::Emsp, "BBB", "DE", BusinessDetails::default()),
            CredentialsRole::new(Role::Hub, "CCC", "BE", BusinessDetails::default()),
        ],
    );
    let body = encode_credentials(&c);
    assert!(body.contains("\"cpo\"") && body.contains("\"emsp\"") && body.contains("\"hub\""));
    let decoded = decode_credentials(&body).unwrap();
    assert_eq!(decoded.roles[0].role, Role::Cpo);
    assert_eq!(decoded.roles[1].role, Role::Emsp);
    assert_eq!(decoded.roles[2].role, Role::Hub);
}

#[test]
fn both_logo_category_tags_round_trip() {
    for (cat, tag) in vec![(LogoCategory::Operator, "operator"), (LogoCategory::Provider, "provider")] {
        let logo = Logo::new("https://img", None, cat, "image/png", 12, 34);
        let bd = BusinessDetails::new("n", Some(logo), None);
        let role = CredentialsRole::new(Role::Cpo, "AAA", "NL", bd);
        let body = encode_credentials_role(&role);
        assert!(body.contains(&format!("\"{}\"", tag)));
        let decoded = decode_credentials_role(&body).unwrap();
        assert_eq!(decoded.business_details.logo.unwrap().category, cat);
    }
}

#[test]
fn numerals_encode_without_leading_zeros_and_round_trip() {
    let logo = Logo::new("https://img", None, LogoCategory::Operator, "image/png", 4294967295, 1);
    let bd = BusinessDetails::new("n", Some(logo), None);
    let role = CredentialsRole::new(Role::Cpo, "AAA", "NL", bd);
    let body = encode_credentials_role(&role);
    assert!(body.contains("\"width\":4294967295,\"height\":1}"));
    let decoded = decode_credentials_role(&body).unwrap();
    let dl = decoded.business_details.logo.unwrap();
    assert_eq!(dl.width, 4294967295);
    assert_eq!(dl.height, 1);
}
