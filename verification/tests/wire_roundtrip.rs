use ocpi_core::credentials::{BusinessDetails, Credentials, CredentialsRole, Logo, LogoCategory, Role};
use ocpi_core::versions::{Endpoint, InterfaceRole, ModuleID, Version, VersionDetails, VersionNumber};
use ocpi_core::wire::{decode_version, decode_version_details, encode_version, encode_version_details};
use ocpi_core::wire_credentials::{
    decode_credentials, decode_credentials_role, encode_credentials, encode_credentials_role,
};

#[test]
fn version_encodes_to_the_documented_json_shape() {
    let v = Version::new(VersionNumber::V2_2_1, "https://s/ocpi/2.2.1");
    assert_eq!(
        encode_version(&v),
        "{\"version\":\"2.2.1\",\"url\":\"https://s/ocpi/2.2.1\"}"
    );
}

#[test]
fn version_round_trips_through_the_wire() {
    let v = Version::new(VersionNumber::V2_3_0, "https://s/ocpi/2.3.0");
    let decoded = decode_version(&encode_version(&v)).unwrap();
    assert_eq!(decoded.version, v.version);
    assert_eq!(decoded.url, v.url);
}

#[test]
fn version_details_round_trips_through_the_wire() {
    let d = VersionDetails::new(
        VersionNumber::V2_2_1,
        vec![
            Endpoint::new(ModuleID::HubClientInfo, InterfaceRole::Sender, "https://s/hci"),
            Endpoint::new(ModuleID::Credentials, InterfaceRole::Receiver, "https://s/creds"),
        ],
    );
    let body = encode_version_details(&d);
    assert!(body.contains("\"hub_client_info\""));
    assert!(body.contains("\"sender\""));
    let decoded = decode_version_details(&body).unwrap();
    assert_eq!(decoded.version, d.version);
    assert_eq!(decoded.endpoints.len(), 2);
    assert_eq!(decoded.endpoints[0].identifier, ModuleID::HubClientInfo);
    assert_eq!(decoded.endpoints[0].role, InterfaceRole::Sender);
    assert_eq!(decoded.endpoints[0].url, "https://s/hci");
    assert_eq!(decoded.endpoints[1].identifier, ModuleID::Credentials);
    assert_eq!(decoded.endpoints[1].url, "https://s/creds");
}

#[test]
fn version_details_with_empty_endpoint_list_round_trips() {
    let d = VersionDetails::new(VersionNumber::V2_1, Vec::new());
    let body = encode_version_details(&d);
    assert_eq!(body, "{\"version\":\"2.1\",\"endpoints\":[]}");
    let decoded = decode_version_details(&body).unwrap();
    assert_eq!(decoded.endpoints.len(), 0);
}

#[test]
fn credentials_role_round_trips_through_the_wire() {
    let logo = Logo::new(
        "https://img.example/logo.png",
        Some(String::from("https://img.example/t.png")),
        LogoCategory::Operator,
        "image/png",
        640,
        480,
    );
    let bd = BusinessDetails::new("Example CPO", Some(logo), Some(String::from("https://cpo.example")));
    let role = CredentialsRole::new(Role::Cpo, "ABC", "NL", bd);
    let body = encode_credentials_role(&role);
    assert!(body.contains("\"cpo\""));
    assert!(body.contains("\"operator\""));
    assert!(body.contains("\"width\":640"));
    let decoded = decode_credentials_role(&body).unwrap();
    assert_eq!(decoded.role, Role::Cpo);
    assert_eq!(decoded.party_id, "ABC");
    assert_eq!(decoded.country_code, "NL");
    assert_eq!(decoded.business_details.name, "Example CPO");
    let dl = decoded.business_details.logo.unwrap();
    assert_eq!(dl.url, "https://img.example/logo.png");
    assert_eq!(dl.thumbnail.as_deref(), Some("https://img.example/t.png"));
    assert_eq!(dl.category, LogoCategory::Operator);
    assert_eq!(dl.image_type, "image/png");
    assert_eq!(dl.width, 640);
    assert_eq!(dl.height, 480);
    assert_eq!(
        decoded.business_details.website.as_deref(),
        Some("https://cpo.example")
    );
}

#[test]
fn credentials_round_trip_keeps_every_field() {
    let c = Credentials::new(
        "9a4c1e2f-registration-token",
        "https://party.example/ocpi/versions",
        vec![
            CredentialsRole::new(Role::Emsp, "MSP", "DE", BusinessDetails::default()),
            CredentialsRole::new(Role::Hub, "HUB", "BE", BusinessDetails::default()),
        ],
    );
    let body = encode_credentials(&c);
    let decoded = decode_credentials(&body).unwrap();
    assert_eq!(decoded.token, c.token);
    assert_eq!(decoded.url, c.url);
    assert_eq!(decoded.roles.len(), 2);
    assert_eq!(decoded.roles[0].role, Role::Emsp);
    assert_eq!(decoded.roles[0].party_id, "MSP");
    assert_eq!(decoded.roles[1].role, Role::Hub);
    assert_eq!(decoded.roles[1].country_code, "BE");
}

#[test]
fn strings_with_quotes_and_backslashes_round_trip() {
    let v = Version::new(VersionNumber::V2_0, "odd \"path\" with \\ inside");
    let body = encode_version(&v);
    assert_eq!(
        body,
        "{\"version\":\"2.0\",\"url\":\"odd \\\"path\\\" with \\\\ inside\"}"
    );
    let decoded = decode_version(&body).unwrap();
    assert_eq!(decoded.url, "odd \"path\" with \\ inside");
}

#[test]
fn decode_rejects_bodies_that_are_not_canonical_encodings() {
    assert!(decode_version("").is_none());
    assert!(decode_version("{}").is_none());
    assert!(decode_version("{\"version\":\"9.9\",\"url\":\"x\"}").is_none());
    assert!(decode_version("{\"version\":\"2.2.1\",\"url\":\"x\"} ").is_none());
    assert!(decode_credentials("{\"token\":\"t\"}").is_none());
    assert!(decode_version_details("{\"version\":\"2.2\",\"endpoints\":[}").is_none());
}

#[test]
fn logo_with_empty_optionals_round_trips() {
    let logo = Logo::new("https://img", None, LogoCategory::Provider, "image/svg", 0, 10);
    let bd = BusinessDetails::new("P", Some(logo), None);
    let role = CredentialsRole::new(Role::Emsp, "PPP", "FR", bd);
    let body = encode_credentials_role(&role);
    assert!(body.contains("\"thumbnail\":null"));
    assert!(body.contains("\"website\":null"));
    assert!(body.contains("\"width\":0"));
    let decoded = decode_credentials_role(&body).unwrap();
    let dl = decoded.business_details.logo.unwrap();
    assert_eq!(dl.thumbnail, None);
    assert_eq!(dl.width, 0);
    assert_eq!(dl.height, 10);
    assert_eq!(decoded.business_details.website, None);
}
