use ocpi_core::credentials::{BusinessDetails, Credentials, CredentialsRole, Role};
use ocpi_core::error::OcpiError;
use ocpi_core::handshake::{Handshake, HandshakeState};

fn creds(token: &str, role: Role, party_id: &str, country_code: &str) -> Credentials {
    Credentials::new(
        token,
        "https://party.example/ocpi/versions",
        vec![CredentialsRole::new(role, party_id, country_code, BusinessDetails::default())],
    )
}

#[test]
fn handshake_registers_valid_remote_credentials() {
    let mut h = Handshake::new(vec![Role::Cpo, Role::Emsp]);
    assert_eq!(h.state, HandshakeState::Unregistered);
    h.initiate(creds("local-token", Role::Emsp, "MSP", "DE"));
    assert_eq!(h.state, HandshakeState::TokenSent);
    let remote = creds("remote-token", Role::Cpo, "ABC", "NL");
    let got = h.complete(remote).unwrap();
    assert_eq!(h.state, HandshakeState::Registered);
    assert_eq!(got.token, "remote-token");
    let stored = h.store.get(&String::from("ABC"), &String::from("NL")).unwrap();
    assert_eq!(stored.token, "remote-token");
    assert_eq!(stored.roles[0].role, Role::Cpo);
}

#[test]
fn second_registration_replaces_credentials_whole_for_the_same_party() {
    // (party_id "ABC", country_code "NL") registers as Cpo, then again as
    // Emsp: the second record replaces the first entirely, no role merge.
    let mut h = Handshake::new(vec![Role::Cpo, Role::Emsp]);
    h.initiate(creds("local-token", Role::Emsp, "MSP", "DE"));
    h.complete(creds("token-one", Role::Cpo, "ABC", "NL")).unwrap();
    h.complete(creds("token-two", Role::Emsp, "ABC", "NL")).unwrap();
    let stored = h.store.get(&String::from("ABC"), &String::from("NL")).unwrap();
    assert_eq!(stored.token, "token-two");
    assert_eq!(stored.roles.len(), 1);
    assert_eq!(stored.roles[0].role, Role::Emsp);
}

#[test]
fn completing_twice_with_the_same_credentials_changes_nothing() {
    let mut h = Handshake::new(vec![Role::Cpo]);
    h.initiate(creds("local-token", Role::Cpo, "LOC", "DE"));
    let remote = creds("remote-token", Role::Cpo, "ABC", "NL");
    h.complete(remote.duplicate()).unwrap();
    assert_eq!(h.state, HandshakeState::Registered);
    assert_eq!(h.store.entries.len(), 1);
    let again = h.complete(remote).unwrap();
    assert_eq!(h.state, HandshakeState::Registered);
    assert_eq!(again.token, "remote-token");
    let stored = h.store.get(&String::from("ABC"), &String::from("NL")).unwrap();
    assert_eq!(stored.token, "remote-token");
    assert_eq!(stored.roles.len(), 1);
    assert_eq!(stored.roles[0].role, Role::Cpo);
    assert_eq!(stored.roles[0].party_id, "ABC");
}

#[test]
fn empty_token_is_rejected_as_malformed() {
    let mut h = Handshake::new(vec![Role::Cpo]);
    h.initiate(creds("local-token", Role::Cpo, "LOC", "DE"));
    let r = h.complete(creds("", Role::Cpo, "ABC", "NL"));
    assert!(matches!(r, Err(OcpiError::MalformedToken)));
    assert_eq!(h.state, HandshakeState::Failed);
    assert_eq!(h.failure, Some(OcpiError::MalformedToken));
}

#[test]
fn role_outside_the_permitted_set_is_rejected() {
    let mut h = Handshake::new(vec![Role::Cpo]);
    h.initiate(creds("local-token", Role::Cpo, "LOC", "DE"));
    let r = h.complete(creds("remote-token", Role::Hub, "HUB", "NL"));
    assert!(matches!(r, Err(OcpiError::InvalidRole)));
    assert_eq!(h.state, HandshakeState::Failed);
}

#[test]
fn credentials_without_roles_are_rejected() {
    let mut h = Handshake::new(vec![Role::Cpo]);
    h.initiate(creds("local-token", Role::Cpo, "LOC", "DE"));
    let r = h.complete(Credentials::new("remote-token", "https://r", Vec::new()));
    assert!(matches!(r, Err(OcpiError::InvalidRole)));
}

#[test]
fn repeated_party_role_triple_is_rejected_as_duplicate() {
    let mut h = Handshake::new(vec![Role::Cpo]);
    h.initiate(creds("local-token", Role::Cpo, "LOC", "DE"));
    let remote = Credentials::new(
        "remote-token",
        "https://r",
        vec![
            CredentialsRole::new(Role::Cpo, "ABC", "NL", BusinessDetails::default()),
            CredentialsRole::new(Role::Cpo, "ABC", "NL", BusinessDetails::default()),
        ],
    );
    let r = h.complete(remote);
    assert!(matches!(r, Err(OcpiError::DuplicateParty)));
    assert_eq!(h.state, HandshakeState::Failed);
}

#[test]
fn failed_handshake_restarts_from_unregistered() {
    let mut h = Handshake::new(vec![Role::Cpo]);
    h.initiate(creds("local-token", Role::Cpo, "LOC", "DE"));
    let _ = h.complete(creds("", Role::Cpo, "ABC", "NL"));
    assert_eq!(h.state, HandshakeState::Failed);
    assert_eq!(h.failure, Some(OcpiError::MalformedToken));
    h.restart();
    assert_eq!(h.state, HandshakeState::Unregistered);
    assert_eq!(h.failure, None);
}
