//! Core data model and registration logic for the OCPI (Open Charge Point
//! Interface) protocol: version discovery records, module endpoint
//! descriptors, credentials exchanged during partner registration, version
//! negotiation, the registration handshake, and endpoint resolution.
//!
//! Transport (HTTP) is out of scope; callers hand wire bodies in and out as
//! plain strings through the `wire` module.

pub mod codec;
pub mod credentials;
pub mod error;
pub mod handshake;
pub mod negotiate;
pub mod registry;
pub mod resolver;
pub mod versions;
pub mod wire;
pub mod wire_credentials;
