use vstd::prelude::*;

verus! {

/// Failure taxonomy of the library. Every operation returns a typed result;
/// no error here is fatal to the caller's process.
#[derive(Clone, Copy, Debug, PartialEq, Eq, Structural)]
pub enum OcpiError {
    /// A version unknown to the registry was asked for.
    NotFound,
    /// Version negotiation found no mutually supported version.
    NoCommonVersion,
    /// A handshake offered a role the remote party may not expose.
    InvalidRole,
    /// A handshake offered the same (party id, country code, role) twice.
    DuplicateParty,
    /// A handshake offered an empty registration token.
    MalformedToken,
    /// No endpoint matches the requested (module, interface role) pair.
    EndpointNotFound,
}

} // verus!
