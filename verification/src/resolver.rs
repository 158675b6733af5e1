use vstd::prelude::*;
use crate::error::OcpiError;
use crate::versions::{EndpointV, InterfaceRole, ModuleID, VersionDetails, VersionDetailsV};

verus! {

/// Whether endpoint `e` serves module `m` under interface role `ir`.
pub open spec fn endpoint_matches(e: EndpointV, m: ModuleID, ir: InterfaceRole) -> bool {
    e.identifier == m && e.role == ir
}

/// Look up the URL at which `module` is reachable under `role` in the given
/// version details.
///
/// Returns the URL of the first matching endpoint, and fails with
/// `EndpointNotFound` exactly when no endpoint matches. Under the record
/// invariant `VersionDetailsV::wf` the match, when it exists, is unique
/// (see `lemma_endpoint_key_determines_url`).
pub fn resolve(details: &VersionDetails, module: ModuleID, role: InterfaceRole) -> (r: Result<
    String,
    OcpiError,
>)
    ensures
        match r {
            Ok(u) => exists|i: int|
                0 <= i < details@.endpoints.len() && endpoint_matches(
                    details@.endpoints[i],
                    module,
                    role,
                ) && u@ == details@.endpoints[i].url && forall|j: int|
                    0 <= j < i ==> !endpoint_matches(details@.endpoints[j], module, role),
            Err(e) => e == OcpiError::EndpointNotFound && forall|i: int|
                0 <= i < details@.endpoints.len() ==> !endpoint_matches(
                    details@.endpoints[i],
                    module,
                    role,
                ),
        },
{
    let n = details.endpoints.len();
    let mut i: usize = 0;
    while i < n
        invariant
            i <= n,
            n == details.endpoints@.len(),
            forall|j: int| 0 <= j < i ==> !endpoint_matches(details@.endpoints[j], module, role),
        decreases n - i,
    {
        if details.endpoints[i].identifier == module && details.endpoints[i].role == role {
            proof {
                assert(endpoint_matches(details@.endpoints[i as int], module, role));
            }
            return Ok(details.endpoints[i].url.clone());
        }
        i = i + 1;
    }
    Err(OcpiError::EndpointNotFound)
}

/// Within one well-formed `VersionDetails`, the (module, interface role) key
/// determines the endpoint: two endpoints under the same key are one and the
/// same, so no two distinct URLs share a key.
pub proof fn lemma_endpoint_key_determines_url(d: VersionDetailsV, i: int, j: int)
    requires
        d.wf(),
        0 <= i < d.endpoints.len(),
        0 <= j < d.endpoints.len(),
        d.endpoints[i].identifier == d.endpoints[j].identifier,
        d.endpoints[i].role == d.endpoints[j].role,
    ensures
        i == j,
        d.endpoints[i].url == d.endpoints[j].url,
{
}

} // verus!
