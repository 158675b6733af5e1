use vstd::prelude::*;

verus! {

/// The closed set of protocol revisions this library knows how to negotiate.
/// Extending it is a protocol-version change, not a runtime operation.
///
/// Revisions are compared through `spec_rank`, a total order over the closed
/// enumeration (not lexicographic order over the printed form).
#[derive(Clone, Copy, Debug, PartialEq, Eq, Structural)]
pub enum VersionNumber {
    V2_0,
    V2_1,
    V2_1_1,
    V2_2,
    V2_2_1,
    V2_3_0,
}

impl VersionNumber {
    /// Position of this revision in the total order over the enumeration.
    pub open spec fn spec_rank(self) -> int {
        match self {
            VersionNumber::V2_0 => 0,
            VersionNumber::V2_1 => 1,
            VersionNumber::V2_1_1 => 2,
            VersionNumber::V2_2 => 3,
            VersionNumber::V2_2_1 => 4,
            VersionNumber::V2_3_0 => 5,
        }
    }

    /// Executable form of `spec_rank`, for comparing two revisions.
    pub fn rank(self) -> (r: u8)
        ensures
            r as int == self.spec_rank(),
    {
        match self {
            VersionNumber::V2_0 => 0,
            VersionNumber::V2_1 => 1,
            VersionNumber::V2_1_1 => 2,
            VersionNumber::V2_2 => 3,
            VersionNumber::V2_2_1 => 4,
            VersionNumber::V2_3_0 => 5,
        }
    }
}

/// Which party initiates calls to an endpoint.
#[derive(Clone, Copy, Debug, PartialEq, Eq, Structural)]
pub enum InterfaceRole {
    Sender,
    Receiver,
}

/// The closed vocabulary of protocol capability areas.
#[derive(Clone, Copy, Debug, PartialEq, Eq, Structural)]
pub enum ModuleID {
    Cdrs,
    ChargingProfiles,
    Commands,
    Credentials,
    HubClientInfo,
    Locations,
    Sessions,
    Tariffs,
    Tokens,
}

/// Mathematical model of a `Version`.
#[verifier::ext_equal]
pub ghost struct VersionV {
    pub version: VersionNumber,
    pub url: Seq<char>,
}

/// One supported protocol revision together with the base URL at which its
/// version details can be fetched.
pub struct Version {
    pub version: VersionNumber,
    pub url: String,
}

impl View for Version {
    type V = VersionV;

    open spec fn view(&self) -> VersionV {
        VersionV { version: self.version, url: self.url@ }
    }
}

impl DeepView for Version {
    type V = VersionV;

    open spec fn deep_view(&self) -> VersionV {
        self@
    }
}

impl Version {
    pub fn new(version: VersionNumber, url: &str) -> (r: Version)
        ensures
            r@ == (VersionV { version, url: url@ }),
    {
        Version { version, url: url.to_owned() }
    }

    /// Field-for-field copy with the same model.
    pub fn duplicate(&self) -> (r: Version)
        ensures
            r@ == self@,
    {
        Version { version: self.version, url: self.url.clone() }
    }
}

/// Mathematical model of an `Endpoint`.
#[verifier::ext_equal]
pub ghost struct EndpointV {
    pub identifier: ModuleID,
    pub role: InterfaceRole,
    pub url: Seq<char>,
}

/// One module's reachable address for a given interface role.
pub struct Endpoint {
    pub identifier: ModuleID,
    pub role: InterfaceRole,
    pub url: String,
}

impl View for Endpoint {
    type V = EndpointV;

    open spec fn view(&self) -> EndpointV {
        EndpointV { identifier: self.identifier, role: self.role, url: self.url@ }
    }
}

impl DeepView for Endpoint {
    type V = EndpointV;

    open spec fn deep_view(&self) -> EndpointV {
        self@
    }
}

impl Endpoint {
    pub fn new(identifier: ModuleID, role: InterfaceRole, url: &str) -> (r: Endpoint)
        ensures
            r@ == (EndpointV { identifier, role, url: url@ }),
    {
        Endpoint { identifier, role, url: url.to_owned() }
    }

    /// Field-for-field copy with the same model.
    pub fn duplicate(&self) -> (r: Endpoint)
        ensures
            r@ == self@,
    {
        Endpoint { identifier: self.identifier, role: self.role, url: self.url.clone() }
    }
}

/// Mathematical model of a `VersionDetails`.
#[verifier::ext_equal]
pub ghost struct VersionDetailsV {
    pub version: VersionNumber,
    pub endpoints: Seq<EndpointV>,
}

impl VersionDetailsV {
    /// The record invariant: at least one endpoint, and the
    /// (module, interface role) pair is unique among the endpoints.
    pub open spec fn wf(self) -> bool {
        &&& self.endpoints.len() > 0
        &&& forall|i: int, j: int|
            0 <= i < self.endpoints.len() && 0 <= j < self.endpoints.len() && i != j
                ==> !(self.endpoints[i].identifier == self.endpoints[j].identifier
                    && self.endpoints[i].role == self.endpoints[j].role)
    }
}

/// The endpoint listing of one protocol revision.
pub struct VersionDetails {
    pub version: VersionNumber,
    pub endpoints: Vec<Endpoint>,
}

impl View for VersionDetails {
    type V = VersionDetailsV;

    open spec fn view(&self) -> VersionDetailsV {
        VersionDetailsV { version: self.version, endpoints: self.endpoints.deep_view() }
    }
}

impl DeepView for VersionDetails {
    type V = VersionDetailsV;

    open spec fn deep_view(&self) -> VersionDetailsV {
        self@
    }
}

impl VersionDetails {
    pub fn new(version: VersionNumber, endpoints: Vec<Endpoint>) -> (r: VersionDetails)
        ensures
            r@ == (VersionDetailsV { version, endpoints: endpoints.deep_view() }),
    {
        VersionDetails { version, endpoints }
    }

    /// Field-for-field copy with the same model.
    pub fn duplicate(&self) -> (r: VersionDetails)
        ensures
            r@ == self@,
    {
        let mut endpoints: Vec<Endpoint> = Vec::new();
        let mut i: usize = 0;
        while i < self.endpoints.len()
            invariant
                i <= self.endpoints@.len(),
                endpoints@.len() == i,
                forall|k: int| 0 <= k < i ==> endpoints@[k]@ == self.endpoints@[k]@,
            decreases self.endpoints@.len() - i,
        {
            let d = self.endpoints[i].duplicate();
            endpoints.push(d);
            i = i + 1;
        }
        proof {
            assert(endpoints.deep_view() =~= self.endpoints.deep_view());
        }
        VersionDetails { version: self.version, endpoints }
    }

    /// Runtime check of the record invariant `VersionDetailsV::wf`.
    pub fn well_formed(&self) -> (r: bool)
        ensures
            r == self@.wf(),
    {
        let n = self.endpoints.len();
        if n == 0 {
            return false;
        }
        let mut i: usize = 0;
        while i < n
            invariant
                i <= n,
                n == self.endpoints@.len(),
                forall|p: int, q: int|
                    0 <= p < i && p < q < n
                        ==> !(self@.endpoints[p].identifier == self@.endpoints[q].identifier
                            && self@.endpoints[p].role == self@.endpoints[q].role),
            decreases n - i,
        {
            let mut j: usize = i + 1;
            while j < n
                invariant
                    i < j <= n,
                    n == self.endpoints@.len(),
                    forall|q: int|
                        i < q < j
                            ==> !(self@.endpoints[i as int].identifier == self@.endpoints[q].identifier
                                && self@.endpoints[i as int].role == self@.endpoints[q].role),
                decreases n - j,
            {
                if self.endpoints[i].identifier == self.endpoints[j].identifier
                    && self.endpoints[i].role == self.endpoints[j].role {
                    proof {
                        assert(self@.endpoints[i as int].identifier
                            == self@.endpoints[j as int].identifier);
                        assert(self@.endpoints[i as int].role == self@.endpoints[j as int].role);
                    }
                    return false;
                }
                j = j + 1;
            }
            i = i + 1;
        }
        proof {
            assert forall|p: int, q: int|
                0 <= p < self@.endpoints.len() && 0 <= q < self@.endpoints.len() && p != q
                implies !(self@.endpoints[p].identifier == self@.endpoints[q].identifier
                    && self@.endpoints[p].role == self@.endpoints[q].role) by {
                if p < q {
                    assert(0 <= p < i && p < q < n);
                } else {
                    assert(0 <= q < i && q < p < n);
                }
            }
        }
        true
    }
}

} // verus!

