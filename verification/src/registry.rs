use vstd::prelude::*;
use crate::error::OcpiError;
use crate::versions::{Version, VersionDetails, VersionDetailsV, VersionNumber, VersionV};

verus! {

/// Access to the protocol versions a party supports and to their endpoint
/// listings. Implemented by `VersionRegistry` for the local party; remote
/// parties expose the same interface over transport, outside this library.
pub trait VersionsModule {
    /// The advertised versions, in advertisement order.
    spec fn versions_model(&self) -> Seq<VersionV>;

    /// The endpoint listing published for version `n`, where one is known.
    spec fn details_model(&self, n: VersionNumber) -> Option<VersionDetailsV>;

    /// List the supported versions.
    fn get_versions(&self) -> (r: Result<Vec<Version>, OcpiError>)
        ensures
            r matches Ok(vs) ==> vs.deep_view() == self.versions_model(),
    ;

    /// Fetch the endpoint listing of one version.
    fn get_version_details(&self, version: VersionNumber) -> (r: Result<
        VersionDetails,
        OcpiError,
    >)
        ensures
            r matches Ok(d) ==> self.details_model(version) == Some(d@),
    ;
}

/// Mathematical model of a `RegistryEntry`.
#[verifier::ext_equal]
pub ghost struct RegistryEntryV {
    pub version: VersionV,
    pub details: VersionDetailsV,
}

/// One supported version paired with its endpoint listing.
pub struct RegistryEntry {
    pub version: Version,
    pub details: VersionDetails,
}

impl View for RegistryEntry {
    type V = RegistryEntryV;

    open spec fn view(&self) -> RegistryEntryV {
        RegistryEntryV { version: self.version@, details: self.details@ }
    }
}

impl DeepView for RegistryEntry {
    type V = RegistryEntryV;

    open spec fn deep_view(&self) -> RegistryEntryV {
        self@
    }
}

/// The endpoint listing of the first entry advertising version `n`.
pub open spec fn find_details(s: Seq<RegistryEntryV>, n: VersionNumber) -> Option<
    VersionDetailsV,
>
    decreases s.len(),
{
    if s.len() == 0 {
        None
    } else if s[0].version.version == n {
        Some(s[0].details)
    } else {
        find_details(s.skip(1), n)
    }
}

/// The authoritative set of versions the local party supports, fixed at
/// initialization and read-only afterwards.
pub struct VersionRegistry {
    pub entries: Vec<RegistryEntry>,
}

impl View for VersionRegistry {
    type V = Seq<RegistryEntryV>;

    open spec fn view(&self) -> Seq<RegistryEntryV> {
        self.entries.deep_view()
    }
}

impl VersionRegistry {
    pub fn new() -> (r: VersionRegistry)
        ensures
            r@ == Seq::<RegistryEntryV>::empty(),
    {
        let r = VersionRegistry { entries: Vec::new() };
        proof {
            assert(r@ =~= Seq::<RegistryEntryV>::empty());
        }
        r
    }

    /// Record one supported version and its endpoint listing.
    pub fn add(&mut self, version: Version, details: VersionDetails)
        ensures
            final(self)@ =~= old(self)@.push(
                RegistryEntryV { version: version@, details: details@ },
            ),
    {
        let ghost vv = version@;
        let ghost dv = details@;
        self.entries.push(RegistryEntry { version, details });
        proof {
            assert(self@ =~= old(self)@.push(RegistryEntryV { version: vv, details: dv }));
        }
    }

    /// The advertised versions, in registration order.
    pub fn list_versions(&self) -> (r: Vec<Version>)
        ensures
            r.deep_view() == self@.map_values(|e: RegistryEntryV| e.version),
    {
        let mut out: Vec<Version> = Vec::new();
        let mut i: usize = 0;
        while i < self.entries.len()
            invariant
                i <= self.entries@.len(),
                out@.len() == i,
                forall|k: int| 0 <= k < i ==> out@[k]@ == self@[k].version,
            decreases self.entries@.len() - i,
        {
            out.push(self.entries[i].version.duplicate());
            i = i + 1;
        }
        proof {
            assert(out.deep_view() =~= self@.map_values(|e: RegistryEntryV| e.version));
        }
        out
    }

    /// The endpoint listing of version `n`; fails with `NotFound` exactly
    /// when no registered entry advertises `n`.
    pub fn get_details(&self, n: VersionNumber) -> (r: Result<VersionDetails, OcpiError>)
        ensures
            match r {
                Ok(d) => find_details(self@, n) == Some(d@),
                Err(e) => e == OcpiError::NotFound && find_details(self@, n) is None,
            },
    {
        let mut i: usize = 0;
        proof {
            assert(self@.skip(0) =~= self@);
        }
        while i < self.entries.len()
            invariant
                i <= self.entries@.len(),
                find_details(self@, n) == find_details(self@.skip(i as int), n),
            decreases self.entries@.len() - i,
        {
            if self.entries[i].version.version == n {
                proof {
                    assert(self@.skip(i as int)[0] == self@[i as int]);
                }
                return Ok(self.entries[i].details.duplicate());
            }
            proof {
                assert(self@.skip(i as int)[0] == self@[i as int]);
                assert(self@.skip(i as int).skip(1) =~= self@.skip(i as int + 1));
            }
            i = i + 1;
        }
        proof {
            assert(self@.skip(i as int).len() == 0);
        }
        Err(OcpiError::NotFound)
    }
}

impl VersionsModule for VersionRegistry {
    open spec fn versions_model(&self) -> Seq<VersionV> {
        self@.map_values(|e: RegistryEntryV| e.version)
    }

    open spec fn details_model(&self, n: VersionNumber) -> Option<VersionDetailsV> {
        find_details(self@, n)
    }

    fn get_versions(&self) -> (r: Result<Vec<Version>, OcpiError>) {
        Ok(self.list_versions())
    }

    fn get_version_details(&self, version: VersionNumber) -> (r: Result<
        VersionDetails,
        OcpiError,
    >) {
        self.get_details(version)
    }
}

} // verus!
