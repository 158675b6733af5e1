use vstd::prelude::*;
use crate::codec::{
    append_lit, append_str_enc, chars_eq_lit, chars_to_string, eat_lit, enc_str,
    lemma_prefix_split, lemma_subrange_join, parse_string, prefix_of, str_to_chars,
};
use crate::versions::{
    Endpoint, EndpointV, InterfaceRole, ModuleID, Version, VersionDetails, VersionDetailsV,
    VersionNumber, VersionV,
};

verus! {

// ---------------------------------------------------------------------------
// Enumeration tags (snake_case wire form) and their JSON encodings
// ---------------------------------------------------------------------------

/// The wire tag of a version number.
pub open spec fn vn_token(n: VersionNumber) -> Seq<char> {
    match n {
        VersionNumber::V2_0 => "2.0"@,
        VersionNumber::V2_1 => "2.1"@,
        VersionNumber::V2_1_1 => "2.1.1"@,
        VersionNumber::V2_2 => "2.2"@,
        VersionNumber::V2_2_1 => "2.2.1"@,
        VersionNumber::V2_3_0 => "2.3.0"@,
    }
}

/// The wire tag of a module identifier.
pub open spec fn module_token(m: ModuleID) -> Seq<char> {
    match m {
        ModuleID::Cdrs => "cdrs"@,
        ModuleID::ChargingProfiles => "charging_profiles"@,
        ModuleID::Commands => "commands"@,
        ModuleID::Credentials => "credentials"@,
        ModuleID::HubClientInfo => "hub_client_info"@,
        ModuleID::Locations => "locations"@,
        ModuleID::Sessions => "sessions"@,
        ModuleID::Tariffs => "tariffs"@,
        ModuleID::Tokens => "tokens"@,
    }
}

/// The wire tag of an interface role.
pub open spec fn ir_token(r: InterfaceRole) -> Seq<char> {
    match r {
        InterfaceRole::Sender => "sender"@,
        InterfaceRole::Receiver => "receiver"@,
    }
}

pub open spec fn enc_version_number(n: VersionNumber) -> Seq<char> {
    enc_str(vn_token(n))
}

pub open spec fn enc_module_id(m: ModuleID) -> Seq<char> {
    enc_str(module_token(m))
}

pub open spec fn enc_interface_role(r: InterfaceRole) -> Seq<char> {
    enc_str(ir_token(r))
}

impl VersionNumber {
    /// The printed form of the revision, its wire tag.
    pub fn as_str(self) -> (r: &'static str)
        ensures
            r@ == vn_token(self),
    {
        match self {
            VersionNumber::V2_0 => "2.0",
            VersionNumber::V2_1 => "2.1",
            VersionNumber::V2_1_1 => "2.1.1",
            VersionNumber::V2_2 => "2.2",
            VersionNumber::V2_2_1 => "2.2.1",
            VersionNumber::V2_3_0 => "2.3.0",
        }
    }
}

impl ModuleID {
    /// The wire tag of the module identifier.
    pub fn as_str(self) -> (r: &'static str)
        ensures
            r@ == module_token(self),
    {
        match self {
            ModuleID::Cdrs => "cdrs",
            ModuleID::ChargingProfiles => "charging_profiles",
            ModuleID::Commands => "commands",
            ModuleID::Credentials => "credentials",
            ModuleID::HubClientInfo => "hub_client_info",
            ModuleID::Locations => "locations",
            ModuleID::Sessions => "sessions",
            ModuleID::Tariffs => "tariffs",
            ModuleID::Tokens => "tokens",
        }
    }
}

impl InterfaceRole {
    /// The wire tag of the interface role.
    pub fn as_str(self) -> (r: &'static str)
        ensures
            r@ == ir_token(self),
    {
        match self {
            InterfaceRole::Sender => "sender",
            InterfaceRole::Receiver => "receiver",
        }
    }
}

/// Parse a version number tag with its quotes.
pub fn parse_version_number(s: &Vec<char>, i: usize) -> (r: Option<(VersionNumber, usize)>)
    ensures
        r matches Some(p) ==> i < p.1 <= s@.len() && s@.subrange(i as int, p.1 as int)
            == enc_version_number(p.0),
        forall|m: VersionNumber| #[trigger] prefix_of(enc_version_number(m), s@, i as int)
            ==> (match r {
            Some(p) => p.0 == m && p.1 == i + enc_version_number(m).len(),
            None => false,
        }),
{
    proof {
        reveal_strlit("2.0");
        reveal_strlit("2.1");
        reveal_strlit("2.1.1");
        reveal_strlit("2.2");
        reveal_strlit("2.2.1");
        reveal_strlit("2.3.0");
        assert forall|m: VersionNumber| #[trigger] prefix_of(enc_version_number(m), s@, i as int)
            implies prefix_of(enc_str(vn_token(m)), s@, i as int) by {}
        assert("2.0"@.len() == 3 && "2.0"@[2] == '0');
        assert("2.1"@.len() == 3 && "2.1"@[2] == '1');
        assert("2.1.1"@.len() == 5 && "2.1.1"@[2] == '1');
        assert("2.2"@.len() == 3 && "2.2"@[2] == '2');
        assert("2.2.1"@.len() == 5 && "2.2.1"@[2] == '2');
        assert("2.3.0"@.len() == 5 && "2.3.0"@[2] == '3');
    }
    match parse_string(s, i) {
        None => None,
        Some((t, j)) => {
            let out = if chars_eq_lit(&t, "2.0") {
                Some(VersionNumber::V2_0)
            } else if chars_eq_lit(&t, "2.1") {
                Some(VersionNumber::V2_1)
            } else if chars_eq_lit(&t, "2.1.1") {
                Some(VersionNumber::V2_1_1)
            } else if chars_eq_lit(&t, "2.2") {
                Some(VersionNumber::V2_2)
            } else if chars_eq_lit(&t, "2.2.1") {
                Some(VersionNumber::V2_2_1)
            } else if chars_eq_lit(&t, "2.3.0") {
                Some(VersionNumber::V2_3_0)
            } else {
                None
            };
            match out {
                Some(n) => Some((n, j)),
                None => None,
            }
        },
    }
}

/// Parse a module identifier tag with its quotes.
pub fn parse_module_id(s: &Vec<char>, i: usize) -> (r: Option<(ModuleID, usize)>)
    ensures
        r matches Some(p) ==> i < p.1 <= s@.len() && s@.subrange(i as int, p.1 as int)
            == enc_module_id(p.0),
        forall|m: ModuleID| #[trigger] prefix_of(enc_module_id(m), s@, i as int) ==> (match r {
            Some(p) => p.0 == m && p.1 == i + enc_module_id(m).len(),
            None => false,
        }),
{
    proof {
        reveal_strlit("cdrs");
        reveal_strlit("charging_profiles");
        reveal_strlit("commands");
        reveal_strlit("credentials");
        reveal_strlit("hub_client_info");
        reveal_strlit("locations");
        reveal_strlit("sessions");
        reveal_strlit("tariffs");
        reveal_strlit("tokens");
        assert forall|m: ModuleID| #[trigger] prefix_of(enc_module_id(m), s@, i as int)
            implies prefix_of(enc_str(module_token(m)), s@, i as int) by {}
        assert("cdrs"@.len() == 4 && "cdrs"@[0] == 'c');
        assert("charging_profiles"@.len() == 17 && "charging_profiles"@[0] == 'c');
        assert("commands"@.len() == 8 && "commands"@[0] == 'c');
        assert("credentials"@.len() == 11 && "credentials"@[0] == 'c');
        assert("hub_client_info"@.len() == 15 && "hub_client_info"@[0] == 'h');
        assert("locations"@.len() == 9 && "locations"@[0] == 'l');
        assert("sessions"@.len() == 8 && "sessions"@[0] == 's');
        assert("tariffs"@.len() == 7 && "tariffs"@[0] == 't');
        assert("tokens"@.len() == 6 && "tokens"@[0] == 't');
    }
    match parse_string(s, i) {
        None => None,
        Some((t, j)) => {
            let out = if chars_eq_lit(&t, "cdrs") {
                Some(ModuleID::Cdrs)
            } else if chars_eq_lit(&t, "charging_profiles") {
                Some(ModuleID::ChargingProfiles)
            } else if chars_eq_lit(&t, "commands") {
                Some(ModuleID::Commands)
            } else if chars_eq_lit(&t, "credentials") {
                Some(ModuleID::Credentials)
            } else if chars_eq_lit(&t, "hub_client_info") {
                Some(ModuleID::HubClientInfo)
            } else if chars_eq_lit(&t, "locations") {
                Some(ModuleID::Locations)
            } else if chars_eq_lit(&t, "sessions") {
                Some(ModuleID::Sessions)
            } else if chars_eq_lit(&t, "tariffs") {
                Some(ModuleID::Tariffs)
            } else if chars_eq_lit(&t, "tokens") {
                Some(ModuleID::Tokens)
            } else {
                None
            };
            match out {
                Some(n) => Some((n, j)),
                None => None,
            }
        },
    }
}

/// Parse an interface role tag with its quotes.
pub fn parse_interface_role(s: &Vec<char>, i: usize) -> (r: Option<(InterfaceRole, usize)>)
    ensures
        r matches Some(p) ==> i < p.1 <= s@.len() && s@.subrange(i as int, p.1 as int)
            == enc_interface_role(p.0),
        forall|m: InterfaceRole| #[trigger] prefix_of(enc_interface_role(m), s@, i as int)
            ==> (match r {
            Some(p) => p.0 == m && p.1 == i + enc_interface_role(m).len(),
            None => false,
        }),
{
    proof {
        reveal_strlit("sender");
        reveal_strlit("receiver");
        assert forall|m: InterfaceRole| #[trigger] prefix_of(enc_interface_role(m), s@, i as int)
            implies prefix_of(enc_str(ir_token(m)), s@, i as int) by {}
        assert("sender"@.len() == 6);
        assert("receiver"@.len() == 8);
    }
    match parse_string(s, i) {
        None => None,
        Some((t, j)) => {
            let out = if chars_eq_lit(&t, "sender") {
                Some(InterfaceRole::Sender)
            } else if chars_eq_lit(&t, "receiver") {
                Some(InterfaceRole::Receiver)
            } else {
                None
            };
            match out {
                Some(n) => Some((n, j)),
                None => None,
            }
        },
    }
}

// ---------------------------------------------------------------------------
// Version
// ---------------------------------------------------------------------------

/// The wire form of a `Version`.
pub open spec fn enc_version(w: VersionV) -> Seq<char> {
    "{\"version\":"@ + enc_version_number(w.version) + ",\"url\":"@ + enc_str(w.url) + "}"@
}

/// Where a `Version` encoding sits at `i`, this places its parts.
pub proof fn lemma_version_parts(w: VersionV, s: Seq<char>, i: int)
    requires
        prefix_of(enc_version(w), s, i),
    ensures
        prefix_of("{\"version\":"@, s, i),
        prefix_of(enc_version_number(w.version), s, i + "{\"version\":"@.len()),
        prefix_of(
            ",\"url\":"@,
            s,
            i + "{\"version\":"@.len() + enc_version_number(w.version).len(),
        ),
        prefix_of(
            enc_str(w.url),
            s,
            i + "{\"version\":"@.len() + enc_version_number(w.version).len() + ",\"url\":"@.len(),
        ),
        prefix_of(
            "}"@,
            s,
            i + "{\"version\":"@.len() + enc_version_number(w.version).len() + ",\"url\":"@.len()
                + enc_str(w.url).len(),
        ),
{
    let a = "{\"version\":"@;
    let b = enc_version_number(w.version);
    let c = ",\"url\":"@;
    let d = enc_str(w.url);
    let e = "}"@;
    lemma_prefix_split(a + b + c + d, e, s, i);
    lemma_prefix_split(a + b + c, d, s, i);
    lemma_prefix_split(a + b, c, s, i);
    lemma_prefix_split(a, b, s, i);
}

/// Encode a `Version` onto `out`.
pub fn append_version(out: &mut Vec<char>, v: &Version)
    ensures
        final(out)@ == old(out)@ + enc_version(v@),
{
    append_lit(out, "{\"version\":");
    append_str_enc(out, v.version.as_str());
    append_lit(out, ",\"url\":");
    append_str_enc(out, v.url.as_str());
    append_lit(out, "}");
    proof {
        assert(out@ =~= old(out)@ + enc_version(v@));
    }
}

/// Parse a `Version` starting at `i`.
pub fn parse_version(s: &Vec<char>, i: usize) -> (r: Option<(Version, usize)>)
    ensures
        r matches Some(p) ==> i < p.1 <= s@.len() && s@.subrange(i as int, p.1 as int)
            == enc_version(p.0@),
        forall|w: VersionV| #[trigger] prefix_of(enc_version(w), s@, i as int) ==> (match r {
            Some(p) => p.0@ == w && p.1 == i + enc_version(w).len(),
            None => false,
        }),
{
    let j0 = match eat_lit(s, i, "{\"version\":") {
        Some(j) => j,
        None => {
            proof {
                assert forall|w: VersionV| !prefix_of(enc_version(w), s@, i as int) by {
                    if prefix_of(enc_version(w), s@, i as int) {
                        lemma_version_parts(w, s@, i as int);
                    }
                }
            }
            return None;
        },
    };
    let (vn, j1) = match parse_version_number(s, j0) {
        Some(p) => p,
        None => {
            proof {
                assert forall|w: VersionV| !prefix_of(enc_version(w), s@, i as int) by {
                    if prefix_of(enc_version(w), s@, i as int) {
                        lemma_version_parts(w, s@, i as int);
                    }
                }
            }
            return None;
        },
    };
    let j2 = match eat_lit(s, j1, ",\"url\":") {
        Some(j) => j,
        None => {
            proof {
                assert forall|w: VersionV| !prefix_of(enc_version(w), s@, i as int) by {
                    if prefix_of(enc_version(w), s@, i as int) {
                        lemma_version_parts(w, s@, i as int);
                    }
                }
            }
            return None;
        },
    };
    let (url, j3) = match parse_string(s, j2) {
        Some(p) => p,
        None => {
            proof {
                assert forall|w: VersionV| !prefix_of(enc_version(w), s@, i as int) by {
                    if prefix_of(enc_version(w), s@, i as int) {
                        lemma_version_parts(w, s@, i as int);
                    }
                }
            }
            return None;
        },
    };
    let j4 = match eat_lit(s, j3, "}") {
        Some(j) => j,
        None => {
            proof {
                assert forall|w: VersionV| !prefix_of(enc_version(w), s@, i as int) by {
                    if prefix_of(enc_version(w), s@, i as int) {
                        lemma_version_parts(w, s@, i as int);
                    }
                }
            }
            return None;
        },
    };
    let v = Version { version: vn, url: chars_to_string(&url) };
    proof {
        lemma_subrange_join(s@, i as int, j0 as int, j1 as int);
        lemma_subrange_join(s@, i as int, j1 as int, j2 as int);
        lemma_subrange_join(s@, i as int, j2 as int, j3 as int);
        lemma_subrange_join(s@, i as int, j3 as int, j4 as int);
        assert(s@.subrange(i as int, j4 as int) =~= enc_version(v@));
        assert forall|w: VersionV| #[trigger] prefix_of(enc_version(w), s@, i as int)
            implies v@ == w && j4 == i + enc_version(w).len() by {
            lemma_version_parts(w, s@, i as int);
            assert(v@ =~= w);
        }
    }
    Some((v, j4))
}

/// The JSON body of one `Version` record.
pub fn encode_version(v: &Version) -> (r: String)
    ensures
        r@ == enc_version(v@),
{
    let mut out: Vec<char> = Vec::new();
    append_version(&mut out, v);
    proof {
        assert(out@ =~= enc_version(v@));
    }
    chars_to_string(&out)
}

/// Decode one `Version` record from a JSON body. Returns the record exactly
/// when the body is the canonical encoding of one, so decoding inverts
/// `encode_version`.
pub fn decode_version(s: &str) -> (r: Option<Version>)
    ensures
        r matches Some(v) ==> s@ == enc_version(v@),
        forall|w: VersionV| s@ == enc_version(w) ==> (r matches Some(v) && v@ == w),
{
    let cs = str_to_chars(s);
    proof {
        assert forall|w: VersionV| s@ == enc_version(w) implies prefix_of(
            enc_version(w),
            cs@,
            0,
        ) by {
            assert(cs@.subrange(0, enc_version(w).len() as int) =~= enc_version(w));
        }
    }
    match parse_version(&cs, 0) {
        Some((v, j)) => {
            if j == cs.len() {
                proof {
                    assert(cs@.subrange(0, j as int) =~= cs@);
                }
                Some(v)
            } else {
                None
            }
        },
        None => None,
    }
}

// ---------------------------------------------------------------------------
// Endpoint
// ---------------------------------------------------------------------------

/// The wire form of an `Endpoint`.
pub open spec fn enc_endpoint(w: EndpointV) -> Seq<char> {
    "{\"identifier\":"@ + enc_module_id(w.identifier) + ",\"role\":"@ + enc_interface_role(w.role)
        + ",\"url\":"@ + enc_str(w.url) + "}"@
}

/// Where an `Endpoint` encoding sits at `i`, this places its parts.
pub proof fn lemma_endpoint_parts(w: EndpointV, s: Seq<char>, i: int)
    requires
        prefix_of(enc_endpoint(w), s, i),
    ensures
        prefix_of("{\"identifier\":"@, s, i),
        prefix_of(enc_module_id(w.identifier), s, i + "{\"identifier\":"@.len()),
        prefix_of(
            ",\"role\":"@,
            s,
            i + "{\"identifier\":"@.len() + enc_module_id(w.identifier).len(),
        ),
        prefix_of(
            enc_interface_role(w.role),
            s,
            i + "{\"identifier\":"@.len() + enc_module_id(w.identifier).len() + ",\"role\":"@.len(),
        ),
        prefix_of(
            ",\"url\":"@,
            s,
            i + "{\"identifier\":"@.len() + enc_module_id(w.identifier).len() + ",\"role\":"@.len()
                + enc_interface_role(w.role).len(),
        ),
        prefix_of(
            enc_str(w.url),
            s,
            i + "{\"identifier\":"@.len() + enc_module_id(w.identifier).len() + ",\"role\":"@.len()
                + enc_interface_role(w.role).len() + ",\"url\":"@.len(),
        ),
        prefix_of(
            "}"@,
            s,
            i + "{\"identifier\":"@.len() + enc_module_id(w.identifier).len() + ",\"role\":"@.len()
                + enc_interface_role(w.role).len() + ",\"url\":"@.len() + enc_str(w.url).len(),
        ),
        s[i] == '{',
{
    let a = "{\"identifier\":"@;
    let b = enc_module_id(w.identifier);
    let c = ",\"role\":"@;
    let d = enc_interface_role(w.role);
    let e = ",\"url\":"@;
    let f = enc_str(w.url);
    let g = "}"@;
    lemma_prefix_split(a + b + c + d + e + f, g, s, i);
    lemma_prefix_split(a + b + c + d + e, f, s, i);
    lemma_prefix_split(a + b + c + d, e, s, i);
    lemma_prefix_split(a + b + c, d, s, i);
    lemma_prefix_split(a + b, c, s, i);
    lemma_prefix_split(a, b, s, i);
    reveal_strlit("{\"identifier\":");
    assert(s.subrange(i, i + a.len())[0] == a[0]);
}

/// Encode an `Endpoint` onto `out`.
pub fn append_endpoint(out: &mut Vec<char>, e: &Endpoint)
    ensures
        final(out)@ == old(out)@ + enc_endpoint(e@),
{
    append_lit(out, "{\"identifier\":");
    append_str_enc(out, e.identifier.as_str());
    append_lit(out, ",\"role\":");
    append_str_enc(out, e.role.as_str());
    append_lit(out, ",\"url\":");
    append_str_enc(out, e.url.as_str());
    append_lit(out, "}");
    proof {
        assert(out@ =~= old(out)@ + enc_endpoint(e@));
    }
}

/// Parse an `Endpoint` starting at `i`.
pub fn parse_endpoint(s: &Vec<char>, i: usize) -> (r: Option<(Endpoint, usize)>)
    ensures
        r matches Some(p) ==> i < p.1 <= s@.len() && s@.subrange(i as int, p.1 as int)
            == enc_endpoint(p.0@),
        forall|w: EndpointV| #[trigger] prefix_of(enc_endpoint(w), s@, i as int) ==> (match r {
            Some(p) => p.0@ == w && p.1 == i + enc_endpoint(w).len(),
            None => false,
        }),
{
    let j0 = match eat_lit(s, i, "{\"identifier\":") {
        Some(j) => j,
        None => {
            proof {
                assert forall|w: EndpointV| !prefix_of(enc_endpoint(w), s@, i as int) by {
                    if prefix_of(enc_endpoint(w), s@, i as int) {
                        lemma_endpoint_parts(w, s@, i as int);
                    }
                }
            }
            return None;
        },
    };
    let (m, j1) = match parse_module_id(s, j0) {
        Some(p) => p,
        None => {
            proof {
                assert forall|w: EndpointV| !prefix_of(enc_endpoint(w), s@, i as int) by {
                    if prefix_of(enc_endpoint(w), s@, i as int) {
                        lemma_endpoint_parts(w, s@, i as int);
                    }
                }
            }
            return None;
        },
    };
    let j2 = match eat_lit(s, j1, ",\"role\":") {
        Some(j) => j,
        None => {
            proof {
                assert forall|w: EndpointV| !prefix_of(enc_endpoint(w), s@, i as int) by {
                    if prefix_of(enc_endpoint(w), s@, i as int) {
                        lemma_endpoint_parts(w, s@, i as int);
                    }
                }
            }
            return None;
        },
    };
    let (ir, j3) = match parse_interface_role(s, j2) {
        Some(p) => p,
        None => {
            proof {
                assert forall|w: EndpointV| !prefix_of(enc_endpoint(w), s@, i as int) by {
                    if prefix_of(enc_endpoint(w), s@, i as int) {
                        lemma_endpoint_parts(w, s@, i as int);
                    }
                }
            }
            return None;
        },
    };
    let j4 = match eat_lit(s, j3, ",\"url\":") {
        Some(j) => j,
        None => {
            proof {
                assert forall|w: EndpointV| !prefix_of(enc_endpoint(w), s@, i as int) by {
                    if prefix_of(enc_endpoint(w), s@, i as int) {
                        lemma_endpoint_parts(w, s@, i as int);
                    }
                }
            }
            return None;
        },
    };
    let (url, j5) = match parse_string(s, j4) {
        Some(p) => p,
        None => {
            proof {
                assert forall|w: EndpointV| !prefix_of(enc_endpoint(w), s@, i as int) by {
                    if prefix_of(enc_endpoint(w), s@, i as int) {
                        lemma_endpoint_parts(w, s@, i as int);
                    }
                }
            }
            return None;
        },
    };
    let j6 = match eat_lit(s, j5, "}") {
        Some(j) => j,
        None => {
            proof {
                assert forall|w: EndpointV| !prefix_of(enc_endpoint(w), s@, i as int) by {
                    if prefix_of(enc_endpoint(w), s@, i as int) {
                        lemma_endpoint_parts(w, s@, i as int);
                    }
                }
            }
            return None;
        },
    };
    let e = Endpoint { identifier: m, role: ir, url: chars_to_string(&url) };
    proof {
        lemma_subrange_join(s@, i as int, j0 as int, j1 as int);
        lemma_subrange_join(s@, i as int, j1 as int, j2 as int);
        lemma_subrange_join(s@, i as int, j2 as int, j3 as int);
        lemma_subrange_join(s@, i as int, j3 as int, j4 as int);
        lemma_subrange_join(s@, i as int, j4 as int, j5 as int);
        lemma_subrange_join(s@, i as int, j5 as int, j6 as int);
        assert(s@.subrange(i as int, j6 as int) =~= enc_endpoint(e@));
        assert forall|w: EndpointV| #[trigger] prefix_of(enc_endpoint(w), s@, i as int)
            implies e@ == w && j6 == i + enc_endpoint(w).len() by {
            lemma_endpoint_parts(w, s@, i as int);
            assert(e@ =~= w);
        }
    }
    Some((e, j6))
}

// ---------------------------------------------------------------------------
// Endpoint lists
// ---------------------------------------------------------------------------

/// The wire form of the tail of an endpoint array: zero or more
/// comma-prefixed endpoints, then the closing bracket.
pub open spec fn enc_endpoint_rest(s: Seq<EndpointV>) -> Seq<char>
    decreases s.len(),
{
    if s.len() == 0 {
        "]"@
    } else {
        ","@ + enc_endpoint(s[0]) + enc_endpoint_rest(s.skip(1))
    }
}

/// The wire form of an endpoint array.
pub open spec fn enc_endpoint_list(s: Seq<EndpointV>) -> Seq<char> {
    if s.len() == 0 {
        "[]"@
    } else {
        "["@ + enc_endpoint(s[0]) + enc_endpoint_rest(s.skip(1))
    }
}

/// Encode the tail of an endpoint array, elements `k` onward, onto `out`.
pub fn append_endpoint_rest(out: &mut Vec<char>, v: &Vec<Endpoint>, k: usize)
    requires
        k <= v@.len(),
    ensures
        final(out)@ == old(out)@ + enc_endpoint_rest(v.deep_view().skip(k as int)),
    decreases v@.len() - k,
{
    if k == v.len() {
        append_lit(out, "]");
        proof {
            assert(v.deep_view().skip(k as int) =~= Seq::<EndpointV>::empty());
        }
    } else {
        append_lit(out, ",");
        append_endpoint(out, &v[k]);
        append_endpoint_rest(out, v, k + 1);
        proof {
            assert(v.deep_view().skip(k as int)[0] == v.deep_view()[k as int]);
            assert(v.deep_view().skip(k as int).skip(1) =~= v.deep_view().skip(k as int + 1));
            assert(out@ =~= old(out)@ + enc_endpoint_rest(v.deep_view().skip(k as int)));
        }
    }
}

/// Encode an endpoint array onto `out`.
pub fn append_endpoint_list(out: &mut Vec<char>, v: &Vec<Endpoint>)
    ensures
        final(out)@ == old(out)@ + enc_endpoint_list(v.deep_view()),
{
    if v.len() == 0 {
        append_lit(out, "[]");
    } else {
        append_lit(out, "[");
        append_endpoint(out, &v[0]);
        append_endpoint_rest(out, v, 1);
        proof {
            assert(v.deep_view()[0] == v@[0]@);
            assert(out@ =~= old(out)@ + enc_endpoint_list(v.deep_view()));
        }
    }
}

/// Parse the tail of an endpoint array: zero or more comma-prefixed
/// endpoints, then the closing bracket.
pub fn parse_endpoint_rest(s: &Vec<char>, i: usize) -> (r: Option<(Vec<Endpoint>, usize)>)
    ensures
        r matches Some(p) ==> i < p.1 <= s@.len() && s@.subrange(i as int, p.1 as int)
            == enc_endpoint_rest(p.0.deep_view()),
        forall|w: Seq<EndpointV>| #[trigger] prefix_of(enc_endpoint_rest(w), s@, i as int)
            ==> (match r {
            Some(p) => p.0.deep_view() == w && p.1 == i + enc_endpoint_rest(w).len(),
            None => false,
        }),
    decreases s@.len() - i,
{
    proof {
        reveal_strlit("]");
        reveal_strlit(",");
    }
    match eat_lit(s, i, "]") {
        Some(j) => {
            let v: Vec<Endpoint> = Vec::new();
            proof {
                assert(v.deep_view() =~= Seq::<EndpointV>::empty());
                assert forall|w: Seq<EndpointV>| #[trigger] prefix_of(
                    enc_endpoint_rest(w),
                    s@,
                    i as int,
                ) implies w == v.deep_view() && j == i + enc_endpoint_rest(w).len() by {
                    if w.len() > 0 {
                        lemma_prefix_split(
                            ","@ + enc_endpoint(w[0]),
                            enc_endpoint_rest(w.skip(1)),
                            s@,
                            i as int,
                        );
                        lemma_prefix_split(","@, enc_endpoint(w[0]), s@, i as int);
                        assert(s@.subrange(i as int, i as int + 1)[0] == ","@[0]);
                        assert(s@.subrange(i as int, i as int + 1)[0] == "]"@[0]);
                        assert(false);
                    }
                    assert(w =~= v.deep_view());
                }
            }
            Some((v, j))
        },
        None => {
            let j0 = match eat_lit(s, i, ",") {
                Some(j) => j,
                None => {
                    proof {
                        assert forall|w: Seq<EndpointV>| !prefix_of(
                            enc_endpoint_rest(w),
                            s@,
                            i as int,
                        ) by {
                            if prefix_of(enc_endpoint_rest(w), s@, i as int) {
                                if w.len() > 0 {
                                    lemma_prefix_split(
                                        ","@ + enc_endpoint(w[0]),
                                        enc_endpoint_rest(w.skip(1)),
                                        s@,
                                        i as int,
                                    );
                                    lemma_prefix_split(","@, enc_endpoint(w[0]), s@, i as int);
                                }
                            }
                        }
                    }
                    return None;
                },
            };
            let (e, j1) = match parse_endpoint(s, j0) {
                Some(p) => p,
                None => {
                    proof {
                        assert forall|w: Seq<EndpointV>| !prefix_of(
                            enc_endpoint_rest(w),
                            s@,
                            i as int,
                        ) by {
                            if prefix_of(enc_endpoint_rest(w), s@, i as int) {
                                if w.len() > 0 {
                                    lemma_prefix_split(
                                        ","@ + enc_endpoint(w[0]),
                                        enc_endpoint_rest(w.skip(1)),
                                        s@,
                                        i as int,
                                    );
                                    lemma_prefix_split(","@, enc_endpoint(w[0]), s@, i as int);
                                }
                            }
                        }
                    }
                    return None;
                },
            };
            let (rest, j2) = match parse_endpoint_rest(s, j1) {
                Some(p) => p,
                None => {
                    proof {
                        assert forall|w: Seq<EndpointV>| !prefix_of(
                            enc_endpoint_rest(w),
                            s@,
                            i as int,
                        ) by {
                            if prefix_of(enc_endpoint_rest(w), s@, i as int) {
                                if w.len() > 0 {
                                    lemma_prefix_split(
                                        ","@ + enc_endpoint(w[0]),
                                        enc_endpoint_rest(w.skip(1)),
                                        s@,
                                        i as int,
                                    );
                                    lemma_prefix_split(","@, enc_endpoint(w[0]), s@, i as int);
                                }
                            }
                        }
                    }
                    return None;
                },
            };
            let mut v = rest;
            v.insert(0, e);
            proof {
                lemma_subrange_join(s@, i as int, j0 as int, j1 as int);
                lemma_subrange_join(s@, i as int, j1 as int, j2 as int);
                assert(v.deep_view() =~= seq![e@] + rest.deep_view());
                assert(v.deep_view().len() > 0);
                assert(v.deep_view()[0] == e@);
                assert(v.deep_view().skip(1) =~= rest.deep_view());
                assert(s@.subrange(i as int, j2 as int) =~= enc_endpoint_rest(v.deep_view()));
                assert forall|w: Seq<EndpointV>| #[trigger] prefix_of(
                    enc_endpoint_rest(w),
                    s@,
                    i as int,
                ) implies v.deep_view() == w && j2 == i + enc_endpoint_rest(w).len() by {
                    if w.len() == 0 {
                        assert(false);
                    } else {
                        lemma_prefix_split(
                            ","@ + enc_endpoint(w[0]),
                            enc_endpoint_rest(w.skip(1)),
                            s@,
                            i as int,
                        );
                        lemma_prefix_split(","@, enc_endpoint(w[0]), s@, i as int);
                        assert(v.deep_view() =~= w);
                    }
                }
            }
            Some((v, j2))
        },
    }
}

/// Parse an endpoint array starting at `i`.
pub fn parse_endpoint_list(s: &Vec<char>, i: usize) -> (r: Option<(Vec<Endpoint>, usize)>)
    ensures
        r matches Some(p) ==> i < p.1 <= s@.len() && s@.subrange(i as int, p.1 as int)
            == enc_endpoint_list(p.0.deep_view()),
        forall|w: Seq<EndpointV>| #[trigger] prefix_of(enc_endpoint_list(w), s@, i as int)
            ==> (match r {
            Some(p) => p.0.deep_view() == w && p.1 == i + enc_endpoint_list(w).len(),
            None => false,
        }),
{
    proof {
        reveal_strlit("[");
        reveal_strlit("]");
        reveal_strlit("[]");
        assert("[]"@ =~= "["@ + "]"@);
        assert forall|w: Seq<EndpointV>| #[trigger] prefix_of(enc_endpoint_list(w), s@, i as int)
            implies prefix_of("["@, s@, i as int) && (if w.len() == 0 {
            prefix_of("]"@, s@, i + 1)
        } else {
            prefix_of(enc_endpoint(w[0]), s@, i + 1) && prefix_of(
                enc_endpoint_rest(w.skip(1)),
                s@,
                i + 1 + enc_endpoint(w[0]).len(),
            )
        }) by {
            if w.len() == 0 {
                lemma_prefix_split("["@, "]"@, s@, i as int);
            } else {
                lemma_prefix_split(
                    "["@ + enc_endpoint(w[0]),
                    enc_endpoint_rest(w.skip(1)),
                    s@,
                    i as int,
                );
                lemma_prefix_split("["@, enc_endpoint(w[0]), s@, i as int);
            }
        }
    }
    let j0 = match eat_lit(s, i, "[") {
        Some(j) => j,
        None => {
            return None;
        },
    };
    match eat_lit(s, j0, "]") {
        Some(j1) => {
            let v: Vec<Endpoint> = Vec::new();
            proof {
                assert(v.deep_view() =~= Seq::<EndpointV>::empty());
                assert(s@.subrange(i as int, j1 as int) =~= "[]"@) by {
                    lemma_subrange_join(s@, i as int, j0 as int, j1 as int);
                }
                assert forall|w: Seq<EndpointV>| #[trigger] prefix_of(
                    enc_endpoint_list(w),
                    s@,
                    i as int,
                ) implies w == v.deep_view() && j1 == i + enc_endpoint_list(w).len() by {
                    if w.len() > 0 {
                        lemma_endpoint_parts(w[0], s@, i as int + 1);
                        assert(s@.subrange(j0 as int, j0 as int + 1)[0] == "]"@[0]);
                        assert(false);
                    }
                    assert(w =~= v.deep_view());
                }
            }
            Some((v, j1))
        },
        None => {
            let (e, j1) = match parse_endpoint(s, j0) {
                Some(p) => p,
                None => {
                    proof {
                        assert forall|w: Seq<EndpointV>| !prefix_of(
                            enc_endpoint_list(w),
                            s@,
                            i as int,
                        ) by {
                            if prefix_of(enc_endpoint_list(w), s@, i as int) && w.len() == 0 {
                            }
                        }
                    }
                    return None;
                },
            };
            let (rest, j2) = match parse_endpoint_rest(s, j1) {
                Some(p) => p,
                None => {
                    proof {
                        assert forall|w: Seq<EndpointV>| !prefix_of(
                            enc_endpoint_list(w),
                            s@,
                            i as int,
                        ) by {
                            if prefix_of(enc_endpoint_list(w), s@, i as int) && w.len() == 0 {
                            }
                        }
                    }
                    return None;
                },
            };
            let mut v = rest;
            v.insert(0, e);
            proof {
                lemma_subrange_join(s@, i as int, j0 as int, j1 as int);
                lemma_subrange_join(s@, i as int, j1 as int, j2 as int);
                assert(v.deep_view() =~= seq![e@] + rest.deep_view());
                assert(v.deep_view().len() > 0);
                assert(v.deep_view()[0] == e@);
                assert(v.deep_view().skip(1) =~= rest.deep_view());
                assert(s@.subrange(i as int, j2 as int) =~= enc_endpoint_list(v.deep_view()));
                assert forall|w: Seq<EndpointV>| #[trigger] prefix_of(
                    enc_endpoint_list(w),
                    s@,
                    i as int,
                ) implies v.deep_view() == w && j2 == i + enc_endpoint_list(w).len() by {
                    if w.len() == 0 {
                        assert(false);
                    } else {
                        assert(v.deep_view() =~= w);
                    }
                }
            }
            Some((v, j2))
        },
    }
}

// ---------------------------------------------------------------------------
// VersionDetails
// ---------------------------------------------------------------------------

/// The wire form of a `VersionDetails`.
pub open spec fn enc_version_details(w: VersionDetailsV) -> Seq<char> {
    "{\"version\":"@ + enc_version_number(w.version) + ",\"endpoints\":"@ + enc_endpoint_list(
        w.endpoints,
    ) + "}"@
}

/// Where a `VersionDetails` encoding sits at `i`, this places its parts.
pub proof fn lemma_version_details_parts(w: VersionDetailsV, s: Seq<char>, i: int)
    requires
        prefix_of(enc_version_details(w), s, i),
    ensures
        prefix_of("{\"version\":"@, s, i),
        prefix_of(enc_version_number(w.version), s, i + "{\"version\":"@.len()),
        prefix_of(
            ",\"endpoints\":"@,
            s,
            i + "{\"version\":"@.len() + enc_version_number(w.version).len(),
        ),
        prefix_of(
            enc_endpoint_list(w.endpoints),
            s,
            i + "{\"version\":"@.len() + enc_version_number(w.version).len()
                + ",\"endpoints\":"@.len(),
        ),
        prefix_of(
            "}"@,
            s,
            i + "{\"version\":"@.len() + enc_version_number(w.version).len()
                + ",\"endpoints\":"@.len() + enc_endpoint_list(w.endpoints).len(),
        ),
{
    let a = "{\"version\":"@;
    let b = enc_version_number(w.version);
    let c = ",\"endpoints\":"@;
    let d = enc_endpoint_list(w.endpoints);
    let e = "}"@;
    lemma_prefix_split(a + b + c + d, e, s, i);
    lemma_prefix_split(a + b + c, d, s, i);
    lemma_prefix_split(a + b, c, s, i);
    lemma_prefix_split(a, b, s, i);
}

/// Parse a `VersionDetails` starting at `i`.
pub fn parse_version_details(s: &Vec<char>, i: usize) -> (r: Option<(VersionDetails, usize)>)
    ensures
        r matches Some(p) ==> i < p.1 <= s@.len() && s@.subrange(i as int, p.1 as int)
            == enc_version_details(p.0@),
        forall|w: VersionDetailsV| #[trigger] prefix_of(enc_version_details(w), s@, i as int)
            ==> (match r {
            Some(p) => p.0@ == w && p.1 == i + enc_version_details(w).len(),
            None => false,
        }),
{
    let j0 = match eat_lit(s, i, "{\"version\":") {
        Some(j) => j,
        None => {
            proof {
                assert forall|w: VersionDetailsV| !prefix_of(enc_version_details(w), s@, i as int)
                    by {
                    if prefix_of(enc_version_details(w), s@, i as int) {
                        lemma_version_details_parts(w, s@, i as int);
                    }
                }
            }
            return None;
        },
    };
    let (vn, j1) = match parse_version_number(s, j0) {
        Some(p) => p,
        None => {
            proof {
                assert forall|w: VersionDetailsV| !prefix_of(enc_version_details(w), s@, i as int)
                    by {
                    if prefix_of(enc_version_details(w), s@, i as int) {
                        lemma_version_details_parts(w, s@, i as int);
                    }
                }
            }
            return None;
        },
    };
    let j2 = match eat_lit(s, j1, ",\"endpoints\":") {
        Some(j) => j,
        None => {
            proof {
                assert forall|w: VersionDetailsV| !prefix_of(enc_version_details(w), s@, i as int)
                    by {
                    if prefix_of(enc_version_details(w), s@, i as int) {
                        lemma_version_details_parts(w, s@, i as int);
                    }
                }
            }
            return None;
        },
    };
    let (eps, j3) = match parse_endpoint_list(s, j2) {
        Some(p) => p,
        None => {
            proof {
                assert forall|w: VersionDetailsV| !prefix_of(enc_version_details(w), s@, i as int)
                    by {
                    if prefix_of(enc_version_details(w), s@, i as int) {
                        lemma_version_details_parts(w, s@, i as int);
                    }
                }
            }
            return None;
        },
    };
    let j4 = match eat_lit(s, j3, "}") {
        Some(j) => j,
        None => {
            proof {
                assert forall|w: VersionDetailsV| !prefix_of(enc_version_details(w), s@, i as int)
                    by {
                    if prefix_of(enc_version_details(w), s@, i as int) {
                        lemma_version_details_parts(w, s@, i as int);
                    }
                }
            }
            return None;
        },
    };
    let d = VersionDetails { version: vn, endpoints: eps };
    proof {
        lemma_subrange_join(s@, i as int, j0 as int, j1 as int);
        lemma_subrange_join(s@, i as int, j1 as int, j2 as int);
        lemma_subrange_join(s@, i as int, j2 as int, j3 as int);
        lemma_subrange_join(s@, i as int, j3 as int, j4 as int);
        assert(s@.subrange(i as int, j4 as int) =~= enc_version_details(d@));
        assert forall|w: VersionDetailsV| #[trigger] prefix_of(enc_version_details(w), s@, i as int)
            implies d@ == w && j4 == i + enc_version_details(w).len() by {
            lemma_version_details_parts(w, s@, i as int);
            assert(d@ =~= w);
        }
    }
    Some((d, j4))
}

/// The JSON body of one `VersionDetails` record.
pub fn encode_version_details(d: &VersionDetails) -> (r: String)
    ensures
        r@ == enc_version_details(d@),
{
    let mut out: Vec<char> = Vec::new();
    append_lit(&mut out, "{\"version\":");
    append_str_enc(&mut out, d.version.as_str());
    append_lit(&mut out, ",\"endpoints\":");
    append_endpoint_list(&mut out, &d.endpoints);
    append_lit(&mut out, "}");
    proof {
        assert(out@ =~= enc_version_details(d@));
    }
    chars_to_string(&out)
}

/// Decode one `VersionDetails` record from a JSON body. Returns the record
/// exactly when the body is the canonical encoding of one, so decoding
/// inverts `encode_version_details`.
pub fn decode_version_details(s: &str) -> (r: Option<VersionDetails>)
    ensures
        r matches Some(d) ==> s@ == enc_version_details(d@),
        forall|w: VersionDetailsV| s@ == enc_version_details(w) ==> (r matches Some(d) && d@ == w),
{
    let cs = str_to_chars(s);
    proof {
        assert forall|w: VersionDetailsV| s@ == enc_version_details(w) implies prefix_of(
            enc_version_details(w),
            cs@,
            0,
        ) by {
            assert(cs@.subrange(0, enc_version_details(w).len() as int) =~= enc_version_details(w));
        }
    }
    match parse_version_details(&cs, 0) {
        Some((d, j)) => {
            if j == cs.len() {
                proof {
                    assert(cs@.subrange(0, j as int) =~= cs@);
                }
                Some(d)
            } else {
                None
            }
        },
        None => None,
    }
}

} // verus!
